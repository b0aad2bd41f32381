//! A line-oriented markdown renderer for the modal.
//!
//! It produces *semantics*, not escape codes: each line says what it is, and the plugin
//! maps that onto Zellij's styling primitives.
//!
//! A terminal has one font size, so headings cannot literally be bigger. Hierarchy comes
//! from case, colour, weight and a rule underneath, which is what `LineKind` encodes.
use crate::text::{chars_of, concat, copy_range, has_prefix, lemma_trim_end_is_prefix, lines_of,
    split_lines, starts_with, string_of, trim, trim_end, trim_start, trimmed, trimmed_end,
    trimmed_start, white, is_white};
use vstd::prelude::*;

verus! {

/// What a line is. The plugin decides how each of these looks.
#[derive(Debug, Clone, Copy, PartialEq, Eq, Structural)]
pub enum LineKind {
    Heading1,
    Heading2,
    Heading3,
    /// A horizontal rule. Its text is empty; the renderer draws it to the pane width.
    Rule,
    Checkbox { done: bool },
    Bullet,
    Quote,
    Code,
    Plain,
}

#[derive(Debug, Clone, Copy, PartialEq, Eq, Structural)]
pub enum SpanKind {
    Strong,
    Code,
}

/// A styled run inside a line, in **character** offsets, end exclusive.
#[derive(Debug, Clone, Copy, PartialEq, Eq, Structural)]
pub struct Span {
    pub start: usize,
    pub end: usize,
    pub kind: SpanKind,
}

#[derive(Debug, Clone, PartialEq, Eq)]
pub struct RenderedLine {
    pub text: String,
    pub kind: LineKind,
    pub spans: Vec<Span>,
}

/// A rendered line as text, kind and spans.
pub type LineView = (Seq<char>, LineKind, Seq<Span>);

impl View for RenderedLine {
    type V = LineView;

    open spec fn view(&self) -> LineView {
        (self.text@, self.kind, self.spans@)
    }
}

/// The views of a sequence of rendered lines.
pub open spec fn line_views(v: Seq<RenderedLine>) -> Seq<LineView> {
    v.map_values(|l: RenderedLine| l@)
}

/// Every span lies inside the text, start before end: `start <= end <= text.len()`.
pub open spec fn spans_within(line: LineView) -> bool {
    forall|k: int|
        0 <= k < line.2.len() ==> #[trigger] line.2[k].start <= line.2[k].end <= line.0.len()
}

/// The spans come in order and do not overlap: each ends no later than any later one
/// starts.
pub open spec fn spans_in_order(spans: Seq<Span>) -> bool {
    forall|i: int, j: int|
        0 <= i < j < spans.len() ==> #[trigger] spans[i].end <= #[trigger] spans[j].start
}

/// A line as the renderer makes it: its spans lie inside its text, in order and apart; a
/// rule has no text and no spans; a code line has no spans.
pub open spec fn well_formed(line: LineView) -> bool {
    &&& spans_within(line)
    &&& spans_in_order(line.2)
    &&& line.1 == LineKind::Rule ==> line.0.len() == 0 && line.2.len() == 0
    &&& line.1 == LineKind::Code ==> line.2.len() == 0
}

/// Every line is well formed.
pub open spec fn all_well_formed(lines: Seq<LineView>) -> bool {
    forall|i: int| 0 <= i < lines.len() ==> well_formed(#[trigger] lines[i])
}

// ---------------------------------------------------------------- inline markup

/// The first index at or after `from` where `s` holds `c`.
pub open spec fn find_char(s: Seq<char>, from: int, c: char) -> Option<int>
    decreases s.len() - from,
{
    if from < 0 || from >= s.len() {
        None
    } else if s[from] == c {
        Some(from)
    } else {
        find_char(s, from + 1, c)
    }
}

/// The first index at or after `from` where `s` holds `**`.
pub open spec fn find_double_star_at(s: Seq<char>, from: int) -> Option<int>
    decreases s.len() - from,
{
    if from < 0 || from + 1 >= s.len() {
        None
    } else if s[from] == '*' && s[from + 1] == '*' {
        Some(from)
    } else {
        find_double_star_at(s, from + 1)
    }
}

pub proof fn lemma_find_char_bounds(s: Seq<char>, from: int, c: char)
    ensures
        find_char(s, from, c) matches Some(k) ==> from <= k < s.len() && s[k] == c,
    decreases s.len() - from,
{
    if 0 <= from < s.len() && s[from] != c {
        lemma_find_char_bounds(s, from + 1, c);
    }
}

pub proof fn lemma_find_double_star_bounds(s: Seq<char>, from: int)
    ensures
        find_double_star_at(s, from) matches Some(k) ==> from <= k && k + 1 < s.len(),
    decreases s.len() - from,
{
    if 0 <= from && from + 1 < s.len() && !(s[from] == '*' && s[from + 1] == '*') {
        lemma_find_double_star_bounds(s, from + 1);
    }
}

/// Strips `**strong**` and `` `code` `` markers from `s[i..]`, whose output starts at
/// character offset `len`; returns the text and the runs, which are addressed by offsets
/// into the whole output. An unmatched marker stays as it is.
pub open spec fn inline_from(s: Seq<char>, i: int, len: int) -> (Seq<char>, Seq<Span>)
    decreases s.len() - i,
{
    if i < 0 || i >= s.len() {
        (Seq::empty(), Seq::empty())
    } else if s[i] == '`' && find_char(s, i + 1, '`') is Some {
        let close = find_char(s, i + 1, '`')->0;
        proof {
            lemma_find_char_bounds(s, i + 1, '`');
        }
        let piece = s.subrange(i + 1, close);
        let rest = inline_from(s, close + 1, len + piece.len());
        (
            piece + rest.0,
            seq![Span { start: len as usize, end: (len + piece.len()) as usize, kind: SpanKind::Code }]
                + rest.1,
        )
    } else if s[i] == '*' && i + 1 < s.len() && s[i + 1] == '*' && find_double_star_at(s, i + 2)
        is Some {
        let close = find_double_star_at(s, i + 2)->0;
        proof {
            lemma_find_double_star_bounds(s, i + 2);
        }
        let piece = s.subrange(i + 2, close);
        let rest = inline_from(s, close + 2, len + piece.len());
        (
            piece + rest.0,
            seq![
                Span { start: len as usize, end: (len + piece.len()) as usize, kind: SpanKind::Strong },
            ] + rest.1,
        )
    } else {
        let rest = inline_from(s, i + 1, len + 1);
        (seq![s[i]] + rest.0, rest.1)
    }
}

/// The text of `s` with its inline markers removed, and where the marked runs ended up.
pub open spec fn inline_spec(s: Seq<char>) -> (Seq<char>, Seq<Span>) {
    inline_from(s, 0, 0)
}

/// The first `c` in `s` at or after `from`.
fn find_char_from(s: &[char], from: usize, c: char) -> (r: Option<usize>)
    ensures
        match r {
            Some(k) => find_char(s@, from as int, c) == Some(k as int),
            None => find_char(s@, from as int, c) is None,
        },
{
    let mut i = from;
    while i < s.len()
        invariant
            from <= i,
            find_char(s@, from as int, c) == find_char(s@, i as int, c),
        decreases s.len() - i,
    {
        if s[i] == c {
            return Some(i);
        }
        i = i + 1;
    }
    None
}

/// The first `**` in `chars` at or after `from`.
fn find_double_star(chars: &[char], from: usize) -> (r: Option<usize>)
    ensures
        match r {
            Some(k) => find_double_star_at(chars@, from as int) == Some(k as int),
            None => find_double_star_at(chars@, from as int) is None,
        },
{
    let mut i = from;
    while i < chars.len() && i + 1 < chars.len()
        invariant
            from <= i,
            find_double_star_at(chars@, from as int) == find_double_star_at(chars@, i as int),
        decreases chars.len() - i,
    {
        if chars[i] == '*' && chars[i + 1] == '*' {
            return Some(i);
        }
        i = i + 1;
    }
    None
}

/// Appends `s[lo..hi]` to `out`.
fn push_range(out: &mut Vec<char>, s: &[char], lo: usize, hi: usize)
    requires
        lo <= hi <= s.len(),
    ensures
        final(out)@ == old(out)@ + s@.subrange(lo as int, hi as int),
{
    let mut j = lo;
    while j < hi
        invariant
            lo <= j <= hi <= s.len(),
            out@ == old(out)@ + s@.subrange(lo as int, j as int),
        decreases hi - j,
    {
        out.push(s[j]);
        j = j + 1;
        assert(out@ =~= old(out)@ + s@.subrange(lo as int, j as int));
    }
}

/// Strips `**strong**` and `` `code` `` markers, reporting where the runs ended up.
/// An unmatched marker is left alone rather than swallowing the rest of the line.
fn inline(text: &[char]) -> (r: (Vec<char>, Vec<Span>))
    ensures
        (r.0@, r.1@) == inline_spec(text@),
{
    let ghost total = inline_spec(text@);
    let mut out: Vec<char> = Vec::new();
    let mut spans: Vec<Span> = Vec::new();
    let mut len: usize = 0;
    let mut i: usize = 0;
    while i < text.len()
        invariant
            i <= text.len(),
            len == out@.len(),
            out@ + inline_from(text@, i as int, len as int).0 == total.0,
            spans@ + inline_from(text@, i as int, len as int).1 == total.1,
        decreases text.len() - i,
    {
        let ghost s = text@;
        if text[i] == '`' {
            if let Some(close) = find_char_from(text, i + 1, '`') {
                proof {
                    lemma_find_char_bounds(s, i + 1, '`');
                }
                let start = len;
                let ghost before = out@;
                push_range(&mut out, text, i + 1, close);
                len = out.len();
                let sp = Span { start, end: len, kind: SpanKind::Code };
                let ghost old_spans = spans@;
                spans.push(sp);
                proof {
                    let piece = s.subrange(i + 1, close as int);
                    let rest = inline_from(s, close + 1, start + piece.len());
                    assert(inline_from(s, i as int, start as int) == (
                        piece + rest.0,
                        seq![sp] + rest.1,
                    ));
                    assert(out@ + rest.0 =~= before + (piece + rest.0));
                    assert(spans@ + rest.1 =~= old_spans + (seq![sp] + rest.1));
                }
                i = close + 1;
                continue;
            }
        }
        if text[i] == '*' && i + 1 < text.len() && text[i + 1] == '*' {
            if let Some(close) = find_double_star(text, i + 2) {
                proof {
                    lemma_find_double_star_bounds(s, i + 2);
                }
                let start = len;
                let ghost before = out@;
                push_range(&mut out, text, i + 2, close);
                len = out.len();
                let sp = Span { start, end: len, kind: SpanKind::Strong };
                let ghost old_spans = spans@;
                spans.push(sp);
                proof {
                    let piece = s.subrange(i + 2, close as int);
                    let rest = inline_from(s, close + 2, start + piece.len());
                    assert(inline_from(s, i as int, start as int) == (
                        piece + rest.0,
                        seq![sp] + rest.1,
                    ));
                    assert(out@ + rest.0 =~= before + (piece + rest.0));
                    assert(spans@ + rest.1 =~= old_spans + (seq![sp] + rest.1));
                }
                i = close + 2;
                continue;
            }
        }
        let ghost before = out@;
        let c = text[i];
        out.push(c);
        len = out.len();
        proof {
            let rest = inline_from(s, i + 1, len as int);
            assert(inline_from(s, i as int, len - 1) == (seq![c] + rest.0, rest.1));
            assert(out@ + rest.0 =~= before + (seq![c] + rest.0));
        }
        i = i + 1;
    }
    assert(out@ + Seq::<char>::empty() =~= out@);
    assert(spans@ + Seq::<Span>::empty() =~= spans@);
    (out, spans)
}

/// The runs of `inline_from(s, i, len)` lie between `len` and the end of its text.
#[verifier::spinoff_prover]
#[verifier::rlimit(40)]
proof fn lemma_inline_spans(s: Seq<char>, i: int, len: int)
    requires
        0 <= len,
        0 <= i,
        len + s.len() - i <= usize::MAX,
    ensures
        ({
            let (t, sp) = inline_from(s, i, len);
            &&& t.len() <= if 0 <= i <= s.len() { s.len() - i } else { 0 }
            &&& forall|k: int|
                0 <= k < sp.len() ==> len <= #[trigger] sp[k].start <= sp[k].end <= len + t.len()
            &&& spans_in_order(sp)
        }),
    decreases s.len() - i,
{
    if 0 <= i < s.len() {
        if s[i] == '`' && find_char(s, i + 1, '`') is Some {
            let close = find_char(s, i + 1, '`')->0;
            lemma_find_char_bounds(s, i + 1, '`');
            let piece = s.subrange(i + 1, close);
            lemma_inline_spans(s, close + 1, len + piece.len());
            let (t, sp) = inline_from(s, i, len);
            let rest = inline_from(s, close + 1, len + piece.len());
            assert forall|k: int| 0 <= k < sp.len() implies len <= #[trigger] sp[k].start
                <= sp[k].end <= len + t.len() by {
                if k > 0 {
                    assert(sp[k] == rest.1[k - 1]);
                }
            }
            assert forall|a: int, b: int| 0 <= a < b < sp.len() implies #[trigger] sp[a].end
                <= #[trigger] sp[b].start by {
                assert(sp[b] == rest.1[b - 1]);
                if a > 0 {
                    assert(sp[a] == rest.1[a - 1]);
                    assert(rest.1[a - 1].end <= rest.1[b - 1].start);
                } else {
                    assert(len + piece.len() <= rest.1[b - 1].start);
                }
            }
        } else if s[i] == '*' && i + 1 < s.len() && s[i + 1] == '*' && find_double_star_at(
            s,
            i + 2,
        ) is Some {
            let close = find_double_star_at(s, i + 2)->0;
            lemma_find_double_star_bounds(s, i + 2);
            let piece = s.subrange(i + 2, close);
            lemma_inline_spans(s, close + 2, len + piece.len());
            let (t, sp) = inline_from(s, i, len);
            let rest = inline_from(s, close + 2, len + piece.len());
            assert forall|k: int| 0 <= k < sp.len() implies len <= #[trigger] sp[k].start
                <= sp[k].end <= len + t.len() by {
                if k > 0 {
                    assert(sp[k] == rest.1[k - 1]);
                }
            }
            assert forall|a: int, b: int| 0 <= a < b < sp.len() implies #[trigger] sp[a].end
                <= #[trigger] sp[b].start by {
                assert(sp[b] == rest.1[b - 1]);
                if a > 0 {
                    assert(sp[a] == rest.1[a - 1]);
                    assert(rest.1[a - 1].end <= rest.1[b - 1].start);
                } else {
                    assert(len + piece.len() <= rest.1[b - 1].start);
                }
            }
        } else {
            lemma_inline_spans(s, i + 1, len + 1);
            let (t, sp) = inline_from(s, i, len);
            let rest = inline_from(s, i + 1, len + 1);
            assert(t == seq![s[i]] + rest.0);
            assert(sp == rest.1);
            assert forall|k: int| 0 <= k < sp.len() implies len <= #[trigger] sp[k].start
                <= sp[k].end <= len + t.len() by {
                assert(sp[k] == rest.1[k]);
            }
            assert(spans_in_order(sp));
        }
    }
}

/// The runs that inline markup reports lie inside its output text, in order and apart.
pub proof fn lemma_inline_spans_in_order(s: Seq<char>)
    requires
        s.len() <= usize::MAX,
    ensures
        ({
            let (t, sp) = inline_spec(s);
            &&& spans_within((t, LineKind::Plain, sp))
            &&& spans_in_order(sp)
        }),
{
    lemma_inline_spans(s, 0, 0);
}

/// The number of runs of `kind` among `spans`.
pub open spec fn count_kind(spans: Seq<Span>, kind: SpanKind) -> int
    decreases spans.len(),
{
    if spans.len() == 0 {
        0
    } else {
        (if spans[0].kind == kind {
            1int
        } else {
            0int
        }) + count_kind(spans.drop_first(), kind)
    }
}

/// No backtick and no `**` from `i` on.
pub open spec fn marker_free(s: Seq<char>, i: int) -> bool {
    forall|j: int|
        i <= j < s.len() ==> #[trigger] s[j] != '`' && !(s[j] == '*' && j + 1 < s.len() && s[j
            + 1] == '*')
}

/// Stripping inline markup removes only the markers: two characters for each code run
/// and four for each strong run; every other character is kept.
pub proof fn lemma_inline_removes_only_markers(s: Seq<char>, i: int, len: int)
    requires
        0 <= i <= s.len(),
    ensures
        ({
            let (t, sp) = inline_from(s, i, len);
            t.len() + 2 * count_kind(sp, SpanKind::Code) + 4 * count_kind(sp, SpanKind::Strong)
                == s.len() - i
        }),
    decreases s.len() - i,
{
    if i < s.len() {
        if s[i] == '`' && find_char(s, i + 1, '`') is Some {
            let close = find_char(s, i + 1, '`')->0;
            lemma_find_char_bounds(s, i + 1, '`');
            let piece = s.subrange(i + 1, close);
            lemma_inline_removes_only_markers(s, close + 1, len + piece.len());
            let sp = inline_from(s, i, len).1;
            assert(sp.drop_first() == inline_from(s, close + 1, len + piece.len()).1);
        } else if s[i] == '*' && i + 1 < s.len() && s[i + 1] == '*' && find_double_star_at(
            s,
            i + 2,
        ) is Some {
            let close = find_double_star_at(s, i + 2)->0;
            lemma_find_double_star_bounds(s, i + 2);
            let piece = s.subrange(i + 2, close);
            lemma_inline_removes_only_markers(s, close + 2, len + piece.len());
            let sp = inline_from(s, i, len).1;
            assert(sp.drop_first() == inline_from(s, close + 2, len + piece.len()).1);
        } else {
            lemma_inline_removes_only_markers(s, i + 1, len + 1);
        }
    }
}

/// Text without any backtick or `**` passes through inline markup unchanged, with no
/// runs.
pub proof fn lemma_marker_free_text_is_unchanged(s: Seq<char>, i: int, len: int)
    requires
        0 <= i <= s.len(),
        marker_free(s, i),
    ensures
        inline_from(s, i, len) == (s.skip(i), Seq::<Span>::empty()),
    decreases s.len() - i,
{
    if i < s.len() {
        lemma_marker_free_text_is_unchanged(s, i + 1, len + 1);
        assert(seq![s[i]] + s.skip(i + 1) =~= s.skip(i));
    } else {
        assert(s.skip(i) =~= Seq::<char>::empty());
    }
}

// ---------------------------------------------------------------- wrapping

/// The last index in `[lo, hi)` where `s` holds a space.
pub open spec fn last_space_in(s: Seq<char>, lo: int, hi: int) -> Option<int>
    decreases hi - lo,
{
    if hi <= lo {
        None
    } else if s[hi - 1] == ' ' {
        Some(hi - 1)
    } else {
        last_space_in(s, lo, hi - 1)
    }
}

pub proof fn lemma_last_space_bounds(s: Seq<char>, lo: int, hi: int)
    ensures
        last_space_in(s, lo, hi) matches Some(k) ==> lo <= k < hi,
    decreases hi - lo,
{
    if hi > lo && s[hi - 1] != ' ' {
        lemma_last_space_bounds(s, lo, hi - 1);
    }
}

/// Where the segment that starts at `start` ends: at most `width` characters on, and
/// at the last space inside that window when the line goes on past it and the space is
/// not the window's first character.
pub open spec fn break_end(s: Seq<char>, width: int, start: int) -> int {
    let hard = if start + width < s.len() {
        start + width
    } else {
        s.len() as int
    };
    if hard < s.len() {
        match last_space_in(s, start, hard) {
            Some(sp) => if sp > start {
                sp
            } else {
                hard
            },
            None => hard,
        }
    } else {
        hard
    }
}

/// The `(start, end)` character ranges of the segments from `start` on; the space at
/// which a line breaks belongs to no segment.
pub open spec fn bounds_from(s: Seq<char>, width: int, start: int) -> Seq<(int, int)>
    decreases s.len() - start,
{
    if width <= 0 || start < 0 || start >= s.len() {
        Seq::empty()
    } else {
        let end = break_end(s, width, start);
        proof {
            lemma_last_space_bounds(s, start, if start + width < s.len() {
                start + width
            } else {
                s.len() as int
            });
        }
        let next = if end < s.len() && s[end] == ' ' {
            end + 1
        } else {
            end
        };
        seq![(start, end)] + bounds_from(s, width, next)
    }
}

/// The segments a line of text is split into: the whole text when it fits in `width`.
pub open spec fn segment_bounds(s: Seq<char>, width: int) -> Seq<(int, int)> {
    if s.len() <= width {
        seq![(0, s.len() as int)]
    } else {
        bounds_from(s, width, 0)
    }
}

/// A span cut down to the segment `[start, end)`, in offsets from the segment's start;
/// nothing when it does not reach into the segment.
pub open spec fn clip_spec(span: Span, start: int, end: int) -> Option<Span> {
    let s = if span.start >= start {
        span.start as int
    } else {
        start
    };
    let e = if span.end <= end {
        span.end as int
    } else {
        end
    };
    if s >= e {
        None
    } else {
        Some(Span { start: (s - start) as usize, end: (e - start) as usize, kind: span.kind })
    }
}

/// Each span cut down to the segment `[start, end)`, those that miss it dropped.
pub open spec fn clip_all(spans: Seq<Span>, start: int, end: int) -> Seq<Span>
    decreases spans.len(),
{
    if spans.len() == 0 {
        Seq::empty()
    } else {
        let prev = clip_all(spans.drop_last(), start, end);
        match clip_spec(spans.last(), start, end) {
            Some(c) => prev.push(c),
            None => prev,
        }
    }
}

/// The lines one rendered line wraps into.
pub open spec fn wrap_line(line: LineView, width: int) -> Seq<LineView> {
    segment_bounds(line.0, width).map_values(
        |b: (int, int)| (line.0.subrange(b.0, b.1), line.1, clip_all(line.2, b.0, b.1)),
    )
}

/// The rendered lines wrapped to `width`; nothing at all for a zero width.
pub open spec fn wrapped(lines: Seq<LineView>, width: int) -> Seq<LineView>
    decreases lines.len(),
{
    if width <= 0 || lines.len() == 0 {
        Seq::empty()
    } else {
        wrapped(lines.drop_last(), width) + wrap_line(lines.last(), width)
    }
}

/// Every segment range is a non-empty-or-whole piece of the text of at most `width`
/// characters, and the ranges go forward.
pub proof fn lemma_bounds_from(s: Seq<char>, width: int, start: int)
    requires
        width > 0,
        0 <= start,
    ensures
        forall|k: int|
            0 <= k < bounds_from(s, width, start).len() ==> {
                let b = #[trigger] bounds_from(s, width, start)[k];
                start <= b.0 < b.1 <= s.len() && b.1 - b.0 <= width
            },
    decreases s.len() - start,
{
    if start < s.len() {
        let hard = if start + width < s.len() {
            start + width
        } else {
            s.len() as int
        };
        lemma_last_space_bounds(s, start, hard);
        let end = break_end(s, width, start);
        let next = if end < s.len() && s[end] == ' ' {
            end + 1
        } else {
            end
        };
        lemma_bounds_from(s, width, next);
        let all = bounds_from(s, width, start);
        let rest = bounds_from(s, width, next);
        assert forall|k: int| 0 <= k < all.len() implies {
            let b = #[trigger] all[k];
            start <= b.0 < b.1 <= s.len() && b.1 - b.0 <= width
        } by {
            if k > 0 {
                assert(all[k] == rest[k - 1]);
            }
        }
    }
}

/// The segment ranges of a line lie inside it and hold at most `width` characters.
pub proof fn lemma_segment_bounds(s: Seq<char>, width: int)
    requires
        width > 0,
    ensures
        forall|k: int|
            0 <= k < segment_bounds(s, width).len() ==> {
                let b = #[trigger] segment_bounds(s, width)[k];
                0 <= b.0 <= b.1 <= s.len() && b.1 - b.0 <= width
            },
{
    if s.len() > width {
        lemma_bounds_from(s, width, 0);
    }
}

/// The segment ranges start at `start` and follow one another, each beginning where the
/// previous ended or one past it when a space was dropped there; the last ends at the end
/// of the text, or just before a final space.
pub open spec fn chained(s: Seq<char>, b: Seq<(int, int)>, start: int) -> bool {
    &&& b.len() > 0
    &&& b[0].0 == start
    &&& forall|k: int|
        0 <= k < b.len() - 1 ==> #[trigger] b[k + 1].0 == b[k].1 || (b[k + 1].0 == b[k].1 + 1
            && s[b[k].1] == ' ')
    &&& b.last().1 == s.len() || (b.last().1 + 1 == s.len() && s[b.last().1] == ' ')
}

proof fn lemma_bounds_chain(s: Seq<char>, width: int, start: int)
    requires
        width > 0,
        0 <= start < s.len(),
    ensures
        chained(s, bounds_from(s, width, start), start),
    decreases s.len() - start,
{
    let hard = if start + width < s.len() {
        start + width
    } else {
        s.len() as int
    };
    lemma_last_space_bounds(s, start, hard);
    let end = break_end(s, width, start);
    let next = if end < s.len() && s[end] == ' ' {
        end + 1
    } else {
        end
    };
    let b = bounds_from(s, width, start);
    let rest = bounds_from(s, width, next);
    assert(b == seq![(start, end)] + rest);
    if next < s.len() {
        lemma_bounds_chain(s, width, next);
        assert forall|k: int| 0 <= k < b.len() - 1 implies #[trigger] b[k + 1].0 == b[k].1 || (b[k
            + 1].0 == b[k].1 + 1 && s[b[k].1] == ' ') by {
            if k > 0 {
                let j = k - 1;
                assert(b[k] == rest[j] && b[k + 1] == rest[j + 1]);
                assert(rest[j + 1].0 == rest[j].1 || (rest[j + 1].0 == rest[j].1 + 1 && s[rest[j].1]
                    == ' '));
            } else {
                assert(b[1] == rest[0]);
            }
        }
        assert(b.last() == rest.last());
    } else {
        assert(rest.len() == 0);
        assert(b.len() == 1);
    }
}

/// Wrapping only breaks a line: its segments start at its beginning and follow one
/// another, losing at most the single space at each break, until its end.
pub proof fn lemma_segments_cover_the_line(s: Seq<char>, width: int)
    requires
        width > 0,
    ensures
        chained(s, segment_bounds(s, width), 0),
{
    if s.len() > width {
        lemma_bounds_chain(s, width, 0);
    }
}

/// A range of `usize` offsets as integers.
pub open spec fn range_of(b: (usize, usize)) -> (int, int) {
    (b.0 as int, b.1 as int)
}

/// Every span is a non-empty run inside the text: `start < end <= text.len()`.
pub open spec fn spans_inside(line: LineView) -> bool {
    forall|k: int|
        0 <= k < line.2.len() ==> #[trigger] line.2[k].start < line.2[k].end <= line.0.len()
}

/// Every span is a non-empty run within the first `n` characters.
pub open spec fn runs_inside(spans: Seq<Span>, n: int) -> bool {
    forall|k: int| 0 <= k < spans.len() ==> #[trigger] spans[k].start < spans[k].end <= n
}

proof fn lemma_clip_all(spans: Seq<Span>, start: int, end: int)
    requires
        0 <= start <= end,
    ensures
        runs_inside(clip_all(spans, start, end), end - start),
    decreases spans.len(),
{
    if spans.len() > 0 {
        lemma_clip_all(spans.drop_last(), start, end);
        let prev = clip_all(spans.drop_last(), start, end);
        let all = clip_all(spans, start, end);
        let sp = spans.last();
        match clip_spec(sp, start, end) {
            Some(c) => {
                assert(all == prev.push(c));
                let a = if sp.start >= start {
                    sp.start as int
                } else {
                    start
                };
                let e = if sp.end <= end {
                    sp.end as int
                } else {
                    end
                };
                assert(c.start < c.end <= end - start);
                assert forall|k: int| 0 <= k < all.len() implies #[trigger] all[k].start
                    < all[k].end <= end - start by {
                    if k < prev.len() {
                        assert(all[k] == prev[k]);
                    }
                }
            },
            None => {
                assert(all == prev);
            },
        }
    }
}

/// Wrapping to a positive width: every line fits in `width` characters, every span is a
/// non-empty run inside its line, and every input line yields at least one line.
pub proof fn lemma_wrapped_fits(lines: Seq<LineView>, width: int)
    requires
        width > 0,
    ensures
        forall|i: int|
            0 <= i < wrapped(lines, width).len() ==> #[trigger] wrapped(lines, width)[i].0.len()
                <= width && spans_inside(wrapped(lines, width)[i]),
        wrapped(lines, width).len() >= lines.len(),
    decreases lines.len(),
{
    if lines.len() > 0 {
        lemma_wrapped_fits(lines.drop_last(), width);
        let l = lines.last();
        let prev = wrapped(lines.drop_last(), width);
        let piece = wrap_line(l, width);
        let all = wrapped(lines, width);
        let bs = segment_bounds(l.0, width);
        lemma_segment_bounds(l.0, width);
        if l.0.len() > width {
            assert(bs.len() > 0);
        }
        assert forall|j: int| 0 <= j < piece.len() implies #[trigger] piece[j].0.len() <= width
            && spans_inside(piece[j]) by {
            let b = bs[j];
            lemma_clip_all(l.2, b.0, b.1);
            assert(piece[j] == (l.0.subrange(b.0, b.1), l.1, clip_all(l.2, b.0, b.1)));
            let c = clip_all(l.2, b.0, b.1);
            assert forall|k: int| 0 <= k < c.len() implies #[trigger] c[k].start < c[k].end
                <= b.1 - b.0 by {
                assert(runs_inside(c, b.1 - b.0));
            }
        }
        assert forall|i: int| 0 <= i < all.len() implies #[trigger] all[i].0.len() <= width
            && spans_inside(all[i]) by {
            if i < prev.len() {
                assert(all[i] == prev[i]);
            } else {
                assert(all[i] == piece[i - prev.len()]);
            }
        }
    }
}

/// The ranges of the segments of `text` (see `segment_bounds`).
fn segments(text: &[char], width: usize) -> (r: Vec<(usize, usize)>)
    requires
        width > 0,
    ensures
        r@.len() == segment_bounds(text@, width as int).len(),
        forall|k: int|
            0 <= k < r@.len() ==> range_of(#[trigger] r@[k]) == segment_bounds(
                text@,
                width as int,
            )[k],
{
    let n = text.len();
    if n <= width {
        let r: Vec<(usize, usize)> = vec![(0, n)];
        assert(r@[0] == (0usize, n));
        return r;
    }
    let ghost s = text@;
    let ghost total = bounds_from(s, width as int, 0);
    let mut out: Vec<(usize, usize)> = Vec::new();
    let mut start: usize = 0;
    while start < n
        invariant
            n == text.len(),
            s == text@,
            total == bounds_from(s, width as int, 0),
            n > width > 0,
            start <= n,
            out@.map_values(|b: (usize, usize)| range_of(b)) + bounds_from(
                s,
                width as int,
                start as int,
            ) == total,
        decreases n - start,
    {
        let hard_end = if width < n - start {
            start + width
        } else {
            n
        };
        let mut end = hard_end;
        proof {
            lemma_last_space_bounds(s, start as int, hard_end as int);
        }
        if hard_end < n {
            let mut j = hard_end;
            while j > start && text[j - 1] != ' '
                invariant
                    n == text.len(),
                    s == text@,
                    start <= j <= hard_end <= n,
                    last_space_in(s, start as int, hard_end as int) == last_space_in(
                        s,
                        start as int,
                        j as int,
                    ),
                decreases j,
            {
                j = j - 1;
            }
            if j > start + 1 {
                end = j - 1;
            }
        }
        assert(end == break_end(s, width as int, start as int));
        let next = if end < n && text[end] == ' ' {
            end + 1
        } else {
            end
        };
        let ghost old_out = out@;
        out.push((start, end));
        proof {
            let f = |b: (usize, usize)| range_of(b);
            assert(out@.map_values(f) =~= old_out.map_values(f).push((start as int, end as int)));
            assert(bounds_from(s, width as int, start as int) == seq![(start as int, end as int)]
                + bounds_from(s, width as int, next as int));
            assert(out@.map_values(f) + bounds_from(s, width as int, next as int) =~= old_out.map_values(f)
                + bounds_from(s, width as int, start as int));
        }
        start = next;
    }
    proof {
        let f = |b: (usize, usize)| range_of(b);
        assert(out@.map_values(f) + Seq::<(int, int)>::empty() =~= out@.map_values(f));
        assert forall|k: int| 0 <= k < out@.len() implies range_of(#[trigger] out@[k]) == total[k] by {
            assert(out@.map_values(f)[k] == f(out@[k]));
        }
    }
    out
}

/// `span` cut down to the segment `[start, end)` (see `clip_spec`).
fn clip(span: Span, start: usize, end: usize) -> (r: Option<Span>)
    ensures
        r == clip_spec(span, start as int, end as int),
{
    let s = if span.start >= start {
        span.start
    } else {
        start
    };
    let e = if span.end <= end {
        span.end
    } else {
        end
    };
    if s >= e {
        return None;
    }
    Some(Span { start: s - start, end: e - start, kind: span.kind })
}

/// Wraps rendered lines to `width`, carrying each line's kind onto its continuations and
/// clipping inline spans to the segment they land in.
pub fn wrap(lines: &[RenderedLine], width: usize) -> (out: Vec<RenderedLine>)
    ensures
        line_views(out@) == wrapped(line_views(lines@), width as int),
{
    let ghost ls = line_views(lines@);
    if width == 0 {
        let out: Vec<RenderedLine> = Vec::new();
        assert(line_views(out@) =~= Seq::<LineView>::empty());
        return out;
    }
    let mut out: Vec<RenderedLine> = Vec::new();
    let mut i: usize = 0;
    assert(ls.take(0) =~= Seq::<LineView>::empty());
    assert(line_views(out@) =~= Seq::<LineView>::empty());
    while i < lines.len()
        invariant
            width > 0,
            i <= lines.len(),
            ls == line_views(lines@),
            line_views(out@) == wrapped(ls.take(i as int), width as int),
        decreases lines.len() - i,
    {
        let line = &lines[i];
        let text = crate::text::chars_of(line.text.as_str());
        let bounds = segments(&text, width);
        let ghost lv = ls[i as int];
        assert(lv == line@);
        let ghost piece = wrap_line(lv, width as int);
        let ghost before = line_views(out@);
        proof {
            lemma_segment_bounds(text@, width as int);
        }
        let mut j: usize = 0;
        while j < bounds.len()
            invariant
                0 <= j <= bounds@.len(),
                text@ == lv.0,
                line@ == lv,
                bounds@.len() == segment_bounds(lv.0, width as int).len(),
                forall|k: int|
                    0 <= k < bounds@.len() ==> range_of(#[trigger] bounds@[k]) == segment_bounds(
                        lv.0,
                        width as int,
                    )[k],
                forall|k: int|
                    0 <= k < segment_bounds(lv.0, width as int).len() ==> {
                        let b = #[trigger] segment_bounds(lv.0, width as int)[k];
                        0 <= b.0 <= b.1 <= lv.0.len()
                    },
                piece == wrap_line(lv, width as int),
                line_views(out@) == before + piece.take(j as int),
            decreases bounds.len() - j,
        {
            let (st, en) = bounds[j];
            assert(range_of(bounds@[j as int]) == segment_bounds(lv.0, width as int)[j as int]);
            let seg = crate::text::copy_range(&text, st, en);
            let mut clipped: Vec<Span> = Vec::new();
            let mut k: usize = 0;
            assert(line.spans@.take(0) =~= Seq::<Span>::empty());
            while k < line.spans.len()
                invariant
                    k <= line.spans@.len(),
                    clipped@ == clip_all(line.spans@.take(k as int), st as int, en as int),
                decreases line.spans.len() - k,
            {
                assert(line.spans@.take(k + 1).drop_last() =~= line.spans@.take(k as int));
                if let Some(c) = clip(line.spans[k], st, en) {
                    clipped.push(c);
                }
                k = k + 1;
            }
            assert(line.spans@.take(line.spans@.len() as int) =~= line.spans@);
            let piece_line = RenderedLine { text: crate::text::string_of(&seg), kind: line.kind, spans: clipped };
            let ghost prev_out = out@;
            out.push(piece_line);
            proof {
                assert(piece[j as int] == (lv.0.subrange(st as int, en as int), lv.1, clip_all(lv.2, st as int, en as int)));
                assert(line_views(out@) =~= line_views(prev_out).push(piece[j as int]));
                assert(piece.take(j + 1) =~= piece.take(j as int).push(piece[j as int]));
            }
            j = j + 1;
        }
        proof {
            assert(piece.len() == bounds@.len());
            assert(piece.take(piece.len() as int) =~= piece);
            assert(ls.take(i + 1).drop_last() =~= ls.take(i as int));
            assert(ls.take(i + 1).last() == lv);
        }
        i = i + 1;
    }
    assert(ls.take(lines.len() as int) =~= ls);
    out
}

// ---------------------------------------------------------------- block structure

pub const CHECKED: char = '\u{2611}';

pub const UNCHECKED: char = '\u{2610}';

pub const BULLET: char = '\u{2022}';

pub const QUOTE_BAR: char = '\u{2502}';

/// An empty line of kind `Rule`.
pub open spec fn rule_line() -> LineView {
    (Seq::empty(), LineKind::Rule, Seq::empty())
}

/// `spans` moved `by` characters to the right.
pub open spec fn shifted(spans: Seq<Span>, by: int) -> Seq<Span> {
    spans.map_values(
        |sp: Span| Span { start: (sp.start + by) as usize, end: (sp.end + by) as usize, kind: sp.kind },
    )
}

/// A line led by `mark` and a space, followed by `body` with its inline markup resolved.
pub open spec fn marked(mark: char, body: Seq<char>, kind: LineKind) -> LineView {
    let (t, sp) = inline_spec(body);
    (seq![mark, ' '] + t, kind, shifted(sp, 2))
}

/// The kind and the trimmed body of a heading line: `### `, `## ` or `# ` and text.
pub open spec fn heading_of(s: Seq<char>) -> Option<(LineKind, Seq<char>)> {
    if has_prefix(s, seq!['#', '#', '#', ' ']) {
        Some((LineKind::Heading3, trim(s.skip(4))))
    } else if has_prefix(s, seq!['#', '#', ' ']) {
        Some((LineKind::Heading2, trim(s.skip(3))))
    } else if has_prefix(s, seq!['#', ' ']) {
        Some((LineKind::Heading1, trim(s.skip(2))))
    } else {
        None
    }
}

/// The body of a list item: what follows `- `, `* ` or `+ `.
pub open spec fn bullet_of(s: Seq<char>) -> Option<Seq<char>> {
    if has_prefix(s, seq!['-', ' ']) || has_prefix(s, seq!['*', ' ']) || has_prefix(
        s,
        seq!['+', ' '],
    ) {
        Some(s.skip(2))
    } else {
        None
    }
}

/// Whether a list item is a task, whether it is done, and the text after its box.
pub open spec fn checkbox_of(s: Seq<char>) -> Option<(bool, Seq<char>)> {
    match bullet_of(s) {
        Some(b) => if has_prefix(b, seq!['[', ' ', ']', ' ']) {
            Some((false, b.skip(4)))
        } else if has_prefix(b, seq!['[', 'x', ']', ' ']) || has_prefix(
            b,
            seq!['[', 'X', ']', ' '],
        ) {
            Some((true, b.skip(4)))
        } else {
            None
        },
        None => None,
    }
}

/// `s` without any whitespace.
pub open spec fn squeezed(s: Seq<char>) -> Seq<char>
    decreases s.len(),
{
    if s.len() == 0 {
        Seq::empty()
    } else {
        let p = squeezed(s.drop_last());
        if is_white(s.last()) {
            p
        } else {
            p.push(s.last())
        }
    }
}

/// Every character of `s` is `c`.
pub open spec fn all_are(s: Seq<char>, c: char) -> bool {
    forall|i: int| 0 <= i < s.len() ==> s[i] == c
}

/// Three or more of one of `-`, `*`, `_`, with any whitespace between them.
pub open spec fn is_hrule(s: Seq<char>) -> bool {
    let q = squeezed(s);
    q.len() >= 3 && (all_are(q, '-') || all_are(q, '*') || all_are(q, '_'))
}

/// The Unicode upper-case form of `s`, as `str::to_uppercase` computes it.
pub uninterp spec fn upper_cased(s: Seq<char>) -> Seq<char>;

/// The lines a heading of `kind` whose text is already cased renders to: the heading,
/// and for h1 and h2 a rule under it.
pub open spec fn heading_lines_of(kind: LineKind, text: Seq<char>) -> Seq<LineView> {
    let (t, sp) = inline_spec(text);
    if kind == LineKind::Heading3 {
        seq![(t, kind, sp)]
    } else {
        seq![(t, kind, sp), rule_line()]
    }
}

/// What one line of the note renders to, and whether a code block is open after it.
pub open spec fn render_raw(raw: Seq<char>, in_code: bool) -> (Seq<LineView>, bool) {
    let trimmed = trim_end(raw);
    let stripped = trim_start(trimmed);
    if has_prefix(stripped, seq!['`', '`', '`']) || has_prefix(stripped, seq!['~', '~', '~']) {
        (seq![rule_line()], !in_code)
    } else if in_code {
        (seq![(trimmed, LineKind::Code, Seq::empty())], in_code)
    } else if is_hrule(stripped) {
        (seq![rule_line()], in_code)
    } else if heading_of(stripped) is Some {
        let (kind, body) = heading_of(stripped)->0;
        (
            heading_lines_of(
                kind,
                if kind == LineKind::Heading1 {
                    upper_cased(body)
                } else {
                    body
                },
            ),
            in_code,
        )
    } else if checkbox_of(stripped) is Some {
        let (done, body) = checkbox_of(stripped)->0;
        (
            seq![
                marked(
                    if done {
                        CHECKED
                    } else {
                        UNCHECKED
                    },
                    body,
                    LineKind::Checkbox { done },
                ),
            ],
            in_code,
        )
    } else if bullet_of(stripped) is Some {
        (seq![marked(BULLET, bullet_of(stripped)->0, LineKind::Bullet)], in_code)
    } else if has_prefix(stripped, seq!['>']) {
        (seq![marked(QUOTE_BAR, trim_start(stripped.skip(1)), LineKind::Quote)], in_code)
    } else {
        let (t, sp) = inline_spec(trimmed);
        (seq![(t, LineKind::Plain, sp)], in_code)
    }
}

/// The lines rendered from `lines`, and whether a code block is open at their end.
pub open spec fn rendered_prefix(lines: Seq<Seq<char>>) -> (Seq<LineView>, bool)
    decreases lines.len(),
{
    if lines.len() == 0 {
        (Seq::empty(), false)
    } else {
        let (out, code) = rendered_prefix(lines.drop_last());
        let (more, after) = render_raw(lines.last(), code);
        (out + more, after)
    }
}

/// What a note renders to.
pub open spec fn rendered(content: Seq<char>) -> Seq<LineView> {
    rendered_prefix(lines_of(content)).0
}

/// `str::to_uppercase`: the Unicode upper-case mapping of the text, where some
/// characters map to several. The mapping takes Unicode's tables to state, so the result
/// is named by `upper_cased` and not spelled out.
#[verifier::external_body]
fn to_upper(s: &str) -> (r: String)
    ensures
        r@ == upper_cased(s@),
{
    s.to_uppercase()
}

impl RenderedLine {
    fn new(text: String, kind: LineKind) -> (l: Self)
        ensures
            l@ == (text@, kind, Seq::<Span>::empty()),
    {
        RenderedLine { text, kind, spans: Vec::new() }
    }
}

fn heading(line: &[char]) -> (r: Option<(LineKind, Vec<char>)>)
    ensures
        match (r, heading_of(line@)) {
            (Some((k, b)), Some((k2, b2))) => k == k2 && b@ == b2,
            (None, None) => true,
            _ => false,
        },
{
    let h3: Vec<char> = vec!['#', '#', '#', ' '];
    let h2: Vec<char> = vec!['#', '#', ' '];
    let h1: Vec<char> = vec!['#', ' '];
    assert(h3@ =~= seq!['#', '#', '#', ' ']);
    assert(h2@ =~= seq!['#', '#', ' ']);
    assert(h1@ =~= seq!['#', ' ']);
    if starts_with(line, &h3) {
        let body = copy_range(line, 4, line.len());
        assert(body@ =~= line@.skip(4));
        return Some((LineKind::Heading3, trimmed(&body)));
    }
    if starts_with(line, &h2) {
        let body = copy_range(line, 3, line.len());
        assert(body@ =~= line@.skip(3));
        return Some((LineKind::Heading2, trimmed(&body)));
    }
    if starts_with(line, &h1) {
        let body = copy_range(line, 2, line.len());
        assert(body@ =~= line@.skip(2));
        return Some((LineKind::Heading1, trimmed(&body)));
    }
    None
}

fn bullet(line: &[char]) -> (r: Option<Vec<char>>)
    ensures
        match (r, bullet_of(line@)) {
            (Some(b), Some(b2)) => b@ == b2,
            (None, None) => true,
            _ => false,
        },
{
    let dash: Vec<char> = vec!['-', ' '];
    let star: Vec<char> = vec!['*', ' '];
    let plus: Vec<char> = vec!['+', ' '];
    assert(dash@ =~= seq!['-', ' ']);
    assert(star@ =~= seq!['*', ' ']);
    assert(plus@ =~= seq!['+', ' ']);
    if starts_with(line, &dash) || starts_with(line, &star) || starts_with(line, &plus) {
        let body = copy_range(line, 2, line.len());
        assert(body@ =~= line@.skip(2));
        Some(body)
    } else {
        None
    }
}

fn checkbox(line: &[char]) -> (r: Option<(bool, Vec<char>)>)
    ensures
        match (r, checkbox_of(line@)) {
            (Some((d, b)), Some((d2, b2))) => d == d2 && b@ == b2,
            (None, None) => true,
            _ => false,
        },
{
    let body = match bullet(line) {
        Some(b) => b,
        None => {
            return None;
        },
    };
    let open: Vec<char> = vec!['[', ' ', ']', ' '];
    let low: Vec<char> = vec!['[', 'x', ']', ' '];
    let up: Vec<char> = vec!['[', 'X', ']', ' '];
    assert(open@ =~= seq!['[', ' ', ']', ' ']);
    assert(low@ =~= seq!['[', 'x', ']', ' ']);
    assert(up@ =~= seq!['[', 'X', ']', ' ']);
    if starts_with(&body, &open) {
        let rest = copy_range(&body, 4, body.len());
        assert(rest@ =~= body@.skip(4));
        return Some((false, rest));
    }
    if starts_with(&body, &low) || starts_with(&body, &up) {
        let rest = copy_range(&body, 4, body.len());
        assert(rest@ =~= body@.skip(4));
        return Some((true, rest));
    }
    None
}

fn is_horizontal_rule(line: &[char]) -> (b: bool)
    ensures
        b == is_hrule(line@),
{
    let mut q: Vec<char> = Vec::new();
    let mut i: usize = 0;
    assert(line@.take(0) =~= Seq::<char>::empty());
    while i < line.len()
        invariant
            i <= line.len(),
            q@ == squeezed(line@.take(i as int)),
        decreases line.len() - i,
    {
        assert(line@.take(i + 1).drop_last() =~= line@.take(i as int));
        if !white(line[i]) {
            q.push(line[i]);
        }
        i = i + 1;
    }
    assert(line@.take(line.len() as int) =~= line@);
    if q.len() < 3 {
        return false;
    }
    let first = q[0];
    if first != '-' && first != '*' && first != '_' {
        assert(!all_are(q@, '-') && !all_are(q@, '*') && !all_are(q@, '_')) by {
            assert(q@[0] == first);
        }
        return false;
    }
    let mut j: usize = 0;
    while j < q.len()
        invariant
            j <= q@.len(),
            q@ == squeezed(line@),
            q@.len() >= 3,
            first == q@[0],
            forall|k: int| 0 <= k < j ==> q@[k] == first,
        decreases q.len() - j,
    {
        if q[j] != first {
            assert(!all_are(q@, '-') && !all_are(q@, '*') && !all_are(q@, '_')) by {
                assert(q@[0] == first);
                assert(q@[j as int] != first);
            }
            return false;
        }
        j = j + 1;
    }
    true
}

/// `spans` moved `by` characters to the right.
fn shift(spans: Vec<Span>, by: usize) -> (r: Vec<Span>)
    requires
        forall|k: int| 0 <= k < spans@.len() ==> #[trigger] spans@[k].end + by <= usize::MAX && spans@[k].start <= spans@[k].end,
    ensures
        r@ == shifted(spans@, by as int),
{
    let mut r: Vec<Span> = Vec::new();
    let mut i: usize = 0;
    while i < spans.len()
        invariant
            i <= spans@.len(),
            forall|k: int| 0 <= k < spans@.len() ==> #[trigger] spans@[k].end + by <= usize::MAX && spans@[k].start <= spans@[k].end,
            r@ == shifted(spans@.take(i as int), by as int),
        decreases spans.len() - i,
    {
        let s = spans[i];
        r.push(Span { start: s.start + by, end: s.end + by, kind: s.kind });
        i = i + 1;
        assert(r@ =~= shifted(spans@.take(i as int), by as int));
    }
    assert(spans@.take(spans@.len() as int) =~= spans@);
    r
}

/// The line `marked(mark, body, kind)`.
fn marked_line(mark: char, body: &[char], kind: LineKind) -> (l: RenderedLine)
    ensures
        l@ == marked(mark, body@, kind),
        kind != LineKind::Rule && kind != LineKind::Code ==> well_formed(l@),
{
    let bl = body.len();
    assert(bl == body@.len());
    let (t, sp) = inline(body);
    proof {
        lemma_inline_spans(body@, 0, 0);
    }
    let head: Vec<char> = vec![mark, ' '];
    assert(head@ =~= seq![mark, ' ']);
    let text = concat(&head, &t);
    let n = text.len();
    assert(n == t@.len() + 2);
    assert forall|k: int| 0 <= k < sp@.len() implies #[trigger] sp@[k].end + 2 <= usize::MAX
        && sp@[k].start <= sp@[k].end by {
        assert(0 <= sp@[k].start <= sp@[k].end <= t@.len());
    }
    let spans = shift(sp, 2);
    let l = RenderedLine { text: string_of(&text), kind, spans };
    assert forall|k: int| 0 <= k < l@.2.len() implies #[trigger] l@.2[k].start <= l@.2[k].end
        <= l@.0.len() by {
        assert(l@.2[k].start == sp@[k].start + 2 && l@.2[k].end == sp@[k].end + 2);
        assert(0 <= sp@[k].start <= sp@[k].end <= t@.len());
    }
    l
}

/// The lines a heading of `kind` with the already cased `text` renders to: the heading
/// with its inline markup resolved, and for h1 and h2 a rule under it.
pub fn heading_lines(kind: LineKind, text: &str) -> (out: Vec<RenderedLine>)
    ensures
        line_views(out@) == heading_lines_of(kind, text@),
        kind != LineKind::Rule && kind != LineKind::Code ==> all_well_formed(line_views(out@)),
{
    let cs = chars_of(text);
    let cl = cs.len();
    assert(cl == cs@.len());
    let (t, sp) = inline(&cs);
    proof {
        lemma_inline_spans(cs@, 0, 0);
    }
    let mut out: Vec<RenderedLine> = Vec::new();
    out.push(RenderedLine { text: string_of(&t), kind, spans: sp });
    if kind != LineKind::Heading3 {
        out.push(RenderedLine::new(String::new(), LineKind::Rule));
    }
    proof {
        let (tt, ss) = inline_spec(cs@);
        if kind == LineKind::Heading3 {
            assert(line_views(out@) =~= seq![(tt, kind, ss)]);
        } else {
            assert(line_views(out@) =~= seq![(tt, kind, ss), rule_line()]);
        }
        if kind != LineKind::Rule && kind != LineKind::Code {
            assert(well_formed(line_views(out@)[0]));
        }
    }
    out
}

fn push_all(out: &mut Vec<RenderedLine>, more: Vec<RenderedLine>)
    ensures
        line_views(final(out)@) == line_views(old(out)@) + line_views(more@),
        all_well_formed(line_views(old(out)@)) && all_well_formed(line_views(more@))
            ==> all_well_formed(line_views(final(out)@)),
{
    let mut more = more;
    let ghost m = more@;
    let ghost o = out@;
    out.append(&mut more);
    assert(line_views(out@) =~= line_views(o) + line_views(m));
    assert forall|i: int| 0 <= i < line_views(out@).len() && all_well_formed(line_views(o))
        && all_well_formed(line_views(m)) implies well_formed(#[trigger] line_views(out@)[i]) by {
        if i < o.len() {
            assert(line_views(out@)[i] == line_views(o)[i]);
        } else {
            assert(line_views(out@)[i] == line_views(m)[i - o.len()]);
        }
    }
}

fn push_line(out: &mut Vec<RenderedLine>, l: RenderedLine)
    ensures
        line_views(final(out)@) == line_views(old(out)@).push(l@),
        all_well_formed(line_views(old(out)@)) && well_formed(l@) ==> all_well_formed(
            line_views(final(out)@),
        ),
{
    let ghost o = out@;
    out.push(l);
    assert(line_views(out@) =~= line_views(o).push(l@));
    assert forall|i: int| 0 <= i < line_views(out@).len() && all_well_formed(line_views(o))
        && well_formed(l@) implies well_formed(#[trigger] line_views(out@)[i]) by {
        if i < o.len() {
            assert(line_views(out@)[i] == line_views(o)[i]);
        }
    }
}

/// Renders one line of the note onto `out`; returns whether a code block is open after it.
fn render_line(raw: &[char], in_code: bool, out: &mut Vec<RenderedLine>) -> (code: bool)
    requires
        all_well_formed(line_views(old(out)@)),
    ensures
        all_well_formed(line_views(final(out)@)),
        line_views(final(out)@) == line_views(old(out)@) + render_raw(raw@, in_code).0,
        code == render_raw(raw@, in_code).1,
{
    let trimmed_line = trimmed_end(raw);
    let stripped = trimmed_start(&trimmed_line);
    let fence1: Vec<char> = vec!['`', '`', '`'];
    let fence2: Vec<char> = vec!['~', '~', '~'];
    assert(fence1@ =~= seq!['`', '`', '`']);
    assert(fence2@ =~= seq!['~', '~', '~']);
    if starts_with(&stripped, &fence1) || starts_with(&stripped, &fence2) {
        push_line(out, RenderedLine::new(String::new(), LineKind::Rule));
        assert(seq![rule_line()] =~= Seq::<LineView>::empty().push(rule_line()));
        return !in_code;
    }
    if in_code {
        push_line(out, RenderedLine::new(string_of(&trimmed_line), LineKind::Code));
        return in_code;
    }
    if is_horizontal_rule(&stripped) {
        push_line(out, RenderedLine::new(String::new(), LineKind::Rule));
        return in_code;
    }
    if let Some((kind, body)) = heading(&stripped) {
        let lines = if kind == LineKind::Heading1 {
            let upper = to_upper(string_of(&body).as_str());
            heading_lines(kind, upper.as_str())
        } else {
            heading_lines(kind, string_of(&body).as_str())
        };
        push_all(out, lines);
        return in_code;
    }
    if let Some((done, body)) = checkbox(&stripped) {
        let glyph = if done {
            CHECKED
        } else {
            UNCHECKED
        };
        push_line(out, marked_line(glyph, &body, LineKind::Checkbox { done }));
        return in_code;
    }
    if let Some(body) = bullet(&stripped) {
        push_line(out, marked_line(BULLET, &body, LineKind::Bullet));
        return in_code;
    }
    if stripped.len() > 0 && stripped[0] == '>' {
        assert(stripped@.take(1) =~= seq!['>']);
        let rest = copy_range(&stripped, 1, stripped.len());
        assert(rest@ =~= stripped@.skip(1));
        let body = trimmed_start(&rest);
        push_line(out, marked_line(QUOTE_BAR, &body, LineKind::Quote));
        return in_code;
    }
    proof {
        if has_prefix(stripped@, seq!['>']) {
            assert(stripped@.take(1)[0] == stripped@[0]);
        }
    }
    let tl = trimmed_line.len();
    assert(tl == trimmed_line@.len());
    let (t, sp) = inline(&trimmed_line);
    proof {
        lemma_inline_spans(trimmed_line@, 0, 0);
    }
    push_line(out, RenderedLine { text: string_of(&t), kind: LineKind::Plain, spans: sp });
    in_code
}

/// Turns note content into displayable lines.
///
/// Headings lose their `#` markers and h1 is upper-cased; both h1 and h2 are followed by
/// a rule, which is what makes them read as headings without a larger font. Task list
/// markers become real checkbox glyphs.
pub fn render(content: &str) -> (out: Vec<RenderedLine>)
    ensures
        line_views(out@) == rendered(content@),
        all_well_formed(line_views(out@)),
{
    let cs = chars_of(content);
    let lines = split_lines(&cs);
    let ghost ls = lines_of(content@);
    let mut out: Vec<RenderedLine> = Vec::new();
    let mut in_code_block = false;
    let mut i: usize = 0;
    assert(ls.take(0) =~= Seq::<Seq<char>>::empty());
    assert(line_views(out@) =~= Seq::<LineView>::empty());
    while i < lines.len()
        invariant
            i <= lines@.len(),
            lines@.len() == ls.len(),
            forall|j: int| 0 <= j < ls.len() ==> #[trigger] lines@[j]@ == ls[j],
            (line_views(out@), in_code_block) == rendered_prefix(ls.take(i as int)),
            all_well_formed(line_views(out@)),
        decreases lines.len() - i,
    {
        assert(ls.take(i + 1).drop_last() =~= ls.take(i as int));
        assert(lines@[i as int]@ == ls[i as int]);
        in_code_block = render_line(&lines[i], in_code_block, &mut out);
        i = i + 1;
    }
    assert(ls.take(ls.len() as int) =~= ls);
    out
}

/// A fence line: once trimmed, it begins with three backticks or three tildes.
pub open spec fn is_fence(raw: Seq<char>) -> bool {
    let s = trim(raw);
    has_prefix(s, seq!['`', '`', '`']) || has_prefix(s, seq!['~', '~', '~'])
}

/// The number of fence lines among `lines`.
pub open spec fn fence_count(lines: Seq<Seq<char>>) -> nat
    decreases lines.len(),
{
    if lines.len() == 0 {
        0
    } else {
        fence_count(lines.drop_last()) + if is_fence(lines.last()) {
            1nat
        } else {
            0nat
        }
    }
}

/// An h1 or h2 heading line: once trimmed, it begins with `# ` or `## `.
pub open spec fn is_major_heading(raw: Seq<char>) -> bool {
    match heading_of(trim(raw)) {
        Some((kind, _)) => kind != LineKind::Heading3,
        None => false,
    }
}

/// The number of h1 and h2 heading lines among `lines` that stand outside code blocks,
/// that is, after an even number of fence lines.
pub open spec fn major_heading_count(lines: Seq<Seq<char>>) -> nat
    decreases lines.len(),
{
    if lines.len() == 0 {
        0
    } else {
        major_heading_count(lines.drop_last()) + if is_major_heading(lines.last()) && fence_count(
            lines.drop_last(),
        ) % 2 == 0 {
            1nat
        } else {
            0nat
        }
    }
}

/// Squeezing keeps a first character that is not whitespace in front.
proof fn lemma_squeezed_first(s: Seq<char>)
    requires
        s.len() > 0,
        !is_white(s[0]),
    ensures
        squeezed(s).len() > 0,
        squeezed(s)[0] == s[0],
    decreases s.len(),
{
    if s.len() > 1 {
        lemma_squeezed_first(s.drop_last());
    } else {
        assert(squeezed(s.drop_last()).len() == 0);
    }
}

/// One line of the note renders to two lines when it is an h1 or h2 heading outside a
/// code block, and to one otherwise; only a fence line opens or closes a code block.
proof fn lemma_render_raw_len(raw: Seq<char>, in_code: bool)
    ensures
        render_raw(raw, in_code).0.len() == if is_major_heading(raw) && !in_code {
            2int
        } else {
            1int
        },
        render_raw(raw, in_code).1 == if is_fence(raw) {
            !in_code
        } else {
            in_code
        },
{
    let s = trim(raw);
    if is_major_heading(raw) {
        assert(has_prefix(s, seq!['#', ' ']) || has_prefix(s, seq!['#', '#', ' ']));
        assert(s[0] == '#') by {
            if has_prefix(s, seq!['#', ' ']) {
                assert(s.take(2)[0] == s[0]);
            } else {
                assert(s.take(3)[0] == s[0]);
            }
        }
        assert(!has_prefix(s, seq!['`', '`', '`'])) by {
            if has_prefix(s, seq!['`', '`', '`']) {
                assert(s.take(3)[0] == s[0]);
            }
        }
        assert(!has_prefix(s, seq!['~', '~', '~'])) by {
            if has_prefix(s, seq!['~', '~', '~']) {
                assert(s.take(3)[0] == s[0]);
            }
        }
        lemma_squeezed_first(s);
        assert(!is_hrule(s));
    }
}

proof fn lemma_rendered_prefix_len(lines: Seq<Seq<char>>)
    ensures
        rendered_prefix(lines).1 == (fence_count(lines) % 2 == 1),
        rendered_prefix(lines).0.len() == lines.len() + major_heading_count(lines),
        major_heading_count(lines) <= lines.len(),
    decreases lines.len(),
{
    if lines.len() > 0 {
        lemma_rendered_prefix_len(lines.drop_last());
        let (out, code) = rendered_prefix(lines.drop_last());
        lemma_render_raw_len(lines.last(), code);
    }
}

/// A note renders to one line per line of its text, plus a rule under each h1 or h2
/// heading that stands outside a code block; so to at least as many lines as it has and
/// at most twice as many.
pub proof fn lemma_render_line_count(content: Seq<char>)
    ensures
        rendered(content).len() == lines_of(content).len() + major_heading_count(
            lines_of(content),
        ),
        lines_of(content).len() <= rendered(content).len() <= 2 * lines_of(content).len(),
{
    lemma_rendered_prefix_len(lines_of(content));
}

/// The lines that each of `lines` wraps into, one group per line.
pub open spec fn wrap_groups(lines: Seq<LineView>, width: int) -> Seq<Seq<LineView>> {
    lines.map_values(|l: LineView| wrap_line(l, width))
}

proof fn lemma_wrapped_is_flat(lines: Seq<LineView>, width: int)
    requires
        width > 0,
    ensures
        wrapped(lines, width) == wrap_groups(lines, width).flatten(),
    decreases lines.len(),
{
    if lines.len() == 0 {
        assert(wrap_groups(lines, width) =~= Seq::<Seq<LineView>>::empty());
    } else {
        let front = lines.drop_last();
        lemma_wrapped_is_flat(front, width);
        assert(wrap_groups(lines, width) =~= wrap_groups(front, width).push(
            wrap_line(lines.last(), width),
        ));
        wrap_groups(front, width).lemma_flatten_push(wrap_line(lines.last(), width));
    }
}

/// Wrapping to a positive width goes line by line: the result is, in order, the groups
/// of lines that each input line wraps into. Each group holds at least one line; every
/// line of it has the input line's kind, at most `width` characters, and the spans of the
/// input line cut down to its piece; and the pieces are consecutive ranges of the input
/// text that cover it from start to end, leaving out only a single space at each break.
pub proof fn lemma_wrap_goes_line_by_line(lines: Seq<LineView>, width: int)
    requires
        width > 0,
    ensures
        wrapped(lines, width) == wrap_groups(lines, width).flatten(),
        forall|i: int|
            0 <= i < lines.len() ==> {
                let l = #[trigger] lines[i];
                let g = wrap_line(l, width);
                let b = segment_bounds(l.0, width);
                &&& g.len() == b.len()
                &&& chained(l.0, b, 0)
                &&& forall|j: int|
                    0 <= j < g.len() ==> {
                        &&& #[trigger] g[j].0 == l.0.subrange(b[j].0, b[j].1)
                        &&& g[j].0.len() <= width
                        &&& g[j].1 == l.1
                        &&& g[j].2 == clip_all(l.2, b[j].0, b[j].1)
                    }
            },
{
    lemma_wrapped_is_flat(lines, width);
    assert forall|i: int| 0 <= i < lines.len() implies {
        let l = #[trigger] lines[i];
        let g = wrap_line(l, width);
        let b = segment_bounds(l.0, width);
        &&& g.len() == b.len()
        &&& chained(l.0, b, 0)
        &&& forall|j: int|
            0 <= j < g.len() ==> {
                &&& #[trigger] g[j].0 == l.0.subrange(b[j].0, b[j].1)
                &&& g[j].0.len() <= width
                &&& g[j].1 == l.1
                &&& g[j].2 == clip_all(l.2, b[j].0, b[j].1)
            }
    } by {
        let l = lines[i];
        lemma_segments_cover_the_line(l.0, width);
        lemma_segment_bounds(l.0, width);
    }
}

/// Cutting spans that are non-empty runs inside `[0, n)` down to that range keeps them
/// as they are.
proof fn lemma_clip_all_keeps_inner_runs(spans: Seq<Span>, n: int)
    requires
        runs_inside(spans, n),
    ensures
        clip_all(spans, 0, n) == spans,
    decreases spans.len(),
{
    if spans.len() > 0 {
        let front = spans.drop_last();
        assert(runs_inside(front, n)) by {
            assert forall|k: int| 0 <= k < front.len() implies #[trigger] front[k].start
                < front[k].end <= n by {
                assert(front[k] == spans[k]);
            }
        }
        lemma_clip_all_keeps_inner_runs(front, n);
        let sp = spans.last();
        assert(sp == spans[spans.len() - 1]);
        assert(clip_spec(sp, 0, n) == Some(sp));
        assert(front.push(sp) =~= spans);
    }
}

/// Lines that already fit in `width`, with spans that are non-empty runs inside their
/// text, come out of wrapping unchanged.
proof fn lemma_wrapping_fitting_lines(lines: Seq<LineView>, width: int)
    requires
        width > 0,
        forall|i: int|
            0 <= i < lines.len() ==> (#[trigger] lines[i]).0.len() <= width && spans_inside(
                lines[i],
            ),
    ensures
        wrapped(lines, width) == lines,
    decreases lines.len(),
{
    if lines.len() > 0 {
        let front = lines.drop_last();
        assert forall|i: int| 0 <= i < front.len() implies (#[trigger] front[i]).0.len() <= width
            && spans_inside(front[i]) by {
            assert(front[i] == lines[i]);
        }
        lemma_wrapping_fitting_lines(front, width);
        let l = lines.last();
        assert(l == lines[lines.len() - 1]);
        assert(runs_inside(l.2, l.0.len() as int)) by {
            assert forall|k: int| 0 <= k < l.2.len() implies #[trigger] l.2[k].start < l.2[k].end
                <= l.0.len() by {
                assert(spans_inside(l));
            }
        }
        lemma_clip_all_keeps_inner_runs(l.2, l.0.len() as int);
        assert(l.0.subrange(0, l.0.len() as int) =~= l.0);
        assert(wrap_line(l, width) =~= seq![l]);
        assert(front + seq![l] =~= lines);
    }
}

/// Wrapping is idempotent: wrapping lines already wrapped to a width, to the same width,
/// changes nothing.
pub proof fn lemma_wrap_is_idempotent(lines: Seq<LineView>, width: int)
    ensures
        wrapped(wrapped(lines, width), width) == wrapped(lines, width),
{
    if width > 0 {
        lemma_wrapped_fits(lines, width);
        lemma_wrapping_fitting_lines(wrapped(lines, width), width);
    } else {
        assert(wrapped(lines, width).len() == 0);
    }
}

/// Inside an open code block a line is kept verbatim: every line but a fence renders to
/// one code line, with no spans, whose text is the raw line up to its last character that
/// is not whitespace, so that leading indentation stays and only trailing whitespace
/// goes; the block stays open. A fence closes it with a rule.
pub proof fn lemma_code_block_lines_are_verbatim(raw: Seq<char>)
    ensures
        !is_fence(raw) ==> {
            let (out, open) = render_raw(raw, true);
            &&& open
            &&& out.len() == 1
            &&& out[0].1 == LineKind::Code
            &&& out[0].2.len() == 0
            &&& out[0].0 == raw.take(out[0].0.len() as int)
            &&& forall|j: int| out[0].0.len() <= j < raw.len() ==> is_white(#[trigger] raw[j])
            &&& out[0].0.len() > 0 ==> !is_white(out[0].0.last())
        },
        is_fence(raw) ==> render_raw(raw, true) == (seq![rule_line()], false),
{
    lemma_trim_end_is_prefix(raw);
}

/// A note's lines after an odd number of fences are inside a code block: each line that
/// is not a fence adds exactly one code line, the raw line without its trailing
/// whitespace, and the block stays open.
pub proof fn lemma_code_block_line_in_a_note(lines: Seq<Seq<char>>, raw: Seq<char>)
    requires
        fence_count(lines) % 2 == 1,
        !is_fence(raw),
    ensures
        rendered_prefix(lines.push(raw)) == (
            rendered_prefix(lines).0.push((trim_end(raw), LineKind::Code, Seq::<Span>::empty())),
            true,
        ),
{
    lemma_rendered_prefix_len(lines);
    assert(lines.push(raw).drop_last() =~= lines);
    assert(seq![(trim_end(raw), LineKind::Code, Seq::<Span>::empty())] =~= Seq::<LineView>::empty().push(
        (trim_end(raw), LineKind::Code, Seq::<Span>::empty()),
    ));
    assert(rendered_prefix(lines).0 + seq![(trim_end(raw), LineKind::Code, Seq::<Span>::empty())]
        =~= rendered_prefix(lines).0.push((trim_end(raw), LineKind::Code, Seq::<Span>::empty())));
}

/// Some span of `kind` covers offset `p`.
pub open spec fn styled_at(spans: Seq<Span>, kind: SpanKind, p: int) -> bool {
    exists|i: int|
        0 <= i < spans.len() && (#[trigger] spans[i]).kind == kind && spans[i].start <= p
            < spans[i].end
}

/// Cutting spans down to the range `[start, end)` keeps the styling of every character
/// in it: the cut spans style the character at `p - start` with a kind exactly when the
/// original spans style the character at `p` with it.
pub proof fn lemma_clip_keeps_styling(spans: Seq<Span>, start: int, end: int)
    requires
        0 <= start <= end,
    ensures
        forall|kind: SpanKind, p: int|
            start <= p < end ==> (#[trigger] styled_at(clip_all(spans, start, end), kind, p - start)
                == styled_at(spans, kind, p)),
    decreases spans.len(),
{
    if spans.len() > 0 {
        let front = spans.drop_last();
        lemma_clip_keeps_styling(front, start, end);
        let prev = clip_all(front, start, end);
        let all = clip_all(spans, start, end);
        let sp = spans.last();
        assert forall|kind: SpanKind, p: int| start <= p < end implies (#[trigger] styled_at(
            all,
            kind,
            p - start,
        ) == styled_at(spans, kind, p)) by {
            assert(styled_at(prev, kind, p - start) == styled_at(front, kind, p));
            let covers = sp.kind == kind && sp.start <= p < sp.end;
            assert(styled_at(spans, kind, p) == (styled_at(front, kind, p) || covers)) by {
                if styled_at(spans, kind, p) {
                    let i = choose|i: int|
                        0 <= i < spans.len() && (#[trigger] spans[i]).kind == kind
                            && spans[i].start <= p < spans[i].end;
                    if i < front.len() {
                        assert(front[i] == spans[i]);
                    }
                }
                if styled_at(front, kind, p) {
                    let i = choose|i: int|
                        0 <= i < front.len() && (#[trigger] front[i]).kind == kind
                            && front[i].start <= p < front[i].end;
                    assert(spans[i] == front[i]);
                }
                if covers {
                    assert(spans[spans.len() - 1] == sp);
                }
            }
            match clip_spec(sp, start, end) {
                Some(c) => {
                    assert(all == prev.push(c));
                    let ccovers = c.kind == kind && c.start <= p - start < c.end;
                    assert(ccovers == covers);
                    assert(styled_at(all, kind, p - start) == (styled_at(prev, kind, p - start)
                        || ccovers)) by {
                        if styled_at(all, kind, p - start) {
                            let i = choose|i: int|
                                0 <= i < all.len() && (#[trigger] all[i]).kind == kind
                                    && all[i].start <= p - start < all[i].end;
                            if i < prev.len() {
                                assert(prev[i] == all[i]);
                            }
                        }
                        if styled_at(prev, kind, p - start) {
                            let i = choose|i: int|
                                0 <= i < prev.len() && (#[trigger] prev[i]).kind == kind
                                    && prev[i].start <= p - start < prev[i].end;
                            assert(all[i] == prev[i]);
                        }
                        if ccovers {
                            assert(all[all.len() - 1] == c);
                        }
                    }
                },
                None => {
                    assert(all == prev);
                    assert(!covers);
                },
            }
        }
    }
}

/// Wrapping keeps every character's styling: in each piece that a line wraps into, a
/// character is styled with a kind exactly when the same character of the line is.
pub proof fn lemma_wrap_keeps_styling(line: LineView, width: int, j: int, kind: SpanKind, p: int)
    requires
        width > 0,
        0 <= j < segment_bounds(line.0, width).len(),
        segment_bounds(line.0, width)[j].0 <= p < segment_bounds(line.0, width)[j].1,
    ensures
        ({
            let b = segment_bounds(line.0, width)[j];
            styled_at(wrap_line(line, width)[j].2, kind, p - b.0) == styled_at(line.2, kind, p)
        }),
{
    lemma_segment_bounds(line.0, width);
    let b = segment_bounds(line.0, width)[j];
    lemma_clip_keeps_styling(line.2, b.0, b.1);
    assert(wrap_line(line, width)[j].2 == clip_all(line.2, b.0, b.1));
    assert(styled_at(clip_all(line.2, b.0, b.1), kind, p - b.0) == styled_at(line.2, kind, p));
}

} // verus!
