//! Character-level helpers shared by the parsers: Unicode whitespace and control
//! classes, trimming, prefixes, and splitting text into lines.
use vstd::prelude::*;

verus! {

/// Unicode `White_Space`, the class that `char::is_whitespace` and the `trim` family use.
pub open spec fn is_white(c: char) -> bool {
    let u = c as int;
    ||| 0x09 <= u <= 0x0d
    ||| u == 0x20
    ||| u == 0x85
    ||| u == 0xa0
    ||| u == 0x1680
    ||| 0x2000 <= u <= 0x200a
    ||| u == 0x2028
    ||| u == 0x2029
    ||| u == 0x202f
    ||| u == 0x205f
    ||| u == 0x3000
}

/// Unicode general category `Cc`, the class that `char::is_control` tests.
pub open spec fn is_control(c: char) -> bool {
    let u = c as int;
    u <= 0x1f || (0x7f <= u <= 0x9f)
}

pub fn white(c: char) -> (b: bool)
    ensures
        b == is_white(c),
{
    let u = c as u32;
    (0x09 <= u && u <= 0x0d) || u == 0x20 || u == 0x85 || u == 0xa0 || u == 0x1680 || (0x2000
        <= u && u <= 0x200a) || u == 0x2028 || u == 0x2029 || u == 0x202f || u == 0x205f || u
        == 0x3000
}

pub fn control(c: char) -> (b: bool)
    ensures
        b == is_control(c),
{
    let u = c as u32;
    u <= 0x1f || (0x7f <= u && u <= 0x9f)
}

/// `s` without its trailing whitespace.
pub open spec fn trim_end(s: Seq<char>) -> Seq<char>
    decreases s.len(),
{
    if s.len() > 0 && is_white(s.last()) {
        trim_end(s.drop_last())
    } else {
        s
    }
}

/// Trimming the end keeps a prefix of `s`: what it cuts off is all whitespace, and what
/// it keeps does not end in whitespace.
pub proof fn lemma_trim_end_is_prefix(s: Seq<char>)
    ensures
        trim_end(s).len() <= s.len(),
        trim_end(s) == s.take(trim_end(s).len() as int),
        trim_end(s).len() > 0 ==> !is_white(trim_end(s).last()),
        forall|j: int| trim_end(s).len() <= j < s.len() ==> is_white(#[trigger] s[j]),
    decreases s.len(),
{
    if s.len() > 0 && is_white(s.last()) {
        lemma_trim_end_is_prefix(s.drop_last());
        assert(s.drop_last().take(trim_end(s).len() as int) =~= s.take(trim_end(s).len() as int));
        assert forall|j: int| trim_end(s).len() <= j < s.len() implies is_white(#[trigger] s[j]) by {
            if j < s.len() - 1 {
                assert(s[j] == s.drop_last()[j]);
            }
        }
    } else {
        assert(s.take(s.len() as int) =~= s);
    }
}

/// `s` without its leading whitespace.
pub open spec fn trim_start(s: Seq<char>) -> Seq<char>
    decreases s.len(),
{
    if s.len() > 0 && is_white(s[0]) {
        trim_start(s.drop_first())
    } else {
        s
    }
}

/// `s` without whitespace at either end.
pub open spec fn trim(s: Seq<char>) -> Seq<char> {
    trim_start(trim_end(s))
}

/// `s` begins with `p`.
pub open spec fn has_prefix(s: Seq<char>, p: Seq<char>) -> bool {
    p.len() <= s.len() && s.take(p.len() as int) == p
}

/// `s` ends with `p`.
pub open spec fn has_suffix(s: Seq<char>, p: Seq<char>) -> bool {
    p.len() <= s.len() && s.skip(s.len() - p.len()) == p
}

/// The pieces of `s` between `'\n'` separators; there is always at least one.
pub open spec fn newline_pieces(s: Seq<char>) -> Seq<Seq<char>>
    decreases s.len(),
{
    if s.len() == 0 {
        seq![Seq::<char>::empty()]
    } else {
        let prev = newline_pieces(s.drop_last());
        if s.last() == '\n' {
            prev.push(Seq::<char>::empty())
        } else {
            prev.update(prev.len() - 1, prev.last().push(s.last()))
        }
    }
}

/// A line that was ended by `'\n'` also loses a `'\r'` just before it.
pub open spec fn strip_cr(l: Seq<char>) -> Seq<char> {
    if l.len() > 0 && l.last() == '\r' {
        l.drop_last()
    } else {
        l
    }
}

/// The lines of `s` as `str::lines` yields them: split at `"\n"` or `"\r\n"`, where
/// a final line ending is optional and an empty last piece is no line.
pub open spec fn lines_of(s: Seq<char>) -> Seq<Seq<char>> {
    let p = newline_pieces(s);
    let ended = p.drop_last().map_values(|l: Seq<char>| strip_cr(l));
    if p.last().len() == 0 {
        ended
    } else {
        ended.push(p.last())
    }
}

/// `String::push`: appends one character to the string.
#[verifier::external_body]
fn push_char(s: &mut String, c: char)
    ensures
        final(s)@ == old(s)@.push(c),
{
    s.push(c);
}

/// The characters of `s`, in order.
pub fn chars_of(s: &str) -> (out: Vec<char>)
    ensures
        out@ == s@,
{
    let mut out: Vec<char> = Vec::new();
    for c in it: s.chars()
        invariant
            out@ == it.seq().take(it.index() as int),
            it.seq() == s@,
    {
        out.push(c);
    }
    out
}

/// A string holding exactly the characters `cs`.
pub fn string_of(cs: &[char]) -> (out: String)
    ensures
        out@ == cs@,
{
    let mut out = String::new();
    let mut i: usize = 0;
    while i < cs.len()
        invariant
            i <= cs.len(),
            out@ == cs@.take(i as int),
        decreases cs.len() - i,
    {
        push_char(&mut out, cs[i]);
        i = i + 1;
        assert(out@ =~= cs@.take(i as int));
    }
    assert(cs@.take(cs.len() as int) =~= cs@);
    out
}

/// A copy of `s[lo..hi]`.
pub fn copy_range(s: &[char], lo: usize, hi: usize) -> (out: Vec<char>)
    requires
        lo <= hi <= s.len(),
    ensures
        out@ == s@.subrange(lo as int, hi as int),
{
    let mut out: Vec<char> = Vec::new();
    let mut i = lo;
    while i < hi
        invariant
            lo <= i <= hi <= s.len(),
            out@ == s@.subrange(lo as int, i as int),
        decreases hi - i,
    {
        out.push(s[i]);
        i = i + 1;
        assert(out@ =~= s@.subrange(lo as int, i as int));
    }
    out
}

/// `a` followed by `b`.
pub fn concat(a: &[char], b: &[char]) -> (out: Vec<char>)
    ensures
        out@ == a@ + b@,
{
    let mut out = copy_range(a, 0, a.len());
    let mut i: usize = 0;
    while i < b.len()
        invariant
            i <= b.len(),
            out@ == a@ + b@.take(i as int),
        decreases b.len() - i,
    {
        out.push(b[i]);
        i = i + 1;
        assert(out@ =~= a@ + b@.take(i as int));
    }
    assert(b@.take(b.len() as int) =~= b@);
    assert(a@.subrange(0, a.len() as int) =~= a@);
    out
}

proof fn lemma_trim_end_prefix(s: Seq<char>, n: int)
    requires
        0 < n <= s.len(),
        is_white(s[n - 1]),
    ensures
        trim_end(s.take(n)) == trim_end(s.take(n - 1)),
{
    assert(s.take(n).drop_last() =~= s.take(n - 1));
}

proof fn lemma_trim_start_suffix(s: Seq<char>, n: int)
    requires
        0 <= n < s.len(),
        is_white(s[n]),
    ensures
        trim_start(s.skip(n)) == trim_start(s.skip(n + 1)),
{
    assert(s.skip(n).drop_first() =~= s.skip(n + 1));
}

/// How many characters of `s` remain once trailing whitespace is cut.
pub fn trim_end_len(s: &[char]) -> (n: usize)
    ensures
        n <= s.len(),
        s@.take(n as int) == trim_end(s@),
{
    let mut n = s.len();
    assert(s@.take(n as int) =~= s@);
    while n > 0 && white(s[n - 1])
        invariant
            n <= s.len(),
            trim_end(s@.take(n as int)) == trim_end(s@),
        decreases n,
    {
        proof {
            lemma_trim_end_prefix(s@, n as int);
        }
        n = n - 1;
    }
    proof {
        if n > 0 {
            assert(s@.take(n as int).last() == s@[n - 1]);
        }
    }
    n
}

/// Where `s` starts once leading whitespace is cut.
pub fn trim_start_pos(s: &[char]) -> (k: usize)
    ensures
        k <= s.len(),
        s@.skip(k as int) == trim_start(s@),
{
    let mut k: usize = 0;
    assert(s@.skip(0) =~= s@);
    while k < s.len() && white(s[k])
        invariant
            k <= s.len(),
            trim_start(s@.skip(k as int)) == trim_start(s@),
        decreases s.len() - k,
    {
        proof {
            lemma_trim_start_suffix(s@, k as int);
        }
        k = k + 1;
    }
    proof {
        if k < s.len() {
            assert(s@.skip(k as int)[0] == s@[k as int]);
        }
    }
    k
}

/// A copy of `s` without trailing whitespace.
pub fn trimmed_end(s: &[char]) -> (out: Vec<char>)
    ensures
        out@ == trim_end(s@),
{
    let n = trim_end_len(s);
    copy_range(s, 0, n)
}

/// A copy of `s` without leading whitespace.
pub fn trimmed_start(s: &[char]) -> (out: Vec<char>)
    ensures
        out@ == trim_start(s@),
{
    let k = trim_start_pos(s);
    copy_range(s, k, s.len())
}

/// A copy of `s` without whitespace at either end.
pub fn trimmed(s: &[char]) -> (out: Vec<char>)
    ensures
        out@ == trim(s@),
{
    let e = trimmed_end(s);
    trimmed_start(&e)
}

/// Whether `s` begins with `p`.
pub fn starts_with(s: &[char], p: &[char]) -> (b: bool)
    ensures
        b == has_prefix(s@, p@),
{
    if p.len() > s.len() {
        return false;
    }
    let mut i: usize = 0;
    while i < p.len()
        invariant
            p.len() <= s.len(),
            i <= p.len(),
            forall|j: int| 0 <= j < i ==> s@[j] == p@[j],
        decreases p.len() - i,
    {
        if s[i] != p[i] {
            assert(s@.take(p.len() as int)[i as int] != p@[i as int]);
            return false;
        }
        i = i + 1;
    }
    assert(s@.take(p.len() as int) =~= p@);
    true
}

/// Whether `s` ends with `p`.
pub fn ends_with(s: &[char], p: &[char]) -> (b: bool)
    ensures
        b == has_suffix(s@, p@),
{
    if p.len() > s.len() {
        return false;
    }
    let off = s.len() - p.len();
    let mut i: usize = 0;
    while i < p.len()
        invariant
            p.len() <= s.len(),
            off == s.len() - p.len(),
            i <= p.len(),
            forall|j: int| 0 <= j < i ==> s@[off + j] == p@[j],
        decreases p.len() - i,
    {
        if s[off + i] != p[i] {
            assert(s@.skip(off as int)[i as int] != p@[i as int]);
            return false;
        }
        i = i + 1;
    }
    assert(s@.skip(off as int) =~= p@);
    true
}

/// The character sequences held by `v`.
pub open spec fn views(v: Seq<Vec<char>>) -> Seq<Seq<char>> {
    v.map_values(|x: Vec<char>| x@)
}

/// Splits `s` into its lines (see `lines_of`).
pub fn split_lines(s: &[char]) -> (out: Vec<Vec<char>>)
    ensures
        views(out@) == lines_of(s@),
{
    let mut out: Vec<Vec<char>> = Vec::new();
    let mut cur: Vec<char> = Vec::new();
    let mut i: usize = 0;
    assert(s@.take(0) =~= Seq::<char>::empty());
    while i < s.len()
        invariant
            i <= s.len(),
            newline_pieces(s@.take(i as int)).len() >= 1,
            views(out@) == newline_pieces(s@.take(i as int)).drop_last().map_values(
                |l: Seq<char>| strip_cr(l),
            ),
            cur@ == newline_pieces(s@.take(i as int)).last(),
        decreases s.len() - i,
    {
        let ghost prev = newline_pieces(s@.take(i as int));
        let c = s[i];
        assert(s@.take(i + 1).drop_last() =~= s@.take(i as int));
        assert(s@.take(i + 1).last() == c);
        if c == '\n' {
            let l = cur.len();
            let piece = if l > 0 && cur[l - 1] == '\r' {
                copy_range(&cur, 0, l - 1)
            } else {
                copy_range(&cur, 0, l)
            };
            assert(piece@ == strip_cr(cur@)) by {
                assert(cur@.subrange(0, l as int) =~= cur@);
                if l > 0 {
                    assert(cur@.subrange(0, l - 1) =~= cur@.drop_last());
                }
            }
            let ghost old_views = views(out@);
            out.push(piece);
            cur = Vec::new();
            proof {
                let np = newline_pieces(s@.take(i + 1));
                assert(np == prev.push(Seq::<char>::empty()));
                assert(np.drop_last() =~= prev);
                assert(views(out@) =~= old_views.push(piece@));
                assert(views(out@) =~= prev.map_values(|l: Seq<char>| strip_cr(l)));
            }
        } else {
            cur.push(c);
            proof {
                let np = newline_pieces(s@.take(i + 1));
                assert(np == prev.update(prev.len() - 1, prev.last().push(c)));
                assert(np.drop_last() =~= prev.drop_last());
            }
        }
        i = i + 1;
    }
    assert(s@.take(s.len() as int) =~= s@);
    if cur.len() > 0 {
        let ghost old_views = views(out@);
        let ghost cv = cur@;
        out.push(cur);
        assert(views(out@) =~= old_views.push(cv));
    }
    out
}

} // verus!
