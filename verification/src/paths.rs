//! Where notes live: one directory per session, one `<tab>.md` file per tab.
use crate::text::{chars_of, concat, control, copy_range, is_control, is_white,
    lemma_trim_end_is_prefix, string_of, trim, trim_end, trim_start, trimmed};
use vstd::prelude::*;

verus! {

pub const MAX_NAME_LEN: usize = 200;

/// A path separator becomes `-`, a control character a space; the rest stays.
pub open spec fn replaced(c: char) -> char {
    if c == '/' || c == '\\' {
        '-'
    } else if is_control(c) {
        ' '
    } else {
        c
    }
}

/// The first `n` characters of `s`, or all of it when it is shorter.
pub open spec fn at_most(s: Seq<char>, n: int) -> Seq<char> {
    if s.len() <= n {
        s
    } else {
        s.take(n)
    }
}

/// A tab or session name as a single path component.
pub open spec fn sanitized(name: Seq<char>) -> Seq<char> {
    let r = trim(at_most(trim(name.map_values(|c: char| replaced(c))), MAX_NAME_LEN as int));
    if r.len() == 0 || r == seq!['.'] || r == seq!['.', '.'] {
        seq!['_']
    } else {
        r
    }
}

/// `part` appended to the path `base` as `Path::join` does on Unix: an absolute `part`
/// replaces `base`, otherwise a `/` goes between them unless `base` is empty or already
/// ends with one.
pub open spec fn joined(base: Seq<char>, part: Seq<char>) -> Seq<char> {
    if part.len() > 0 && part[0] == '/' {
        part
    } else if base.len() > 0 && base.last() != '/' {
        base + seq!['/'] + part
    } else {
        base + part
    }
}

/// The directory that holds a session's notes.
pub open spec fn session_dir_of(notes_dir: Seq<char>, session: Seq<char>) -> Seq<char> {
    joined(notes_dir, sanitized(session))
}

/// The file that holds a tab's note.
pub open spec fn note_path_of(notes_dir: Seq<char>, session: Seq<char>, tab: Seq<char>) -> Seq<
    char,
> {
    joined(session_dir_of(notes_dir, session), sanitized(tab) + seq!['.', 'm', 'd'])
}

proof fn lemma_trim_start_is_suffix(s: Seq<char>)
    ensures
        trim_start(s).len() <= s.len(),
        trim_start(s) == s.skip(s.len() - trim_start(s).len()),
        trim_start(s).len() > 0 ==> !is_white(trim_start(s)[0]),
    decreases s.len(),
{
    if s.len() > 0 && is_white(s[0]) {
        lemma_trim_start_is_suffix(s.drop_first());
        assert(s.drop_first().skip(s.len() - 1 - trim_start(s).len()) =~= s.skip(
            s.len() - trim_start(s).len(),
        ));
    } else {
        assert(s.skip(0) =~= s);
    }
}

/// No path separator and no control character.
pub open spec fn component_chars(s: Seq<char>) -> bool {
    forall|i: int| 0 <= i < s.len() ==> #[trigger] s[i] != '/' && s[i] != '\\' && !is_control(s[i])
}

/// Trimming keeps a contiguous run of the characters, with no whitespace at either end.
proof fn lemma_trim_is_inner(s: Seq<char>)
    ensures
        component_chars(s) ==> component_chars(trim(s)),
        trim(s).len() <= s.len(),
        trim(s).len() > 0 ==> !is_white(trim(s)[0]) && !is_white(trim(s).last()),
{
    let e = trim_end(s);
    lemma_trim_end_is_prefix(s);
    lemma_trim_start_is_suffix(e);
    let t = trim_start(e);
    let a = e.len() - t.len();
    assert(t =~= s.subrange(a, e.len() as int));
    if t.len() > 0 {
        assert(t.last() == e.last());
    }
    if component_chars(s) {
        assert forall|i: int| 0 <= i < t.len() implies #[trigger] t[i] != '/' && t[i] != '\\'
            && !is_control(t[i]) by {
            assert(t[i] == s[a + i]);
        }
    }
}

fn replace_char(c: char) -> (r: char)
    ensures
        r == replaced(c),
{
    if c == '/' || c == '\\' {
        '-'
    } else if control(c) {
        ' '
    } else {
        c
    }
}

/// `name` as a path component (see `sanitized`).
fn sanitized_chars(name: &str) -> (out: Vec<char>)
    ensures
        out@ == sanitized(name@),
{
    let cs = chars_of(name);
    let mut mapped: Vec<char> = Vec::new();
    let mut i: usize = 0;
    while i < cs.len()
        invariant
            i <= cs.len(),
            mapped@ == cs@.take(i as int).map_values(|c: char| replaced(c)),
        decreases cs.len() - i,
    {
        mapped.push(replace_char(cs[i]));
        i = i + 1;
        assert(mapped@ =~= cs@.take(i as int).map_values(|c: char| replaced(c)));
    }
    assert(cs@.take(cs.len() as int) =~= cs@);
    let t = trimmed(&mapped);
    let cut = if t.len() <= MAX_NAME_LEN {
        t
    } else {
        copy_range(&t, 0, MAX_NAME_LEN)
    };
    let r = trimmed(&cut);
    if r.len() == 0 || (r.len() == 1 && r[0] == '.') || (r.len() == 2 && r[0] == '.' && r[1]
        == '.') {
        let u: Vec<char> = vec!['_'];
        assert(u@ =~= seq!['_']);
        proof {
            if r.len() == 1 {
                assert(r@ =~= seq!['.']);
            }
            if r.len() == 2 {
                assert(r@ =~= seq!['.', '.']);
            }
        }
        u
    } else {
        proof {
            if r@ == seq!['.'] {
                assert(r@[0] == '.');
            }
            if r@ == seq!['.', '.'] {
                assert(r@[0] == '.' && r@[1] == '.');
            }
        }
        r
    }
}

/// The sanitized form of a name is a single path component: one to `MAX_NAME_LEN`
/// characters, with no path separator or control character, without whitespace at
/// either end, and never `.` or `..`.
pub proof fn lemma_sanitized_is_one_component(name: Seq<char>)
    ensures
        ({
            let r = sanitized(name);
            &&& 1 <= r.len() <= MAX_NAME_LEN
            &&& component_chars(r)
            &&& r != seq!['.'] && r != seq!['.', '.']
            &&& !is_white(r[0]) && !is_white(r.last())
        }),
{
    let m = name.map_values(|c: char| replaced(c));
    assert(component_chars(m)) by {
        assert forall|i: int| 0 <= i < m.len() implies #[trigger] m[i] != '/' && m[i] != '\\'
            && !is_control(m[i]) by {
            assert(m[i] == replaced(name[i]));
        }
    }
    let t = trim(m);
    lemma_trim_is_inner(m);
    let cut = at_most(t, MAX_NAME_LEN as int);
    assert(component_chars(cut)) by {
        assert forall|i: int| 0 <= i < cut.len() implies #[trigger] cut[i] != '/' && cut[i]
            != '\\' && !is_control(cut[i]) by {
            assert(cut[i] == t[i]);
        }
    }
    let r = trim(cut);
    lemma_trim_is_inner(cut);
    let u = sanitized(name);
    if r.len() == 0 || r == seq!['.'] || r == seq!['.', '.'] {
        assert(u == seq!['_']);
        assert(u[0] == '_');
        assert(component_chars(u)) by {
            assert forall|i: int| 0 <= i < u.len() implies #[trigger] u[i] != '/' && u[i] != '\\'
                && !is_control(u[i]) by {
                assert(u[i] == '_');
            }
        }
    } else {
        assert(u == r);
    }
}

/// Turns a tab or session name into something usable as a single path component.
///
/// This is not a security boundary: commands run without a shell, so quoting and
/// injection are not a concern. It only guarantees the result is one path component
/// that cannot escape its parent directory.
pub fn sanitize_tab_name(name: &str) -> (out: String)
    ensures
        out@ == sanitized(name@),
        1 <= out@.len() <= MAX_NAME_LEN,
        component_chars(out@),
        out@ != seq!['.'] && out@ != seq!['.', '.'],
{
    proof {
        lemma_sanitized_is_one_component(name@);
    }
    string_of(&sanitized_chars(name))
}

/// `part` appended to the path `base` (see `joined`).
fn join_path(base: &[char], part: &[char]) -> (out: Vec<char>)
    ensures
        out@ == joined(base@, part@),
{
    if part.len() > 0 && part[0] == '/' {
        copy_range(part, 0, part.len())
    } else if base.len() > 0 && base[base.len() - 1] != '/' {
        let sep: Vec<char> = vec!['/'];
        let head = concat(base, &sep);
        assert(sep@ =~= seq!['/']);
        concat(&head, part)
    } else {
        assert(part@.subrange(0, part.len() as int) =~= part@);
        concat(base, part)
    }
}

fn session_dir_chars(notes_dir: &str, session: &str) -> (out: Vec<char>)
    ensures
        out@ == session_dir_of(notes_dir@, session@),
{
    let base = chars_of(notes_dir);
    let part = sanitized_chars(session);
    join_path(&base, &part)
}

/// The directory that holds the notes of `session`.
pub fn session_dir(notes_dir: &str, session: &str) -> (dir: String)
    ensures
        dir@ == session_dir_of(notes_dir@, session@),
{
    string_of(&session_dir_chars(notes_dir, session))
}

/// The file that holds the note of `tab` in `session`.
pub fn note_path(notes_dir: &str, session: &str, tab: &str) -> (path: String)
    ensures
        path@ == note_path_of(notes_dir@, session@, tab@),
{
    let dir = session_dir_chars(notes_dir, session);
    let name = sanitized_chars(tab);
    let ext: Vec<char> = vec!['.', 'm', 'd'];
    assert(ext@ =~= seq!['.', 'm', 'd']);
    let file = concat(&name, &ext);
    string_of(&join_path(&dir, &file))
}

/// The file of the note whose key (the name its file already has) is `key`.
pub open spec fn key_path_of(notes_dir: Seq<char>, session: Seq<char>, key: Seq<char>) -> Seq<
    char,
> {
    joined(session_dir_of(notes_dir, session), key + seq!['.', 'm', 'd'])
}

/// The file of the note whose key is `key`: the key is already a file name, so it is
/// used as it is, not sanitized again.
pub fn note_path_from_key(notes_dir: &str, session: &str, key: &str) -> (path: String)
    ensures
        path@ == key_path_of(notes_dir@, session@, key@),
{
    let dir = session_dir_chars(notes_dir, session);
    let name = chars_of(key);
    let ext: Vec<char> = vec!['.', 'm', 'd'];
    assert(ext@ =~= seq!['.', 'm', 'd']);
    let file = concat(&name, &ext);
    string_of(&join_path(&dir, &file))
}

/// A note file sits directly inside its session directory: its path is that directory,
/// a `/` when the directory does not already end with one, and a file name that holds
/// no `/`.
pub proof fn lemma_note_path_is_inside_session_dir(
    notes_dir: Seq<char>,
    session: Seq<char>,
    tab: Seq<char>,
)
    ensures
        ({
            let dir = session_dir_of(notes_dir, session);
            let file = sanitized(tab) + seq!['.', 'm', 'd'];
            &&& note_path_of(notes_dir, session, tab) == if dir.len() > 0 && dir.last() != '/' {
                dir + seq!['/'] + file
            } else {
                dir + file
            }
            &&& forall|i: int| 0 <= i < file.len() ==> #[trigger] file[i] != '/'
        }),
{
    lemma_sanitized_is_one_component(tab);
    let st = sanitized(tab);
    let file = st + seq!['.', 'm', 'd'];
    assert forall|i: int| 0 <= i < file.len() implies #[trigger] file[i] != '/' by {
        if i < st.len() {
            assert(file[i] == st[i]);
        }
    }
}

/// A name that already meets every condition on a sanitized name: one to `MAX_NAME_LEN`
/// characters, no path separator or control character, no whitespace at either end,
/// and neither `.` nor `..`.
pub open spec fn is_sanitized(n: Seq<char>) -> bool {
    &&& 1 <= n.len() <= MAX_NAME_LEN
    &&& component_chars(n)
    &&& trim(n) == n
    &&& n != seq!['.'] && n != seq!['.', '.']
}

/// A non-empty sequence with no whitespace at either end is its own trim.
proof fn lemma_trim_of_bare(s: Seq<char>)
    requires
        s.len() > 0,
        !is_white(s[0]),
        !is_white(s.last()),
    ensures
        trim(s) == s,
{
}

/// Sanitizing leaves a name unchanged exactly when it already meets every condition on
/// a sanitized name; so sanitizing a second time changes nothing.
pub proof fn lemma_sanitize_fixed_points(name: Seq<char>)
    ensures
        (sanitized(name) == name) == is_sanitized(name),
        sanitized(sanitized(name)) == sanitized(name),
{
    let r = sanitized(name);
    lemma_sanitized_is_one_component(name);
    lemma_trim_of_bare(r);
    assert(is_sanitized(r));
    lemma_sanitized_keeps(r);
    if is_sanitized(name) {
        lemma_sanitized_keeps(name);
    }
}

/// A name that meets every condition on a sanitized name comes out as it went in.
proof fn lemma_sanitized_keeps(n: Seq<char>)
    requires
        is_sanitized(n),
    ensures
        sanitized(n) == n,
{
    let m = n.map_values(|c: char| replaced(c));
    assert(m =~= n) by {
        assert forall|i: int| 0 <= i < n.len() implies m[i] == n[i] by {
            assert(n[i] != '/' && n[i] != '\\' && !is_control(n[i]));
        }
    }
    assert(at_most(n, MAX_NAME_LEN as int) == n);
}

} // verus!
