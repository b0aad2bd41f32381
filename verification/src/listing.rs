//! Reading which notes exist from the output of
//! `find <dir> -maxdepth 1 -name '*.md' -size +0c`.
use crate::notes::NoteSet;
use crate::text::{chars_of, copy_range, ends_with, has_suffix, lines_of, split_lines, string_of,
    trim_end, trimmed_end};
use vstd::prelude::*;

verus! {

/// The index of the last `/` in `s`, or -1 when there is none.
pub open spec fn last_slash(s: Seq<char>) -> int
    decreases s.len(),
{
    if s.len() == 0 {
        -1
    } else if s.last() == '/' {
        s.len() - 1
    } else {
        last_slash(s.drop_last())
    }
}

/// The note a line of the listing names: the file name after the last `/`, when it is a
/// non-empty name followed by `.md`.
pub open spec fn note_name(line: Seq<char>) -> Option<Seq<char>> {
    let t = trim_end(line);
    let file = t.skip(last_slash(t) + 1);
    if t.len() > 0 && has_suffix(file, seq!['.', 'm', 'd']) && file.len() > 3 {
        Some(file.take(file.len() - 3))
    } else {
        None
    }
}

/// The names the listing's lines hold.
pub open spec fn listed_names(lines: Seq<Seq<char>>) -> Set<Seq<char>>
    decreases lines.len(),
{
    if lines.len() == 0 {
        Set::empty()
    } else {
        let prev = listed_names(lines.drop_last());
        match note_name(lines.last()) {
            Some(n) => prev.insert(n),
            None => prev,
        }
    }
}

proof fn lemma_last_slash_bounds(s: Seq<char>)
    ensures
        -1 <= last_slash(s) < s.len(),
    decreases s.len(),
{
    if s.len() > 0 {
        lemma_last_slash_bounds(s.drop_last());
    }
}

/// Where the file name starts in `s`: just after its last `/`.
fn file_name_start(s: &[char]) -> (k: usize)
    ensures
        k == last_slash(s@) + 1,
{
    let mut k = s.len();
    assert(s@.take(k as int) =~= s@);
    while k > 0 && s[k - 1] != '/'
        invariant
            k <= s.len(),
            last_slash(s@) == last_slash(s@.take(k as int)),
        decreases k,
    {
        assert(s@.take(k as int).drop_last() =~= s@.take(k - 1));
        k = k - 1;
    }
    k
}

/// The note a line names, if any (see `note_name`).
fn note_name_of(line: &[char]) -> (r: Option<Vec<char>>)
    ensures
        match (r, note_name(line@)) {
            (Some(v), Some(n)) => v@ == n,
            (None, None) => true,
            _ => false,
        },
{
    let t = trimmed_end(line);
    let k = file_name_start(&t);
    proof {
        lemma_last_slash_bounds(t@);
    }
    let file = copy_range(&t, k, t.len());
    assert(file@ =~= t@.skip(k as int));
    let md: Vec<char> = vec!['.', 'm', 'd'];
    assert(md@ =~= seq!['.', 'm', 'd']);
    if t.len() > 0 && ends_with(&file, &md) && file.len() > 3 {
        let name = copy_range(&file, 0, file.len() - 3);
        assert(name@ =~= file@.take(file.len() - 3));
        Some(name)
    } else {
        None
    }
}

proof fn lemma_after_last_slash(s: Seq<char>)
    ensures
        forall|i: int| last_slash(s) < i < s.len() ==> s[i] != '/',
    decreases s.len(),
{
    lemma_last_slash_bounds(s);
    if s.len() > 0 && s.last() != '/' {
        lemma_after_last_slash(s.drop_last());
        assert forall|i: int| last_slash(s) < i < s.len() implies s[i] != '/' by {
            if i < s.len() - 1 {
                assert(s.drop_last()[i] == s[i]);
            }
        }
    }
}

/// A note name read from a line is a non-empty file name: it holds no `/`.
proof fn lemma_note_name_is_a_file_name(line: Seq<char>)
    ensures
        note_name(line) matches Some(n) ==> n.len() > 0 && forall|i: int|
            0 <= i < n.len() ==> n[i] != '/',
{
    let t = trim_end(line);
    lemma_last_slash_bounds(t);
    lemma_after_last_slash(t);
    let k = last_slash(t) + 1;
    let file = t.skip(k);
    if let Some(n) = note_name(line) {
        assert forall|i: int| 0 <= i < n.len() implies n[i] != '/' by {
            assert(n[i] == file[i]);
            assert(file[i] == t[k + i]);
        }
    }
}

/// Every name read from a listing is a non-empty file name without `/`.
pub proof fn lemma_listed_names_are_file_names(lines: Seq<Seq<char>>)
    ensures
        forall|n: Seq<char>|
            #[trigger] listed_names(lines).contains(n) ==> n.len() > 0 && forall|i: int|
                0 <= i < n.len() ==> n[i] != '/',
    decreases lines.len(),
{
    if lines.len() > 0 {
        lemma_listed_names_are_file_names(lines.drop_last());
        lemma_note_name_is_a_file_name(lines.last());
        let prev = listed_names(lines.drop_last());
        assert forall|n: Seq<char>| #[trigger] listed_names(lines).contains(n) implies n.len() > 0
            && forall|i: int| 0 <= i < n.len() ==> n[i] != '/' by {
            if !prev.contains(n) {
                assert(note_name(lines.last()) == Some(n));
            }
        }
    }
}

/// Parses the stdout of `find <dir> -maxdepth 1 -name '*.md' -size +0c` into the set of
/// clean tab names that currently have a note.
pub fn parse_note_listing(stdout: &str) -> (names: NoteSet)
    ensures
        names@ == listed_names(lines_of(stdout@)),
        forall|n: Seq<char>|
            #[trigger] names@.contains(n) ==> n.len() > 0 && forall|i: int|
                0 <= i < n.len() ==> n[i] != '/',
{
    proof {
        lemma_listed_names_are_file_names(lines_of(stdout@));
    }
    let cs = chars_of(stdout);
    let lines = split_lines(&cs);
    let ghost ls = lines_of(stdout@);
    let mut names = NoteSet::new();
    let mut i: usize = 0;
    assert(ls.take(0) =~= Seq::<Seq<char>>::empty());
    while i < lines.len()
        invariant
            i <= lines@.len(),
            lines@.len() == ls.len(),
            forall|j: int| 0 <= j < ls.len() ==> #[trigger] lines@[j]@ == ls[j],
            names@ == listed_names(ls.take(i as int)),
        decreases lines.len() - i,
    {
        assert(ls.take(i + 1).drop_last() =~= ls.take(i as int));
        assert(lines@[i as int]@ == ls[i as int]);
        match note_name_of(&lines[i]) {
            Some(n) => {
                names.insert(string_of(&n));
            },
            None => {},
        }
        i = i + 1;
    }
    assert(ls.take(ls.len() as int) =~= ls);
    names
}

} // verus!
