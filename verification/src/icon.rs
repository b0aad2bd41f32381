//! The icon that marks a tab holding a note, added to and removed from tab names.
use crate::text::{chars_of, concat, has_prefix, starts_with, string_of};
use vstd::prelude::*;
use vstd::string::StrSliceExecFns;

verus! {

/// `name` without a leading `icon`, and without one space right after it.
pub open spec fn stripped(name: Seq<char>, icon: Seq<char>) -> Seq<char> {
    if has_prefix(name, icon) {
        let rest = name.skip(icon.len() as int);
        if rest.len() > 0 && rest[0] == ' ' {
            rest.drop_first()
        } else {
            rest
        }
    } else {
        name
    }
}

/// The tab name to show for `clean`: icon, space and name when a note exists.
pub open spec fn decorated(clean: Seq<char>, icon: Seq<char>, has_note: bool) -> Seq<char> {
    if has_note {
        icon + seq![' '] + clean
    } else {
        clean
    }
}

/// Removes a leading icon prefix, tolerating a missing separating space so that a
/// name typed by hand in the rename prompt still maps to the right note.
pub fn strip_icon<'a>(name: &'a str, icon: &str) -> (clean: &'a str)
    ensures
        clean@ == stripped(name@, icon@),
{
    let n = chars_of(name);
    let ic = chars_of(icon);
    if starts_with(&n, &ic) {
        let mut k = ic.len();
        if k < n.len() && n[k] == ' ' {
            k = k + 1;
        }
        let rest = name.substring_char(k, n.len());
        proof {
            let r = name@.skip(ic@.len() as int);
            if ic@.len() < name@.len() && name@[ic@.len() as int] == ' ' {
                assert(r.drop_first() =~= name@.subrange(k as int, n@.len() as int));
            } else {
                assert(r =~= name@.subrange(k as int, n@.len() as int));
            }
        }
        rest
    } else {
        name
    }
}

/// The tab name to show for `clean_name`, given whether it has a note.
pub fn decorate(clean_name: &str, icon: &str, has_note: bool) -> (shown: String)
    ensures
        shown@ == decorated(clean_name@, icon@, has_note),
{
    let cn = chars_of(clean_name);
    if has_note {
        let ic = chars_of(icon);
        let sp: Vec<char> = vec![' '];
        let head = concat(&ic, &sp);
        let all = concat(&head, &cn);
        string_of(&all)
    } else {
        string_of(&cn)
    }
}

/// Stripping the icon undoes decorating a name: always when a note exists, and when
/// none exists as long as the name does not itself begin with the icon.
pub proof fn lemma_strip_undoes_decorate(clean: Seq<char>, icon: Seq<char>, has_note: bool)
    requires
        has_note || !has_prefix(clean, icon),
    ensures
        stripped(decorated(clean, icon, has_note), icon) == clean,
{
    if has_note {
        let d = icon + seq![' '] + clean;
        assert(d.take(icon.len() as int) =~= icon);
        assert(d.skip(icon.len() as int) =~= seq![' '] + clean);
        assert((seq![' '] + clean).drop_first() =~= clean);
    }
}

} // verus!
