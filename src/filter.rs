use vstd::prelude::*;
use vstd::string::*;

verus! {

/// The lower-case form of a string, as `str::to_lowercase` gives it.
pub uninterp spec fn lower_of(s: Seq<char>) -> Seq<char>;

/// Relies on `str::to_lowercase`: its result depends on the characters alone, and
/// the empty string stays empty.
#[verifier::external_body]
fn lowercase(s: &str) -> (r: String)
    ensures
        r@ == lower_of(s@),
        s@.len() == 0 ==> r@.len() == 0,
{
    s.to_lowercase()
}

/// A filter entry names an extension when it equals the extension's lower-case
/// form, with or without a leading dot (`"jpg"` and `".jpg"` both name `JPG`).
pub open spec fn entry_names(entry: Seq<char>, ext: Seq<char>) -> bool {
    names_lowered(entry, lower_of(ext))
}

/// A filter entry names an already lower-cased extension when it equals it, with
/// or without a leading dot.
pub open spec fn names_lowered(entry: Seq<char>, lowered: Seq<char>) -> bool {
    entry == lowered || entry == seq!['.'] + lowered
}

/// The view of an optional list of filter entries.
pub open spec fn filter_view(formats: Option<Vec<String>>) -> Option<Seq<Seq<char>>> {
    match formats {
        None => None,
        Some(v) => Some(v@.map_values(|e: String| e@)),
    }
}

/// Whether some entry of the list names the lower-cased extension.
pub open spec fn named_lowered(entries: Seq<Seq<char>>, lowered: Seq<char>) -> bool {
    exists|i: int| 0 <= i < entries.len() && names_lowered(#[trigger] entries[i], lowered)
}

/// Whether some entry of the list names the extension.
pub open spec fn named_by(entries: Seq<Seq<char>>, ext: Seq<char>) -> bool {
    exists|i: int| 0 <= i < entries.len() && entry_names(#[trigger] entries[i], ext)
}

/// Whether an entry with the given extension is a candidate: always without a
/// filter; with one, only when it has an extension that some entry names.
pub open spec fn admits(filter: Option<Seq<Seq<char>>>, ext: Option<Seq<char>>) -> bool {
    match filter {
        None => true,
        Some(f) => match ext {
            None => false,
            Some(e) => named_by(f, e),
        },
    }
}

/// The view of an optional extension.
pub open spec fn ext_view(extension: Option<&str>) -> Option<Seq<char>> {
    match extension {
        None => None,
        Some(e) => Some(e@),
    }
}

/// Whether `entry` is `lowered` with a dot in front.
fn is_dotted(entry: &String, lowered: &String) -> (r: bool)
    ensures
        r == (entry@ == seq!['.'] + lowered@),
{
    let n = entry.as_str().unicode_len();
    if n == 0 {
        return false;
    }
    if entry.as_str().get_char(0) != '.' {
        assert(entry@[0] != (seq!['.'] + lowered@)[0]);
        return false;
    }
    let rest = String::from_str(entry.as_str().substring_char(1, n));
    let r = rest == *lowered;
    if r {
        assert(entry@ =~= seq!['.'] + lowered@);
    } else {
        proof {
            if entry@ == seq!['.'] + lowered@ {
                assert(entry@.subrange(1, n as int) =~= lowered@);
            }
        }
    }
    r
}

/// Decides whether an extension, already in lower case, passes the filter: always
/// without a filter; with one, when some entry names it.
pub fn admits_lowered(formats: &Option<Vec<String>>, lowered: &String) -> (r: bool)
    ensures
        r == match filter_view(*formats) {
            None => true,
            Some(f) => named_lowered(f, lowered@),
        },
{
    match formats {
        None => true,
        Some(list) => {
            let ghost f = filter_view(*formats)->Some_0;
            let mut i: usize = 0;
            while i < list.len()
                invariant
                    0 <= i <= list@.len(),
                    f == list@.map_values(|e: String| e@),
                    filter_view(*formats) == Some(f),
                    f.len() == list@.len(),
                    forall|k: int| 0 <= k < i ==> !names_lowered(#[trigger] f[k], lowered@),
                decreases list@.len() - i,
            {
                if list[i] == *lowered || is_dotted(&list[i], lowered) {
                    assert(f[i as int] == list@[i as int]@);
                    assert(names_lowered(f[i as int], lowered@));
                    assert(named_lowered(f, lowered@));
                    return true;
                }
                i = i + 1;
            }
            false
        },
    }
}

/// Decides whether an entry with the given extension passes the filter
/// (`None` for a path without an extension).
pub fn filter_admits(formats: &Option<Vec<String>>, extension: Option<&str>) -> (r: bool)
    ensures
        r == admits(filter_view(*formats), ext_view(extension)),
{
    match formats {
        None => true,
        Some(_) => match extension {
            None => false,
            Some(ext) => {
                let lowered = lowercase(ext);
                let r = admits_lowered(formats, &lowered);
                let ghost f = filter_view(*formats)->Some_0;
                assert(r == named_by(f, ext@)) by {
                    if r {
                        assert(named_lowered(f, lowered@));
                        let i = choose|i: int| 0 <= i < f.len() && names_lowered(#[trigger] f[i], lowered@);
                        assert(entry_names(f[i], ext@));
                    }
                }
                r
            },
        },
    }
}

} // verus!
