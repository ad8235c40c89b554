//! The directory scanner: classifies the entries of one directory listing
//! and returns each extension class as a sorted list of file names.
use vstd::prelude::*;
use crate::engine::Error;
use crate::filename::ExtClass;
use crate::filename::clone_name;
use crate::filename::is_class_name;
use crate::filename::name_in_class;
use crate::order::lemma_lex_total_ordering;
use crate::order::lemma_name_sorted_is_sorted_by;
use crate::order::lex_leq;
use crate::order::name_sorted;
use crate::order::sort_names;
use crate::order::views;

verus! {

broadcast use vstd::seq_lib::group_to_multiset_ensures, vstd::multiset::group_multiset_axioms;

/// One entry of a directory listing, as the caller observed it.
pub enum ScanEntry {
    /// A regular file with the given name.
    File(Vec<u8>),
    /// An entry that is something other than a regular file.
    NotFile,
    /// An entry whose name or metadata could not be read.
    Unreadable,
}

/// Some entry of the listing could not be read.
pub open spec fn has_unreadable(entries: Seq<ScanEntry>) -> bool {
    exists|i: int| 0 <= i < entries.len() && entries[i] is Unreadable
}

/// The names of the regular files of the class, in listing order.
pub open spec fn class_names(entries: Seq<ScanEntry>, class: ExtClass) -> Seq<Seq<u8>>
    decreases entries.len(),
{
    if entries.len() == 0 {
        Seq::empty()
    } else {
        let rest = class_names(entries.drop_last(), class);
        match entries.last() {
            ScanEntry::File(name) => if is_class_name(class, name@) {
                rest.push(name@)
            } else {
                rest
            },
            _ => rest,
        }
    }
}

/// What the scanner owes: the class's names arranged ascending.
pub open spec fn spec_scan(entries: Seq<ScanEntry>, class: ExtClass) -> Seq<Seq<u8>> {
    class_names(entries, class).sort_by(lex_leq())
}

/// Every name the spec scan yields belongs to the class.
pub proof fn lemma_class_names_members(entries: Seq<ScanEntry>, class: ExtClass)
    ensures
        forall|i: int|
            0 <= i < class_names(entries, class).len() ==> is_class_name(
                class,
                #[trigger] class_names(entries, class)[i],
            ),
    decreases entries.len(),
{
    if entries.len() > 0 {
        lemma_class_names_members(entries.drop_last(), class);
        let cn = class_names(entries, class);
        let rest = class_names(entries.drop_last(), class);
        assert forall|i: int| 0 <= i < cn.len() implies is_class_name(class, cn[i]) by {
            match entries.last() {
                ScanEntry::File(name) => {
                    if is_class_name(class, name@) {
                        assert(cn == rest.push(name@));
                        if i < rest.len() {
                            assert(cn[i] == rest[i]);
                        } else {
                            assert(cn[i] == name@);
                        }
                    } else {
                        assert(cn == rest);
                    }
                },
                _ => {
                    assert(cn == rest);
                },
            }
        }
    }
}

/// Every name the sorted spec scan yields belongs to the class.
pub proof fn lemma_spec_scan_members(entries: Seq<ScanEntry>, class: ExtClass)
    ensures
        forall|i: int|
            0 <= i < spec_scan(entries, class).len() ==> is_class_name(
                class,
                #[trigger] spec_scan(entries, class)[i],
            ),
{
    let names0 = class_names(entries, class);
    let sorted = spec_scan(entries, class);
    lemma_lex_total_ordering();
    names0.lemma_sort_by_ensures(lex_leq());
    lemma_class_names_members(entries, class);
    assert forall|i: int| 0 <= i < sorted.len() implies is_class_name(class, sorted[i]) by {
        assert(sorted.contains(sorted[i]));
        assert(sorted.to_multiset().count(sorted[i]) > 0);
        assert(names0.to_multiset().count(sorted[i]) > 0);
        assert(names0.contains(sorted[i]));
        let j = choose|j: int| 0 <= j < names0.len() && names0[j] == sorted[i];
        assert(is_class_name(class, names0[j]));
    }
}

/// Collects the names of the regular files of the class, sorted ascending.
/// Fails, touching nothing, when any entry of the listing is unreadable.
pub fn scan_class(entries: &Vec<ScanEntry>, class: ExtClass) -> (r: Result<Vec<Vec<u8>>, Error>)
    ensures
        match r {
            Ok(names) => {
                &&& !has_unreadable(entries@)
                &&& name_sorted(views(names@))
                &&& views(names@) == spec_scan(entries@, class)
            },
            Err(e) => e == Error::EntryUnreadable && has_unreadable(entries@),
        },
{
    let mut found: Vec<Vec<u8>> = Vec::new();
    let n = entries.len();
    let mut i: usize = 0;
    proof {
        assert(entries@.subrange(0, 0) =~= Seq::<ScanEntry>::empty());
        assert(views(found@) =~= class_names(entries@.subrange(0, 0), class));
    }
    while i < n
        invariant
            i <= n,
            n == entries.len(),
            views(found@) == class_names(entries@.subrange(0, i as int), class),
            forall|j: int| 0 <= j < i ==> !(entries@[j] is Unreadable),
        decreases n - i,
    {
        let ghost pre = entries@.subrange(0, i as int);
        let ghost post = entries@.subrange(0, i + 1);
        proof {
            assert(post.drop_last() =~= pre);
            assert(post.last() == entries@[i as int]);
        }
        match &entries[i] {
            ScanEntry::File(name) => {
                if name_in_class(class, name) {
                    let copied = clone_name(name);
                    let ghost before = views(found@);
                    found.push(copied);
                    proof {
                        assert(views(found@) =~= before.push(name@));
                    }
                }
            },
            ScanEntry::NotFile => {},
            ScanEntry::Unreadable => {
                proof {
                    assert(entries@[i as int] is Unreadable);
                }
                return Err(Error::EntryUnreadable);
            },
        }
        i = i + 1;
    }
    proof {
        assert(entries@.subrange(0, n as int) =~= entries@);
    }
    let sorted = sort_names(found);
    proof {
        let names0 = class_names(entries@, class);
        lemma_lex_total_ordering();
        names0.lemma_sort_by_ensures(lex_leq());
        lemma_name_sorted_is_sorted_by(views(sorted@));
        lemma_name_sorted_is_sorted_by(names0.sort_by(lex_leq()));
        vstd::seq_lib::lemma_sorted_unique(views(sorted@), names0.sort_by(lex_leq()), lex_leq());
    }
    Ok(sorted)
}

} // verus!
