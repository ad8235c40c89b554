//! The pairing engine: checks that the two class lists agree in number,
//! pairs them positionally, and decides for each pair whether the RAW file
//! keeps its name, adopts its sibling's stem, or is skipped.
use vstd::prelude::*;
use crate::filename::ExtClass;
use crate::filename::clone_name;
use crate::filename::ext_of;
use crate::filename::find_sep;
use crate::filename::is_class_name;
use crate::filename::make_target;
use crate::filename::rename_target;
use crate::filename::stem_of;
use crate::filename::stems_equal;
use crate::order::views;
use crate::scan::ScanEntry;
use crate::scan::has_unreadable;
use crate::scan::lemma_spec_scan_members;
use crate::scan::scan_class;
use crate::scan::spec_scan;

verus! {

/// Why a run fails before any rename is planned.
#[derive(Clone, Copy, Debug, PartialEq, Eq, Structural)]
pub enum Error {
    /// An entry of the directory listing could not be read.
    EntryUnreadable,
    /// The RAW files and the JPG files differ in number.
    CardinalityMismatch { raw_count: usize, jpg_count: usize },
}

/// What the engine decides for one RAW/JPG pair.
#[derive(Debug, PartialEq, Eq)]
pub enum PairAction {
    /// The stems already agree: nothing to do.
    KeepName,
    /// The JPG name has no extension to take a stem from: the pair is skipped.
    NoExtension,
    /// Rename the RAW file to this name.
    Rename(Vec<u8>),
}

/// The decision for one pair, over the mathematical names.
pub enum SpecAction {
    Keep,
    NoExt,
    Move(Seq<u8>),
}

/// What the engine owes for the positional pair (raw, jpg).
pub open spec fn spec_pair_action(raw: Seq<u8>, jpg: Seq<u8>) -> SpecAction {
    if stem_of(raw) == stem_of(jpg) {
        SpecAction::Keep
    } else if ext_of(jpg) is None {
        SpecAction::NoExt
    } else {
        SpecAction::Move(rename_target(raw, jpg))
    }
}

/// The executable decision carries out the mathematical one.
pub open spec fn action_matches(a: PairAction, s: SpecAction) -> bool {
    match (a, s) {
        (PairAction::KeepName, SpecAction::Keep) => true,
        (PairAction::NoExtension, SpecAction::NoExt) => true,
        (PairAction::Rename(t), SpecAction::Move(m)) => t@ == m,
        _ => false,
    }
}

/// Decides what to do for one RAW/JPG pair.
pub fn pair_action(raw: &Vec<u8>, jpg: &Vec<u8>) -> (a: PairAction)
    requires
        ext_of(raw@) is Some,
    ensures
        action_matches(a, spec_pair_action(raw@, jpg@)),
{
    if stems_equal(raw, jpg) {
        PairAction::KeepName
    } else {
        match find_sep(jpg) {
            Some(_) => PairAction::Rename(make_target(raw, jpg)),
            None => PairAction::NoExtension,
        }
    }
}

/// One positional pair together with the engine's decision for it.
#[derive(Debug, PartialEq, Eq)]
pub struct PlannedPair {
    pub raw_name: Vec<u8>,
    pub jpg_name: Vec<u8>,
    pub action: PairAction,
}

/// The planned pair records the given names and the decision they owe.
pub open spec fn pair_planned(p: PlannedPair, raw: Seq<u8>, jpg: Seq<u8>) -> bool {
    &&& p.raw_name@ == raw
    &&& p.jpg_name@ == jpg
    &&& action_matches(p.action, spec_pair_action(raw, jpg))
}

/// Pairs the two sorted lists positionally after checking that they agree in
/// number, and decides each pair. Every RAW name must have an extension, as
/// every name the scanner classified does.
pub fn plan_pairs(raw_names: &Vec<Vec<u8>>, jpg_names: &Vec<Vec<u8>>) -> (r: Result<
    Vec<PlannedPair>,
    Error,
>)
    requires
        forall|i: int|
            0 <= i < raw_names@.len() ==> ext_of(#[trigger] views(raw_names@)[i]) is Some,
    ensures
        match r {
            Ok(pairs) => {
                &&& raw_names@.len() == jpg_names@.len()
                &&& pairs@.len() == raw_names@.len()
                &&& forall|i: int|
                    0 <= i < pairs@.len() ==> pair_planned(
                        #[trigger] pairs@[i],
                        views(raw_names@)[i],
                        views(jpg_names@)[i],
                    )
            },
            Err(e) => {
                &&& raw_names@.len() != jpg_names@.len()
                &&& e matches Error::CardinalityMismatch { raw_count, jpg_count }
                    && raw_count == raw_names@.len() && jpg_count == jpg_names@.len()
            },
        },
{
    if raw_names.len() != jpg_names.len() {
        return Err(
            Error::CardinalityMismatch {
                raw_count: raw_names.len(),
                jpg_count: jpg_names.len(),
            },
        );
    }
    let n = raw_names.len();
    let mut pairs: Vec<PlannedPair> = Vec::new();
    let mut i: usize = 0;
    while i < n
        invariant
            i <= n,
            n == raw_names.len() == jpg_names.len(),
            pairs@.len() == i,
            forall|k: int|
                0 <= k < raw_names@.len() ==> ext_of(#[trigger] views(raw_names@)[k]) is Some,
            forall|k: int|
                0 <= k < i ==> pair_planned(
                    #[trigger] pairs@[k],
                    views(raw_names@)[k],
                    views(jpg_names@)[k],
                ),
        decreases n - i,
    {
        let raw = &raw_names[i];
        let jpg = &jpg_names[i];
        proof {
            assert(views(raw_names@)[i as int] == raw@);
            assert(views(jpg_names@)[i as int] == jpg@);
        }
        let action = pair_action(raw, jpg);
        let planned = PlannedPair {
            raw_name: clone_name(raw),
            jpg_name: clone_name(jpg),
            action,
        };
        pairs.push(planned);
        i = i + 1;
    }
    Ok(pairs)
}

/// Scans the listing for both classes and plans the whole run: every RAW
/// file whose stem differs from its positional JPG sibling's adopts that
/// sibling's stem, keeping its own extension.
pub fn plan_renames(entries: &Vec<ScanEntry>) -> (r: Result<Vec<PlannedPair>, Error>)
    ensures
        match r {
            Ok(pairs) => {
                &&& !has_unreadable(entries@)
                &&& spec_scan(entries@, ExtClass::Raw).len() == spec_scan(
                    entries@,
                    ExtClass::Jpg,
                ).len()
                &&& pairs@.len() == spec_scan(entries@, ExtClass::Raw).len()
                &&& forall|i: int|
                    0 <= i < pairs@.len() ==> pair_planned(
                        #[trigger] pairs@[i],
                        spec_scan(entries@, ExtClass::Raw)[i],
                        spec_scan(entries@, ExtClass::Jpg)[i],
                    )
            },
            Err(e) => match e {
                Error::EntryUnreadable => has_unreadable(entries@),
                Error::CardinalityMismatch { raw_count, jpg_count } => {
                    &&& !has_unreadable(entries@)
                    &&& raw_count == spec_scan(entries@, ExtClass::Raw).len()
                    &&& jpg_count == spec_scan(entries@, ExtClass::Jpg).len()
                    &&& raw_count != jpg_count
                },
            },
        },
{
    let raw_names = match scan_class(entries, ExtClass::Raw) {
        Ok(names) => names,
        Err(e) => {
            return Err(e);
        },
    };
    let jpg_names = match scan_class(entries, ExtClass::Jpg) {
        Ok(names) => names,
        Err(e) => {
            return Err(e);
        },
    };
    proof {
        lemma_spec_scan_members(entries@, ExtClass::Raw);
        assert forall|i: int| 0 <= i < raw_names@.len() implies ext_of(
            #[trigger] views(raw_names@)[i],
        ) is Some by {
            assert(is_class_name(ExtClass::Raw, spec_scan(entries@, ExtClass::Raw)[i]));
        }
    }
    match plan_pairs(&raw_names, &jpg_names) {
        Ok(pairs) => {
            proof {
                assert(views(raw_names@) == spec_scan(entries@, ExtClass::Raw));
                assert(views(jpg_names@) == spec_scan(entries@, ExtClass::Jpg));
                assert forall|i: int| 0 <= i < pairs@.len() implies pair_planned(
                    #[trigger] pairs@[i],
                    spec_scan(entries@, ExtClass::Raw)[i],
                    spec_scan(entries@, ExtClass::Jpg)[i],
                ) by {
                    assert(pair_planned(pairs@[i], views(raw_names@)[i], views(jpg_names@)[i]));
                }
            }
            Ok(pairs)
        },
        Err(e) => {
            proof {
                assert(views(raw_names@).len() == raw_names@.len());
                assert(views(jpg_names@).len() == jpg_names@.len());
                assert(spec_scan(entries@, ExtClass::Raw).len() == raw_names@.len());
                assert(spec_scan(entries@, ExtClass::Jpg).len() == jpg_names@.len());
            }
            Err(e)
        },
    }
}

/// What the runner does with one planned rename, once it has looked whether
/// a file already stands at the target name.
#[derive(Clone, Copy, Debug, PartialEq, Eq, Structural)]
pub enum GuardedStep {
    /// A file already bears the target name: leave every file alone.
    SkipExisting,
    /// No file bears the target name: perform the rename.
    Perform,
}

/// The overwrite guard: a rename may proceed only toward a free name, so no
/// existing file is ever overwritten.
pub fn overwrite_guard(target_exists: bool) -> (s: GuardedStep)
    ensures
        s == (if target_exists {
            GuardedStep::SkipExisting
        } else {
            GuardedStep::Perform
        }),
{
    if target_exists {
        GuardedStep::SkipExisting
    } else {
        GuardedStep::Perform
    }
}

} // verus!
