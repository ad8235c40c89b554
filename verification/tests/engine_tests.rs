use jpg_renamer::engine::Error;
use jpg_renamer::engine::GuardedStep;
use jpg_renamer::engine::PairAction;
use jpg_renamer::engine::overwrite_guard;
use jpg_renamer::engine::pair_action;
use jpg_renamer::engine::plan_pairs;
use jpg_renamer::engine::plan_renames;
use jpg_renamer::filename::ExtClass;
use jpg_renamer::scan::ScanEntry;
use jpg_renamer::scan::scan_class;

fn file(name: &[u8]) -> ScanEntry {
    ScanEntry::File(name.to_vec())
}

#[test]
fn scanner_classifies_and_sorts() {
    let entries = vec![
        file(b"Sunset.jpg"),
        file(b"IMG_002.raf"),
        ScanEntry::NotFile,
        file(b"notes.txt"),
        file(b"IMG_001.raf"),
        file(b"Lake.jpg"),
    ];
    let raw = scan_class(&entries, ExtClass::Raw).unwrap();
    assert_eq!(raw, vec![b"IMG_001.raf".to_vec(), b"IMG_002.raf".to_vec()]);
    let jpg = scan_class(&entries, ExtClass::Jpg).unwrap();
    assert_eq!(jpg, vec![b"Lake.jpg".to_vec(), b"Sunset.jpg".to_vec()]);
}

#[test]
fn scanner_ignores_non_files_with_matching_names() {
    let entries = vec![ScanEntry::NotFile, file(b"a.jpg")];
    let jpg = scan_class(&entries, ExtClass::Jpg).unwrap();
    assert_eq!(jpg, vec![b"a.jpg".to_vec()]);
}

#[test]
fn scanner_fails_on_unreadable_entry() {
    let entries = vec![file(b"a.raw"), ScanEntry::Unreadable, file(b"a.jpg")];
    assert_eq!(
        scan_class(&entries, ExtClass::Raw),
        Err(Error::EntryUnreadable)
    );
    assert_eq!(plan_renames(&entries), Err(Error::EntryUnreadable));
}

#[test]
fn cardinality_mismatch_plans_nothing() {
    let entries = vec![file(b"a.raw"), file(b"b.raw"), file(b"a.jpg")];
    assert_eq!(
        plan_renames(&entries),
        Err(Error::CardinalityMismatch {
            raw_count: 2,
            jpg_count: 1,
        })
    );
}

#[test]
fn sorted_lists_pair_positionally() {
    let entries = vec![
        file(b"b.raw"),
        file(b"a.raw"),
        file(b"a_edit.jpg"),
        file(b"b_edit.jpg"),
    ];
    let pairs = plan_renames(&entries).unwrap();
    assert_eq!(pairs.len(), 2);
    assert_eq!(pairs[0].raw_name, b"a.raw".to_vec());
    assert_eq!(pairs[0].jpg_name, b"a_edit.jpg".to_vec());
    assert_eq!(pairs[0].action, PairAction::Rename(b"a_edit.raw".to_vec()));
    assert_eq!(pairs[1].raw_name, b"b.raw".to_vec());
    assert_eq!(pairs[1].jpg_name, b"b_edit.jpg".to_vec());
    assert_eq!(pairs[1].action, PairAction::Rename(b"b_edit.raw".to_vec()));
}

#[test]
fn camera_counter_names_adopt_tool_names() {
    let entries = vec![
        file(b"IMG_001.raf"),
        file(b"IMG_002.raf"),
        file(b"Sunset.jpg"),
        file(b"Lake.jpg"),
    ];
    let pairs = plan_renames(&entries).unwrap();
    assert_eq!(pairs.len(), 2);
    assert_eq!(pairs[0].raw_name, b"IMG_001.raf".to_vec());
    assert_eq!(pairs[0].action, PairAction::Rename(b"Lake.raf".to_vec()));
    assert_eq!(pairs[1].raw_name, b"IMG_002.raf".to_vec());
    assert_eq!(pairs[1].action, PairAction::Rename(b"Sunset.raf".to_vec()));
}

#[test]
fn matching_stems_need_no_rename() {
    let action = pair_action(&b"Lake.raf".to_vec(), &b"Lake.jpg".to_vec());
    assert_eq!(action, PairAction::KeepName);
}

#[test]
fn jpg_without_extension_is_skipped() {
    let raws = vec![b"a.raw".to_vec()];
    let jpgs = vec![b"photo".to_vec()];
    let pairs = plan_pairs(&raws, &jpgs).unwrap();
    assert_eq!(pairs.len(), 1);
    assert_eq!(pairs[0].action, PairAction::NoExtension);
}

#[test]
fn second_pass_plans_no_rename() {
    let entries = vec![
        file(b"IMG_001.raf"),
        file(b"IMG_002.raf"),
        file(b"Sunset.jpg"),
        file(b"Lake.jpg"),
    ];
    let pairs = plan_renames(&entries).unwrap();
    let mut after: Vec<ScanEntry> = Vec::new();
    for p in &pairs {
        match &p.action {
            PairAction::Rename(target) => after.push(ScanEntry::File(target.clone())),
            _ => after.push(ScanEntry::File(p.raw_name.clone())),
        }
    }
    after.push(file(b"Sunset.jpg"));
    after.push(file(b"Lake.jpg"));
    let second = plan_renames(&after).unwrap();
    assert_eq!(second.len(), 2);
    for p in &second {
        assert_eq!(p.action, PairAction::KeepName);
    }
}

#[test]
fn empty_directory_plans_nothing() {
    let entries: Vec<ScanEntry> = Vec::new();
    let pairs = plan_renames(&entries).unwrap();
    assert!(pairs.is_empty());
}

#[test]
fn matched_directory_plans_no_rename() {
    let entries = vec![
        file(b"Lake.raf"),
        file(b"Sunset.raf"),
        file(b"Lake.jpg"),
        file(b"Sunset.jpg"),
    ];
    let pairs = plan_renames(&entries).unwrap();
    assert_eq!(pairs.len(), 2);
    for p in &pairs {
        assert_eq!(p.action, PairAction::KeepName);
    }
}

#[test]
fn guard_refuses_occupied_target() {
    assert_eq!(overwrite_guard(true), GuardedStep::SkipExisting);
    assert_eq!(overwrite_guard(false), GuardedStep::Perform);
}

#[test]
fn occupied_target_loses_no_file() {
    // The first pair's target name is already taken by the second RAW file.
    let entries = vec![
        file(b"a.raw"),
        file(b"b.raw"),
        file(b"b.jpg"),
        file(b"c.jpg"),
    ];
    let pairs = plan_renames(&entries).unwrap();
    assert_eq!(pairs[0].action, PairAction::Rename(b"b.raw".to_vec()));
    assert_eq!(pairs[1].action, PairAction::Rename(b"c.raw".to_vec()));

    // Carry the plan out the way the runner does, skipping occupied targets.
    let mut names = vec![
        b"a.raw".to_vec(),
        b"b.raw".to_vec(),
        b"b.jpg".to_vec(),
        b"c.jpg".to_vec(),
    ];
    for p in &pairs {
        if let PairAction::Rename(target) = &p.action {
            match overwrite_guard(names.contains(target)) {
                GuardedStep::SkipExisting => {}
                GuardedStep::Perform => {
                    let at = names.iter().position(|n| n == &p.raw_name).unwrap();
                    names[at] = target.clone();
                }
            }
        }
    }
    // Nothing was overwritten: both RAW files and both JPG files survive.
    assert_eq!(names.len(), 4);
    assert!(names.contains(&b"a.raw".to_vec()));
    assert!(names.contains(&b"c.raw".to_vec()));
    assert!(names.contains(&b"b.jpg".to_vec()));
    assert!(names.contains(&b"c.jpg".to_vec()));
}

#[test]
fn targets_never_carry_jpg_extensions() {
    let entries = vec![
        file(b"x.raw"),
        file(b"y.nef"),
        file(b"one.jpg"),
        file(b"two.jpeg"),
    ];
    let pairs = plan_renames(&entries).unwrap();
    for p in &pairs {
        if let PairAction::Rename(target) = &p.action {
            assert!(!jpg_renamer::filename::name_in_class(
                ExtClass::Jpg,
                target
            ));
            assert!(jpg_renamer::filename::name_in_class(ExtClass::Raw, target));
        }
    }
}
