use jpg_renamer::filename::ExtClass;
use jpg_renamer::filename::bytes_equal;
use jpg_renamer::filename::extension_bytes;
use jpg_renamer::filename::find_sep;
use jpg_renamer::filename::make_target;
use jpg_renamer::filename::name_in_class;
use jpg_renamer::filename::stem_bytes;
use jpg_renamer::filename::stems_equal;

#[test]
fn split_of_plain_name() {
    let name = b"photo.raw".to_vec();
    assert_eq!(find_sep(&name), Some(5));
    assert_eq!(stem_bytes(&name), b"photo".to_vec());
    assert_eq!(extension_bytes(&name), Some(b"raw".to_vec()));
}

#[test]
fn split_without_extension() {
    let name = b"photo".to_vec();
    assert_eq!(find_sep(&name), None);
    assert_eq!(stem_bytes(&name), b"photo".to_vec());
    assert_eq!(extension_bytes(&name), None);
}

#[test]
fn split_of_hidden_file() {
    let name = b".bashrc".to_vec();
    assert_eq!(find_sep(&name), None);
    assert_eq!(stem_bytes(&name), b".bashrc".to_vec());
    assert_eq!(extension_bytes(&name), None);
}

#[test]
fn split_keeps_only_last_dot() {
    let name = b"a.b.jpg".to_vec();
    assert_eq!(find_sep(&name), Some(3));
    assert_eq!(stem_bytes(&name), b"a.b".to_vec());
    assert_eq!(extension_bytes(&name), Some(b"jpg".to_vec()));
}

#[test]
fn split_of_trailing_dot() {
    let name = b"a.".to_vec();
    assert_eq!(stem_bytes(&name), b"a".to_vec());
    assert_eq!(extension_bytes(&name), Some(b"".to_vec()));
}

#[test]
fn raw_class_membership() {
    assert!(name_in_class(ExtClass::Raw, &b"x.raw".to_vec()));
    assert!(name_in_class(ExtClass::Raw, &b"x.raf".to_vec()));
    assert!(name_in_class(ExtClass::Raw, &b"x.nef".to_vec()));
    assert!(!name_in_class(ExtClass::Raw, &b"x.jpg".to_vec()));
    assert!(!name_in_class(ExtClass::Raw, &b"x.RAW".to_vec()));
    assert!(!name_in_class(ExtClass::Raw, &b"raw".to_vec()));
    assert!(!name_in_class(ExtClass::Raw, &b"x.rawr".to_vec()));
}

#[test]
fn jpg_class_membership() {
    assert!(name_in_class(ExtClass::Jpg, &b"x.jpg".to_vec()));
    assert!(name_in_class(ExtClass::Jpg, &b"x.jpeg".to_vec()));
    assert!(!name_in_class(ExtClass::Jpg, &b"x.jpe".to_vec()));
    assert!(!name_in_class(ExtClass::Jpg, &b"x.JPG".to_vec()));
    assert!(!name_in_class(ExtClass::Jpg, &b"x.nef".to_vec()));
}

#[test]
fn stems_compare_without_extensions() {
    assert!(stems_equal(&b"a.raw".to_vec(), &b"a.jpg".to_vec()));
    assert!(!stems_equal(&b"a.raw".to_vec(), &b"b.jpg".to_vec()));
    assert!(stems_equal(&b"plain".to_vec(), &b"plain.jpg".to_vec()));
}

#[test]
fn target_takes_stem_and_keeps_extension() {
    let raw = b"IMG_001.raf".to_vec();
    let jpg = b"Lake.jpg".to_vec();
    assert_eq!(make_target(&raw, &jpg), b"Lake.raf".to_vec());
}

#[test]
fn byte_vectors_compare_by_contents() {
    assert!(bytes_equal(&b"abc".to_vec(), &b"abc".to_vec()));
    assert!(!bytes_equal(&b"abc".to_vec(), &b"abd".to_vec()));
    assert!(!bytes_equal(&b"abc".to_vec(), &b"ab".to_vec()));
}
