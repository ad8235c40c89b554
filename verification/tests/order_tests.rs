use jpg_renamer::order::lex_le_bytes;
use jpg_renamer::order::sort_names;

#[test]
fn lex_order_on_bytes() {
    assert!(lex_le_bytes(&b"a".to_vec(), &b"b".to_vec()));
    assert!(!lex_le_bytes(&b"b".to_vec(), &b"a".to_vec()));
    assert!(lex_le_bytes(&b"a".to_vec(), &b"ab".to_vec()));
    assert!(!lex_le_bytes(&b"ab".to_vec(), &b"a".to_vec()));
    assert!(lex_le_bytes(&b"same".to_vec(), &b"same".to_vec()));
    assert!(lex_le_bytes(&b"".to_vec(), &b"a".to_vec()));
    assert!(!lex_le_bytes(&b"a".to_vec(), &b"".to_vec()));
}

#[test]
fn dot_orders_before_letters() {
    assert!(lex_le_bytes(&b"a.b.nef".to_vec(), &b"a.raw".to_vec()));
}

#[test]
fn sort_arranges_names_ascending() {
    let names = vec![b"b.raw".to_vec(), b"a.raw".to_vec(), b"c.raw".to_vec()];
    let sorted = sort_names(names);
    assert_eq!(
        sorted,
        vec![b"a.raw".to_vec(), b"b.raw".to_vec(), b"c.raw".to_vec()]
    );
}

#[test]
fn sort_keeps_duplicates() {
    let names = vec![b"b".to_vec(), b"a".to_vec(), b"b".to_vec()];
    let sorted = sort_names(names);
    assert_eq!(sorted, vec![b"a".to_vec(), b"b".to_vec(), b"b".to_vec()]);
}

#[test]
fn sort_of_empty_list() {
    let sorted = sort_names(Vec::new());
    assert!(sorted.is_empty());
}
