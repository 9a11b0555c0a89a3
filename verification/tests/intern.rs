use ninja_front::blob::Blob;
use ninja_front::intern::{Symbol, Table};

#[test]
fn deduplication() {
    let mut arena = Table::new();
    let a_bytes = b"aaaaa";
    let b_bytes = b"bbbbb";
    let mut ids = vec![];
    for _ in 0..10 {
        let a = Blob::new(a_bytes);
        let a_id = arena.insert(a.as_bytes());
        ids.push(a_id);

        let b = Blob::new(b_bytes);
        let b_id = arena.insert(b.as_bytes());
        ids.push(b_id);

        assert!(a_id != b_id);
    }

    let ids: std::collections::HashSet<Symbol> = ids.iter().cloned().collect();
    assert!(ids.len() == 2);
}

#[test]
fn equal_content_same_symbol() {
    let mut table = Table::new();
    let first = table.insert(b"name");
    let other = table.insert(b"other");
    let again = table.insert(b"name");
    assert_eq!(first, again);
    assert!(first != other);
    assert_eq!(table.insert(b"other"), other);
}

#[test]
fn empty_content_interns() {
    let mut table = Table::new();
    let empty = table.insert(b"");
    let non_empty = table.insert(b"x");
    assert!(empty != non_empty);
    assert_eq!(table.insert(b""), empty);
}
