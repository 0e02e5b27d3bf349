use rgssad::index::{ArchiveIndex, EntryData};

#[test]
fn a_new_index_is_empty() {
    let index = ArchiveIndex::new();
    assert_eq!(index.entries.len(), 0);
    assert_eq!(index.get(&String::from("a")), None);
    assert_eq!(index.find(&String::from("a")), None);
}

#[test]
fn insert_then_get_returns_the_descriptor() {
    let mut index = ArchiveIndex::new();
    let a = EntryData { offset: 10, magic: 20, size: 30 };
    let b = EntryData { offset: 1, magic: 2, size: 3 };
    index.insert(String::from("a"), a);
    index.insert(String::from("b"), b);
    assert_eq!(index.get(&String::from("a")), Some(a));
    assert_eq!(index.get(&String::from("b")), Some(b));
    assert_eq!(index.get(&String::from("c")), None);
    assert_eq!(index.find(&String::from("b")), Some(1));
}

#[test]
fn insert_of_a_known_name_replaces_and_keeps_the_place() {
    let mut index = ArchiveIndex::new();
    index.insert(String::from("a"), EntryData { offset: 1, magic: 1, size: 1 });
    index.insert(String::from("b"), EntryData { offset: 2, magic: 2, size: 2 });
    index.insert(String::from("a"), EntryData { offset: 3, magic: 3, size: 3 });
    assert_eq!(index.entries.len(), 2);
    assert_eq!(index.entries[0].name, "a");
    assert_eq!(index.entries[1].name, "b");
    assert_eq!(index.get(&String::from("a")), Some(EntryData { offset: 3, magic: 3, size: 3 }));
}

#[test]
fn names_are_told_apart_exactly() {
    let mut index = ArchiveIndex::new();
    index.insert(String::from("a"), EntryData { offset: 1, magic: 1, size: 1 });
    assert_eq!(index.get(&String::from("A")), None);
    assert_eq!(index.get(&String::from("a ")), None);
    assert_eq!(index.get(&String::from("")), None);
}
