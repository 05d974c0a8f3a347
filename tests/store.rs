use notebook::text::contains_fragment;
use notebook::{Folder, Note, NoteRecord, Notebook, Preference, StoreError, Tag};

fn s(x: &str) -> String {
    x.to_string()
}

fn names(v: &[&str]) -> Vec<String> {
    v.iter().map(|x| x.to_string()).collect()
}

fn note_by_id(book: &Notebook, id: i64) -> Option<Note> {
    book.list_notes().into_iter().find(|n| n.id == id)
}

fn sorted(mut v: Vec<String>) -> Vec<String> {
    v.sort();
    v
}

#[test]
fn retagging_keeps_only_the_second_set() {
    let mut book = Notebook::new();
    let id = book
        .create_note(s("t"), s("c"), false, None, names(&["x", "y"]))
        .unwrap();
    book.update_note(id, s("t"), s("c"), false, None, names(&["y", "z", "z"]))
        .unwrap();
    let n = note_by_id(&book, id).unwrap();
    assert_eq!(sorted(n.tags), names(&["y", "z"]));
    book.update_note(id, s("t"), s("c"), false, None, vec![]).unwrap();
    assert!(note_by_id(&book, id).unwrap().tags.is_empty());
}

#[test]
fn duplicate_tags_collapse_on_create() {
    let mut book = Notebook::new();
    let id = book
        .create_note(s("t"), s("c"), true, None, names(&["a", "a", "b"]))
        .unwrap();
    let n = note_by_id(&book, id).unwrap();
    assert_eq!(n.tags, names(&["a", "b"]));
    assert_eq!(book.list_tags(), names(&["a", "b"]));
}

#[test]
fn deleting_folder_removes_descendants_and_their_notes() {
    let mut book = Notebook::new();
    let f = book.create_folder(s("F"), None).unwrap();
    let g = book.create_folder(s("G"), Some(f)).unwrap();
    let other = book.create_folder(s("Other"), None).unwrap();
    let n = book
        .create_note(s("N"), s("body"), false, Some(g), names(&["t"]))
        .unwrap();
    let kept = book
        .create_note(s("K"), s("body"), false, Some(other), names(&["t"]))
        .unwrap();
    book.delete_folder(f);
    let notes = book.list_notes();
    assert!(notes.iter().all(|x| x.id != n));
    assert!(notes.iter().any(|x| x.id == kept));
    let folders = book.list_folders();
    assert!(folders.iter().all(|x| x.id != f && x.id != g));
    assert_eq!(folders.len(), 1);
    assert_eq!(folders[0].id, other);
    assert_eq!(book.list_tags(), names(&["t"]));
}

#[test]
fn deleting_empty_folder_keeps_siblings() {
    let mut book = Notebook::new();
    let a = book.create_folder(s("A"), None).unwrap();
    let b = book.create_folder(s("B"), None).unwrap();
    let c = book.create_folder(s("C"), Some(a)).unwrap();
    book.create_note(s("n"), s(""), false, Some(a), vec![]).unwrap();
    book.delete_folder(b);
    let ids: Vec<i64> = book.list_folders().iter().map(|f| f.id).collect();
    assert_eq!(ids, vec![a, c]);
    assert_eq!(book.list_notes().len(), 1);
}

#[test]
fn search_matches_tag_substrings() {
    let mut book = Notebook::new();
    let r = book
        .create_note(s("r"), s(""), false, None, names(&["rustlang"]))
        .unwrap();
    book.create_note(s("g"), s(""), false, None, names(&["go"]))
        .unwrap();
    let both = book
        .create_note(s("b"), s(""), false, None, names(&["rust", "trusty", "go"]))
        .unwrap();
    let hits = book.search_notes("rust");
    let ids: Vec<i64> = hits.iter().map(|n| n.id).collect();
    assert_eq!(ids, vec![r, both]);
    assert_eq!(sorted(hits[1].tags.clone()), names(&["go", "rust", "trusty"]));
}

#[test]
fn search_is_case_sensitive_and_needs_a_tag() {
    let mut book = Notebook::new();
    book.create_note(s("r"), s(""), false, None, names(&["rustlang"]))
        .unwrap();
    let untagged = book.create_note(s("u"), s(""), false, None, vec![]).unwrap();
    assert!(book.search_notes("Rust").is_empty());
    let all = book.search_notes("");
    assert_eq!(all.len(), 1);
    assert!(all.iter().all(|n| n.id != untagged));
}

#[test]
fn deleting_note_keeps_orphaned_tag() {
    let mut book = Notebook::new();
    let id = book
        .create_note(s("t"), s("c"), false, None, names(&["lonely"]))
        .unwrap();
    book.delete_note(id);
    assert!(book.list_notes().is_empty());
    assert_eq!(book.list_tags(), names(&["lonely"]));
    assert!(book.search_notes("lonely").is_empty());
}

#[test]
fn deleting_missing_rows_is_a_no_op() {
    let mut book = Notebook::new();
    let f = book.create_folder(s("F"), None).unwrap();
    let n = book
        .create_note(s("t"), s("c"), false, Some(f), names(&["a"]))
        .unwrap();
    book.delete_note(n + 100);
    book.delete_folder(f + 100);
    assert_eq!(book.list_notes().len(), 1);
    assert_eq!(book.list_folders().len(), 1);
    assert_eq!(note_by_id(&book, n).unwrap().tags, names(&["a"]));
}

#[test]
fn identical_update_round_trips() {
    let mut book = Notebook::new();
    let f = book.create_folder(s("F"), None).unwrap();
    let id = book
        .create_note(s("Title"), s("Body"), true, Some(f), names(&["b", "a"]))
        .unwrap();
    book.update_note(id, s("Title"), s("Body"), true, Some(f), names(&["b", "a"]))
        .unwrap();
    let notes = book.list_notes();
    assert_eq!(notes.len(), 1);
    let n = &notes[0];
    assert_eq!(n.id, id);
    assert_eq!(n.title, "Title");
    assert_eq!(n.content, "Body");
    assert!(n.is_markdown);
    assert_eq!(n.folder_id, Some(f));
    assert_eq!(sorted(n.tags.clone()), names(&["a", "b"]));
}

#[test]
fn update_changes_fields_and_folder() {
    let mut book = Notebook::new();
    let f = book.create_folder(s("F"), None).unwrap();
    let id = book.create_note(s("a"), s("b"), false, None, vec![]).unwrap();
    book.update_note(id, s("x"), s("y"), true, Some(f), vec![]).unwrap();
    let n = note_by_id(&book, id).unwrap();
    assert_eq!((n.title.as_str(), n.content.as_str()), ("x", "y"));
    assert!(n.is_markdown);
    assert_eq!(n.folder_id, Some(f));
}

#[test]
fn refused_mutations_report_their_cause() {
    let mut book = Notebook::new();
    assert_eq!(book.create_folder(s("x"), Some(7)), Err(StoreError::FolderNotFound));
    assert_eq!(book.rename_folder(7, s("x")), Err(StoreError::FolderNotFound));
    assert_eq!(
        book.create_note(s("t"), s("c"), false, Some(3), names(&["a"])),
        Err(StoreError::FolderNotFound)
    );
    assert_eq!(
        book.update_note(5, s("t"), s("c"), false, None, vec![]),
        Err(StoreError::NoteNotFound)
    );
    let id = book.create_note(s("t"), s("c"), false, None, vec![]).unwrap();
    assert_eq!(
        book.update_note(id, s("t"), s("c"), false, Some(9), vec![]),
        Err(StoreError::FolderNotFound)
    );
    assert!(book.list_folders().is_empty());
    assert!(book.list_tags().is_empty());
    assert_eq!(note_by_id(&book, id).unwrap().title, "t");
}

#[test]
fn identities_are_assigned_in_order() {
    let mut book = Notebook::new();
    assert_eq!(book.create_folder(s("a"), None), Ok(1));
    assert_eq!(book.create_folder(s("b"), Some(1)), Ok(2));
    assert_eq!(book.create_note(s("n"), s(""), false, None, vec![]), Ok(1));
    assert_eq!(book.create_note(s("m"), s(""), false, Some(2), vec![]), Ok(2));
    let rows = book.folder_rows();
    assert_eq!(rows[1].parent_id, Some(1));
}

#[test]
fn rename_changes_only_the_name() {
    let mut book = Notebook::new();
    let a = book.create_folder(s("A"), None).unwrap();
    let b = book.create_folder(s("B"), Some(a)).unwrap();
    book.rename_folder(b, s("Bee")).unwrap();
    let folders = book.list_folders();
    assert_eq!(folders[1].name, "Bee");
    assert_eq!(folders[1].parent_id, Some(a));
    assert_eq!(folders[0].name, "A");
}

#[test]
fn tags_are_shared_and_listed_by_name() {
    let mut book = Notebook::new();
    book.create_note(s("1"), s(""), false, None, names(&["zeta", "alpha"]))
        .unwrap();
    book.create_note(s("2"), s(""), false, None, names(&["alpha", "mid"]))
        .unwrap();
    assert_eq!(book.list_tags(), names(&["alpha", "mid", "zeta"]));
    assert_eq!(book.tag_rows().len(), 3);
    assert_eq!(book.link_rows().len(), 4);
}

#[test]
fn tag_names_order_by_code_point() {
    let mut book = Notebook::new();
    book.create_note(s("1"), s(""), false, None, names(&["abc", "b", "B", "ab", "é"]))
        .unwrap();
    assert_eq!(book.list_tags(), names(&["B", "ab", "abc", "b", "é"]));
    let id = book.list_notes()[0].id;
    assert_eq!(note_by_id(&book, id).unwrap().tags, names(&["abc", "b", "B", "ab", "é"]));
}

#[test]
fn dark_mode_defaults_off_and_toggles() {
    let mut book = Notebook::new();
    assert!(!book.get_dark_mode());
    book.set_dark_mode(true);
    assert!(book.get_dark_mode());
    assert_eq!(book.get_preference("dark_mode"), Some(s("true")));
    book.set_dark_mode(false);
    assert!(!book.get_dark_mode());
    assert_eq!(book.preference_rows().len(), 1);
}

#[test]
fn preferences_store_one_value_per_key() {
    let mut book = Notebook::new();
    assert_eq!(book.get_preference("k"), None);
    book.set_preference(s("k"), s("1"));
    book.set_preference(s("j"), s("2"));
    book.set_preference(s("k"), s("3"));
    assert_eq!(book.get_preference("k"), Some(s("3")));
    assert_eq!(book.get_preference("j"), Some(s("2")));
    assert_eq!(book.preference_rows().len(), 2);
    book.set_preference(s("dark_mode"), s("yes"));
    assert!(!book.get_dark_mode());
}

fn folder(id: i64, name: &str, parent_id: Option<i64>) -> Folder {
    Folder { id, name: s(name), parent_id }
}

fn record(id: i64, folder_id: Option<i64>) -> NoteRecord {
    NoteRecord { id, title: s("t"), content: s("c"), is_markdown: false, folder_id }
}

fn tag(id: i64, name: &str) -> Tag {
    Tag { id, name: s(name) }
}

#[test]
fn stored_rows_load_and_continue_their_identities() {
    let book = Notebook::from_tables(
        vec![folder(3, "a", None), folder(8, "b", Some(3))],
        vec![record(4, Some(8)), record(10, None)],
        vec![tag(2, "x"), tag(5, "y")],
        vec![(4, 5), (10, 2), (4, 2)],
        vec![Preference { key: s("dark_mode"), value: s("true") }],
    );
    let mut book = book.unwrap();
    assert!(book.get_dark_mode());
    assert_eq!(note_by_id(&book, 4).unwrap().tags, names(&["x", "y"]));
    assert_eq!(book.create_folder(s("c"), Some(8)), Ok(9));
    assert_eq!(book.create_note(s("n"), s(""), false, None, names(&["z"])), Ok(11));
    assert_eq!(book.tag_rows()[2].id, 6);
    book.delete_folder(3);
    assert_eq!(book.list_notes().len(), 2);
    assert!(book.list_folders().is_empty());
}

#[test]
fn inconsistent_rows_are_refused() {
    // a parent that does not exist
    assert!(Notebook::from_tables(vec![folder(2, "a", Some(1))], vec![], vec![], vec![], vec![])
        .is_none());
    // a parent younger than its child
    assert!(Notebook::from_tables(
        vec![folder(1, "a", Some(2)), folder(2, "b", None)],
        vec![],
        vec![],
        vec![],
        vec![]
    )
    .is_none());
    // identities out of order
    assert!(Notebook::from_tables(vec![], vec![record(2, None), record(1, None)], vec![], vec![], vec![])
        .is_none());
    // a note in a missing folder
    assert!(Notebook::from_tables(vec![], vec![record(1, Some(4))], vec![], vec![], vec![]).is_none());
    // two tags with one name
    assert!(Notebook::from_tables(vec![], vec![], vec![tag(1, "x"), tag(2, "x")], vec![], vec![])
        .is_none());
    // an association to a missing tag, and one stored twice
    assert!(Notebook::from_tables(vec![], vec![record(1, None)], vec![], vec![(1, 1)], vec![]).is_none());
    assert!(Notebook::from_tables(
        vec![],
        vec![record(1, None)],
        vec![tag(1, "x")],
        vec![(1, 1), (1, 1)],
        vec![]
    )
    .is_none());
    // a key stored twice
    let p = || Preference { key: s("k"), value: s("v") };
    assert!(Notebook::from_tables(vec![], vec![], vec![], vec![], vec![p(), p()]).is_none());
    // an identity with nothing after it
    assert!(Notebook::from_tables(vec![folder(i64::MAX, "a", None)], vec![], vec![], vec![], vec![])
        .is_none());
}

#[test]
fn exhausted_identities_are_reported() {
    let mut book = Notebook::from_tables(
        vec![folder(i64::MAX - 1, "a", None)],
        vec![record(i64::MAX - 1, None)],
        vec![tag(i64::MAX - 2, "x")],
        vec![],
        vec![],
    )
    .unwrap();
    assert_eq!(book.create_folder(s("b"), None), Err(StoreError::IdsExhausted));
    assert_eq!(
        book.create_note(s("n"), s(""), false, None, vec![]),
        Err(StoreError::IdsExhausted)
    );
    assert_eq!(
        book.update_note(i64::MAX - 1, s("n"), s(""), false, None, names(&["p", "q"])),
        Err(StoreError::IdsExhausted)
    );
    book.update_note(i64::MAX - 1, s("n"), s(""), false, None, names(&["p"]))
        .unwrap();
    assert_eq!(book.tag_rows()[1].id, i64::MAX - 1);
}

#[test]
fn fragments_are_found_character_by_character() {
    assert!(contains_fragment("rustlang", "rust"));
    assert!(contains_fragment("rustlang", "lang"));
    assert!(contains_fragment("rustlang", ""));
    assert!(!contains_fragment("rust", "rustlang"));
    assert!(!contains_fragment("rustlang", "Rust"));
    assert!(contains_fragment("née", "ée"));
    assert!(!contains_fragment("", "a"));
}
