use rev::directory::builder::{Found, FoundKind};
use rev::directory::{Diff, DiffEntry, Directory, DirectoryEntry, Error, Ignores};
use rev::names::NameSet;
use rev::object_id::ObjectId;
use rev::object_store::in_memory::InMemoryObjectStore;
use rev::object_store::ObjectStore;
use rev::step::Step;

fn file(bytes: &[u8]) -> DirectoryEntry {
    DirectoryEntry::File(ObjectId::of(bytes))
}

fn dir(entries: Vec<(&str, DirectoryEntry)>) -> Directory {
    let mut d = Directory::default();
    for (name, entry) in entries {
        d.insert(String::from(name), entry);
    }
    d
}

fn sub(entries: Vec<(&str, DirectoryEntry)>) -> DirectoryEntry {
    DirectoryEntry::Directory(Box::new(dir(entries)))
}

fn names(set: &NameSet) -> Vec<String> {
    (0..set.len()).map(|i| set.get(i).clone()).collect()
}

fn keys(d: &Directory) -> Vec<String> {
    (0..d.len()).map(|i| d.name_at(i).clone()).collect()
}

fn modified_names(d: &Diff) -> Vec<String> {
    (0..d.modified_len()).map(|i| d.modified_name_at(i).clone()).collect()
}

#[test]
fn test_diff_display() {
    let diff_empty: Diff = Diff::new();
    assert_eq!(diff_empty.to_string(), "");

    let mut diff_1: Diff = Diff::new();
    diff_1.add(String::from("bar"), DirectoryEntry::File(ObjectId::from(&vec![])));
    assert_eq!(diff_1.to_string(), "A bar\n");

    let mut diff_2: Diff = Diff::new();
    diff_2.delete(String::from("foo"));
    assert_eq!(diff_2.to_string(), "D foo\n");

    let mut diff_3: Diff = Diff::new();
    diff_3.delete(String::from("foo"));
    diff_3.add(String::from("bar"), DirectoryEntry::File(ObjectId::from(&vec![])));
    assert_eq!(diff_3.to_string(), "A bar\nD foo\n");

    let mut diff_4: Diff = Diff::new();
    diff_4.delete(String::from("foo"));
    diff_4.add(String::from("bar"), DirectoryEntry::File(ObjectId::from(&vec![])));
    diff_4.modify(String::from("baz"), DiffEntry::File(ObjectId::from(&vec![])));
    assert_eq!(diff_4.to_string(), "A bar\nM baz\nD foo\n");
}

#[test]
fn test_directory() {
    let found = vec![
        Found { name: String::from(".git"), kind: FoundKind::Directory(vec![]) },
        Found { name: String::from(".rev"), kind: FoundKind::Directory(vec![]) },
        Found { name: String::from("README.md"), kind: FoundKind::File(b"# rev\n".to_vec()) },
        Found {
            name: String::from("src"),
            kind: FoundKind::Directory(vec![Found {
                name: String::from("lib.rs"),
                kind: FoundKind::File(b"pub mod x;\n".to_vec()),
            }]),
        },
        Found { name: String::from("target"), kind: FoundKind::Directory(vec![]) },
    ];
    let mut set = NameSet::new();
    set.insert(String::from(".git"));
    set.insert(String::from(".rev"));
    set.insert(String::from("target"));
    let mut store = InMemoryObjectStore::new();
    let codebase = Directory::new(&found, &Ignores { set }, &mut store).ok().unwrap();
    let readme_path = String::from("README.md");
    assert!(codebase.get(&readme_path).is_some());
}

#[test]
fn directory_holds_its_entries_in_the_order_of_their_names() {
    let d = dir(vec![("b", file(b"2")), ("a", file(b"1")), ("c", file(b"3")), ("B", file(b"4"))]);
    assert_eq!(keys(&d), vec!["B", "a", "b", "c"]);
    assert_eq!(d.len(), 4);
    assert!(!d.is_empty());
    assert_eq!(d.get("a"), Some(&file(b"1")));
    assert_eq!(d.get("d"), None);
    assert!(d.contains_key("c"));
    assert!(!d.contains_key(""));
    assert_eq!(d.entry_at(1), &file(b"1"));
}

#[test]
fn directory_insert_replaces_the_entry_of_the_same_name() {
    let mut d = dir(vec![("a", file(b"1")), ("b", file(b"2"))]);
    d.insert(String::from("a"), file(b"3"));
    assert_eq!(d.len(), 2);
    assert_eq!(d.get("a"), Some(&file(b"3")));
    assert_eq!(d.get("b"), Some(&file(b"2")));
}

#[test]
fn empty_directory_is_the_default() {
    let d = Directory::default();
    assert!(d.is_empty());
    assert_eq!(d.len(), 0);
    assert_eq!(d, Directory::empty());
    assert_eq!(d.get("a"), None);
}

#[test]
fn equality_is_structural_on_every_level() {
    let a = dir(vec![("x", sub(vec![("y", file(b"1"))])), ("z", file(b"2"))]);
    let b = dir(vec![("z", file(b"2")), ("x", sub(vec![("y", file(b"1"))]))]);
    let c = dir(vec![("x", sub(vec![("y", file(b"other"))])), ("z", file(b"2"))]);
    let d = dir(vec![("x", sub(vec![("w", file(b"1"))])), ("z", file(b"2"))]);
    assert_eq!(a, b);
    assert_ne!(a, c);
    assert_ne!(a, d);
    assert_eq!(a.clone(), a);
    assert_ne!(file(b"1"), sub(vec![]));
    assert_ne!(dir(vec![]), dir(vec![("a", file(b"1"))]));
}

#[test]
fn diff_of_a_tree_with_itself_is_empty() {
    let t = dir(vec![
        ("a.txt", file(b"hi")),
        ("src", sub(vec![("lib.rs", file(b"x")), ("deep", sub(vec![("f", file(b"y"))]))])),
        ("empty", sub(vec![])),
    ]);
    let d = t.diff(&t);
    assert!(d.is_empty());
    assert_eq!(d, Diff::new());
    assert_eq!(d.deleted().len(), 0);
    assert_eq!(d.added().len(), 0);
    assert_eq!(d.modified_len(), 0);
    assert_eq!(d.to_string(), "");
    let none = Directory::default();
    assert!(none.diff(&none).is_empty());
}

#[test]
fn deleted_one_way_is_added_the_other_way() {
    let a = dir(vec![("only_a", file(b"1")), ("both", file(b"2")), ("dir_a", sub(vec![]))]);
    let b = dir(vec![("only_b", file(b"3")), ("both", file(b"4"))]);
    let ab = a.diff(&b);
    let ba = b.diff(&a);
    assert_eq!(names(ab.deleted()), vec!["dir_a", "only_a"]);
    assert_eq!(names(ab.deleted()), keys(ba.added()));
    assert_eq!(names(ba.deleted()), vec!["only_b"]);
    assert_eq!(names(ba.deleted()), keys(ab.added()));
    assert_eq!(ab.added().get("only_b"), Some(&file(b"3")));
    assert_eq!(ba.added().get("only_a"), Some(&file(b"1")));
    assert_eq!(modified_names(&ab), vec!["both"]);
    assert_eq!(ab.modified("both"), Some(&DiffEntry::File(ObjectId::of(b"4"))));
    assert_eq!(ba.modified("both"), Some(&DiffEntry::File(ObjectId::of(b"2"))));
}

#[test]
fn one_added_file_beside_an_unchanged_subtree() {
    let nested = || sub(vec![("inner.txt", file(b"same")), ("more", sub(vec![("x", file(b"y"))]))]);
    let a = dir(vec![("lib", nested())]);
    let b = dir(vec![("lib", nested()), ("new.txt", file(b"new"))]);
    let d = a.diff(&b);
    assert_eq!(d.added().len(), 1);
    assert_eq!(d.added().get("new.txt"), Some(&file(b"new")));
    assert_eq!(d.modified_len(), 0);
    assert_eq!(d.deleted().len(), 0);
    assert_eq!(d.to_string(), "A new.txt\n");
}

#[test]
fn a_file_replaced_by_a_directory_is_modified_as_an_added_subtree() {
    let a = dir(vec![("thing", file(b"was a file"))]);
    let b = dir(vec![("thing", sub(vec![("x", file(b"1")), ("y", file(b"2"))]))]);
    let d = a.diff(&b);
    assert_eq!(d.added().len(), 0);
    assert_eq!(d.deleted().len(), 0);
    assert_eq!(modified_names(&d), vec!["thing"]);
    let mut whole = Diff::new();
    whole.add(String::from("x"), file(b"1"));
    whole.add(String::from("y"), file(b"2"));
    assert_eq!(d.modified("thing"), Some(&DiffEntry::Directory(Box::new(whole))));
    assert_eq!(d.to_string(), "A thing/x\nA thing/y\n");
}

#[test]
fn a_directory_replaced_by_a_file_is_modified_to_that_file() {
    let a = dir(vec![("thing", sub(vec![("x", file(b"1"))]))]);
    let b = dir(vec![("thing", file(b"now a file"))]);
    let d = a.diff(&b);
    assert_eq!(d.modified("thing"), Some(&DiffEntry::File(ObjectId::of(b"now a file"))));
    assert_eq!(d.modified_entry_at(0), &DiffEntry::File(ObjectId::of(b"now a file")));
    assert_eq!(d.to_string(), "M thing\n");
}

#[test]
fn a_renamed_file_is_deleted_and_added() {
    let a = dir(vec![("old.txt", file(b"same"))]);
    let b = dir(vec![("new.txt", file(b"same"))]);
    let d = a.diff(&b);
    assert_eq!(names(d.deleted()), vec!["old.txt"]);
    assert_eq!(keys(d.added()), vec!["new.txt"]);
    assert_eq!(d.modified_len(), 0);
    assert_eq!(d.to_string(), "A new.txt\nD old.txt\n");
}

#[test]
fn nested_directories_are_compared_level_by_level() {
    let a = dir(vec![(
        "src",
        sub(vec![("keep", file(b"k")), ("change", file(b"1")), ("gone", file(b"g"))]),
    )]);
    let b = dir(vec![(
        "src",
        sub(vec![("keep", file(b"k")), ("change", file(b"2")), ("fresh", sub(vec![]))]),
    )]);
    let d = a.diff(&b);
    let mut inner = Diff::new();
    inner.add(String::from("fresh"), sub(vec![]));
    inner.modify(String::from("change"), DiffEntry::File(ObjectId::of(b"2")));
    inner.delete(String::from("gone"));
    let mut expected = Diff::new();
    expected.modify(String::from("src"), DiffEntry::Directory(Box::new(inner)));
    assert_eq!(d, expected);
    assert_eq!(d.clone(), expected);
    assert_eq!(d.to_string(), "A src/fresh\nM src/change\nD src/gone\n");
    assert_eq!(d.render("\\"), "A src\\fresh\nM src\\change\nD src\\gone\n");
}

#[test]
fn main_against_feature() {
    let main = dir(vec![("a.txt", file(b"hi"))]);
    let feature = dir(vec![("a.txt", file(b"hi")), ("b.txt", file(b"there"))]);
    let d = main.diff(&feature);
    assert_eq!(keys(d.added()), vec!["b.txt"]);
    assert_eq!(d.deleted().len(), 0);
    assert_eq!(d.modified_len(), 0);
    assert_eq!(d.to_string(), "A b.txt\n");
}

#[test]
fn render_goes_through_added_then_modified_then_deleted() {
    let mut inner = Diff::new();
    inner.delete(String::from("a"));
    inner.add(String::from("z"), file(b"1"));
    inner.modify(String::from("m"), DiffEntry::File(ObjectId::of(b"2")));
    let mut d = Diff::new();
    d.delete(String::from("0"));
    d.modify(String::from("dir"), DiffEntry::Directory(Box::new(inner)));
    d.add(
        String::from("tree"),
        sub(vec![
            ("leaf", file(b"3")),
            ("none", sub(vec![])),
            ("some", sub(vec![("x", file(b"4"))])),
        ]),
    );
    d.add(String::from("hollow"), sub(vec![]));
    assert_eq!(
        d.to_string(),
        "A hollow\nA tree/leaf\nA tree/none\nA tree/some/x\nA dir/z\nM dir/m\nD dir/a\nD 0\n"
    );
}

#[test]
fn a_modified_directory_with_nothing_beneath_it_is_one_line() {
    let mut d = Diff::new();
    d.modify(String::from("d"), DiffEntry::Directory(Box::new(Diff::new())));
    assert!(!d.is_empty());
    assert_eq!(d.to_string(), "M d\n");

    let mut inner = Diff::new();
    inner.modify(String::from("deep"), DiffEntry::Directory(Box::new(Diff::new())));
    let mut outer = Diff::new();
    outer.modify(String::from("dir"), DiffEntry::Directory(Box::new(inner)));
    assert_eq!(outer.to_string(), "M dir/deep\n");
}

#[test]
fn a_file_replaced_by_an_empty_directory_is_one_line() {
    let a = dir(vec![("thing", file(b"was a file"))]);
    let b = dir(vec![("thing", sub(vec![]))]);
    let d = a.diff(&b);
    assert_ne!(a, b);
    assert!(!d.is_empty());
    assert_eq!(d.modified("thing"), Some(&DiffEntry::Directory(Box::new(Diff::new()))));
    assert_eq!(d.to_string(), "M thing\n");
}

#[test]
fn trees_that_differ_render_at_least_one_line() {
    let trees = vec![
        dir(vec![]),
        dir(vec![("a", file(b"1"))]),
        dir(vec![("a", file(b"2"))]),
        dir(vec![("a", sub(vec![]))]),
        dir(vec![("a", sub(vec![("b", file(b"1"))]))]),
        dir(vec![("a", sub(vec![("b", sub(vec![]))]))]),
        dir(vec![("a", file(b"1")), ("b", sub(vec![]))]),
    ];
    for x in &trees {
        for y in &trees {
            let text = x.diff(y).to_string();
            if x == y {
                assert_eq!(text, "");
            } else {
                assert!(text.ends_with('\n'));
                assert!(text.lines().count() >= 1);
            }
        }
    }
}

#[test]
fn ignores_by_default_the_control_directory() {
    let ignores = Ignores::default();
    assert_eq!(names(&ignores.set), vec![".rev"]);
    assert!(ignores.contains(".rev"));
    assert!(!ignores.contains(".git"));
    assert!(!ignores.contains("rev"));
    assert_eq!(ignores.clone(), ignores);
}

#[test]
fn name_set_holds_each_name_once_in_order() {
    let mut set = NameSet::new();
    set.insert(String::from("b"));
    set.insert(String::from("a"));
    set.insert(String::from("b"));
    set.insert(String::from("ab"));
    assert_eq!(names(&set), vec!["a", "ab", "b"]);
    assert!(set.contains("ab"));
    assert!(!set.contains("c"));
    assert!(!set.contains(""));
}

fn working_tree() -> Vec<Found> {
    vec![
        Found { name: String::from("b.txt"), kind: FoundKind::File(b"bee".to_vec()) },
        Found { name: String::from("a.txt"), kind: FoundKind::File(b"hi".to_vec()) },
        Found {
            name: String::from(".rev"),
            kind: FoundKind::Directory(vec![Found {
                name: String::from("branch"),
                kind: FoundKind::File(b"dev".to_vec()),
            }]),
        },
        Found { name: String::from("link"), kind: FoundKind::Other },
        Found {
            name: String::from("src"),
            kind: FoundKind::Directory(vec![
                Found { name: String::from(".rev"), kind: FoundKind::File(b"hidden".to_vec()) },
                Found { name: String::from("lib.rs"), kind: FoundKind::File(b"code".to_vec()) },
                Found { name: String::from("empty"), kind: FoundKind::Directory(vec![]) },
            ]),
        },
    ]
}

#[test]
fn builder_hashes_files_and_skips_ignored_names_on_every_level() {
    let mut store = InMemoryObjectStore::new();
    let tree = Directory::new(&working_tree(), &Ignores::default(), &mut store).ok().unwrap();
    let expected = dir(vec![
        ("a.txt", file(b"hi")),
        ("b.txt", file(b"bee")),
        ("src", sub(vec![("lib.rs", file(b"code")), ("empty", sub(vec![]))])),
    ]);
    assert_eq!(tree, expected);
    assert_eq!(store.len(), 3);
    assert_eq!(store.read(ObjectId::of(b"hi")).unwrap(), Some(b"hi".to_vec()));
    assert_eq!(store.read(ObjectId::of(b"bee")).unwrap(), Some(b"bee".to_vec()));
    assert_eq!(store.read(ObjectId::of(b"code")).unwrap(), Some(b"code".to_vec()));
    assert_eq!(store.has(ObjectId::of(b"hidden")).unwrap(), false);
    assert_eq!(store.has(ObjectId::of(b"dev")).unwrap(), false);
}

#[test]
fn builder_of_nothing_is_the_empty_tree() {
    let mut store = InMemoryObjectStore::new();
    let tree = Directory::new(&vec![], &Ignores::default(), &mut store).ok().unwrap();
    assert_eq!(tree, Directory::default());
    assert_eq!(store.len(), 0);
}

#[test]
fn builder_keeps_the_later_of_two_things_of_one_name() {
    let found = vec![
        Found { name: String::from("x"), kind: FoundKind::File(b"first".to_vec()) },
        Found { name: String::from("x"), kind: FoundKind::File(b"second".to_vec()) },
    ];
    let mut store = InMemoryObjectStore::new();
    let tree = Directory::new(&found, &Ignores::default(), &mut store).ok().unwrap();
    assert_eq!(tree, dir(vec![("x", file(b"second"))]));
    assert_eq!(store.len(), 2);
}

fn step_text(steps: &[Step]) -> Vec<String> {
    steps
        .iter()
        .map(|s| match s {
            Step::CreateDirectory(path) => format!("mkdir {}", path),
            Step::WriteFile(path, bytes) => {
                format!("write {} {}", path, String::from_utf8(bytes.clone()).unwrap())
            }
        })
        .collect()
}

#[test]
fn restore_writes_files_and_creates_directories_first() {
    let mut store = InMemoryObjectStore::new();
    let tree = Directory::new(&working_tree(), &Ignores::default(), &mut store).ok().unwrap();
    let steps = tree.write(&store, "/tmp/out").ok().unwrap();
    assert_eq!(
        step_text(&steps),
        vec![
            "write /tmp/out/a.txt hi",
            "write /tmp/out/b.txt bee",
            "mkdir /tmp/out/src",
            "mkdir /tmp/out/src/empty",
            "write /tmp/out/src/lib.rs code",
        ]
    );
    let ids = tree.objects();
    assert_eq!(ids, vec![ObjectId::of(b"hi"), ObjectId::of(b"bee"), ObjectId::of(b"code")]);
}

#[test]
fn restore_of_the_empty_tree_takes_no_step() {
    let store = InMemoryObjectStore::new();
    let steps = Directory::default().write(&store, "out").ok().unwrap();
    assert!(steps.is_empty());
    assert!(Directory::default().objects().is_empty());
}

#[test]
fn restore_fails_on_the_first_missing_object() {
    let mut store = InMemoryObjectStore::new();
    store.insert(b"present").unwrap();
    let tree = dir(vec![
        ("a", file(b"present")),
        ("b", sub(vec![("c", file(b"lost")), ("d", file(b"lost too"))])),
        ("e", file(b"also lost")),
    ]);
    match tree.write(&store, "out") {
        Err(Error::ObjectMissing(id)) => assert_eq!(id, ObjectId::of(b"lost")),
        _ => panic!("the missing object was not reported"),
    }
}
