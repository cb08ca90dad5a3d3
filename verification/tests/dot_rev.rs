use rev::branches::Branches;
use rev::directory::{Directory, DirectoryEntry, Ignores};
use rev::dot_rev::{found_or_missing, DotRev, Error};
use rev::object_id::{IdSet, ObjectId};
use rev::object_store::in_memory::InMemoryObjectStore;
use rev::object_store::ObjectStore;
use rev::snapshot::{create_snapshot, SnapShot};

fn id(n: u8) -> ObjectId {
    ObjectId::from_bytes([n; 32])
}

fn branch_names(b: &Branches) -> Vec<String> {
    (0..b.len()).map(|i| b.name_at(i).clone()).collect()
}

#[test]
fn a_new_repository_has_the_one_branch_dev() {
    let rev = DotRev::init(String::from("/work/.rev"), id(1));
    assert_eq!(rev.root(), "/work/.rev");
    assert_eq!(rev.branch(), "dev");
    assert_eq!(branch_names(rev.branches()), vec!["dev"]);
    assert_eq!(rev.branches().tip_at(0), id(1));
    assert_eq!(rev.current_snapshot_id().ok(), Some(id(1)));
    assert!(rev.branch_exists("dev"));
    assert!(!rev.branch_exists("main"));
    assert!(rev.ignores().contains(".rev"));
    assert_eq!(rev.ignores().set.len(), 1);
    assert_eq!(rev.store().root(), "/work/.rev/store");
    assert_eq!(DotRev::store_in("elsewhere").root(), "elsewhere/store");
}

#[test]
fn the_first_snapshot_has_an_empty_tree_and_no_parent() {
    let mut store = InMemoryObjectStore::new();
    let tree = Directory::default();
    assert!(tree.is_empty());
    let encoded = b"{}";
    let tree_id = store.insert(encoded).unwrap();
    let snapshot = SnapShot::initial(tree_id);
    assert_eq!(snapshot.message, "init");
    assert_eq!(snapshot.directory, ObjectId::of(encoded));
    assert_eq!(snapshot.previous.len(), 0);
    assert!(snapshot.is_root());
    let rev = DotRev::init(String::from(".rev"), id(7));
    assert_eq!(rev.branches().len(), 1);
}

#[test]
fn a_snapshot_after_the_first_has_it_as_its_one_parent() {
    let first = id(1);
    let mut store = InMemoryObjectStore::new();
    let mut tree = Directory::default();
    tree.insert(String::from("a.txt"), DirectoryEntry::File(store.insert(b"hi").unwrap()));
    assert_eq!(tree.len(), 1);
    assert_eq!(tree.name_at(0), "a.txt");
    assert_eq!(tree.entry_at(0), &DirectoryEntry::File(ObjectId::of(b"hi")));
    let encoded = b"{\"a.txt\": ...}";
    let tree_id = store.insert(encoded).unwrap();
    let snapshot = SnapShot::after(first, tree_id, String::from("add a"));
    assert_eq!(snapshot.message, "add a");
    assert_eq!(snapshot.directory, tree_id);
    assert_eq!(snapshot.previous.len(), 1);
    assert_eq!(snapshot.previous.get(0), first);
    assert!(!snapshot.is_root());
}

#[test]
fn snapshots_of_the_same_tree_message_and_parents_are_the_same() {
    let mut parents = IdSet::new();
    parents.insert(id(2));
    parents.insert(id(1));
    let mut store = InMemoryObjectStore::new();
    let a = create_snapshot(&mut store, b"tree bytes", String::from("m"), parents.clone())
        .unwrap();
    let b = create_snapshot(&mut store, b"tree bytes", String::from("m"), parents.clone())
        .unwrap();
    assert_eq!(a, b);
    assert_eq!(a.clone(), a);
    assert_eq!(a.directory, ObjectId::of(b"tree bytes"));
    assert_eq!(a.message, "m");
    assert_eq!(a.previous, parents);
    assert_eq!(store.len(), 1);
    assert_eq!(store.read(a.directory).unwrap(), Some(b"tree bytes".to_vec()));
    let c = create_snapshot(&mut store, b"tree bytes", String::from("other"), parents.clone())
        .unwrap();
    assert_ne!(a, c);
    let d = create_snapshot(&mut store, b"other tree", String::from("m"), parents.clone())
        .unwrap();
    assert_ne!(a, d);
    let e = create_snapshot(&mut store, b"tree bytes", String::from("m"), IdSet::new()).unwrap();
    assert_ne!(a, e);
}

#[test]
fn a_forked_branch_keeps_its_tip_when_the_other_moves() {
    let mut branches = Branches::new();
    branches.set_tip(String::from("main"), id(1));
    let mut rev = DotRev::existing(
        String::from(".rev"),
        String::from("main"),
        branches,
        Ignores::default(),
    );
    assert!(rev.create_branch("x").is_ok());
    assert_eq!(rev.branch_snapshot_id("x").ok(), Some(id(1)));
    rev.set_branch_snapshot_id("main", id(2));
    assert_eq!(rev.branch_snapshot_id("main").ok(), Some(id(2)));
    assert_eq!(rev.branch_snapshot_id("x").ok(), Some(id(1)));
    assert_eq!(rev.branch(), "main");
    assert_eq!(branch_names(rev.branches()), vec!["main", "x"]);
}

#[test]
fn creating_a_branch_that_exists_changes_nothing() {
    let mut rev = DotRev::init(String::from(".rev"), id(1));
    rev.set_branch_snapshot_id("other", id(5));
    assert!(rev.create_branch("other").is_ok());
    assert_eq!(rev.branch_snapshot_id("other").ok(), Some(id(5)));
    assert!(rev.create_branch("dev").is_ok());
    assert_eq!(rev.branch_snapshot_id("dev").ok(), Some(id(1)));
    assert_eq!(rev.branches().len(), 2);
}

#[test]
fn an_unknown_branch_is_an_error() {
    let rev = DotRev::init(String::from(".rev"), id(1));
    match rev.branch_snapshot_id("nope") {
        Err(Error::UnknownBranch(name)) => assert_eq!(name, "nope"),
        _ => panic!("the branch should not exist"),
    }
}

#[test]
fn a_branch_cannot_start_from_a_current_branch_without_a_tip() {
    let mut rev = DotRev::existing(
        String::from(".rev"),
        String::from("ghost"),
        Branches::new(),
        Ignores::default(),
    );
    match rev.current_snapshot_id() {
        Err(Error::UnknownBranch(name)) => assert_eq!(name, "ghost"),
        _ => panic!("the current branch should have no tip"),
    }
    match rev.create_branch("x") {
        Err(Error::UnknownBranch(name)) => assert_eq!(name, "ghost"),
        _ => panic!("the branch should not have been made"),
    }
    assert!(!rev.branch_exists("x"));
    match rev.checkout("x") {
        Err(Error::UnknownBranch(name)) => assert_eq!(name, "ghost"),
        _ => panic!("the branch should not have been made"),
    }
    assert_eq!(rev.branch(), "ghost");
    assert_eq!(rev.branches().len(), 0);
}

#[test]
fn checkout_makes_the_branch_if_need_be_and_switches_to_it() {
    let mut rev = DotRev::init(String::from(".rev"), id(1));
    assert!(rev.checkout("feature").is_ok());
    assert_eq!(rev.branch(), "feature");
    assert_eq!(rev.current_snapshot_id().ok(), Some(id(1)));
    rev.set_branch_snapshot_id("feature", id(2));
    assert!(rev.checkout("dev").is_ok());
    assert_eq!(rev.branch(), "dev");
    assert_eq!(rev.current_snapshot_id().ok(), Some(id(1)));
    assert!(rev.checkout("feature").is_ok());
    assert_eq!(rev.current_snapshot_id().ok(), Some(id(2)));
}

#[test]
fn set_branch_does_not_look_at_the_branches() {
    let mut rev = DotRev::init(String::from(".rev"), id(1));
    rev.set_branch("elsewhere");
    assert_eq!(rev.branch(), "elsewhere");
    assert!(!rev.branch_exists("elsewhere"));
    assert_eq!(rev.branches().len(), 1);
}

#[test]
fn branches_point_where_they_were_set() {
    let mut branches = Branches::new();
    assert_eq!(branches.len(), 0);
    assert_eq!(branches.tip("a"), None);
    branches.set_tip(String::from("b"), id(2));
    branches.set_tip(String::from("a"), id(1));
    branches.set_tip(String::from("b"), id(3));
    assert_eq!(branch_names(&branches), vec!["a", "b"]);
    assert_eq!(branches.tip("a"), Some(id(1)));
    assert_eq!(branches.tip("b"), Some(id(3)));
    assert_eq!(branches.tip_at(1), id(3));
    assert!(branches.contains("a"));
    assert!(!branches.contains("c"));
    assert_eq!(branch_names(&branches.clone()), vec!["a", "b"]);
}

#[test]
fn an_object_that_was_not_found_is_missing() {
    match found_or_missing(id(9), None) {
        Err(Error::MissingObject(missing)) => assert_eq!(missing, id(9)),
        _ => panic!("the object should be missing"),
    }
    assert_eq!(found_or_missing(id(9), Some(vec![1, 2, 3])).ok(), Some(vec![1, 2, 3]));
}
