use rev::object_id::ObjectId;
use rev::object_store::directory::DirectoryObjectStore;
use rev::object_store::in_memory::InMemoryObjectStore;
use rev::object_store::ObjectStore;
use rev::step::Step;
use std::collections::{BTreeMap, BTreeSet};

#[test]
fn test_in_memory_object_store() {
    let mut store = InMemoryObjectStore::new();
    store.insert(b"hello, world").unwrap();
    let b: &[u8] = b"hello, world";
    assert!(store.has(b.into()).unwrap());
    assert_eq!(store.read(b.into()).unwrap(), Some(Vec::from(b)));
}

/// Files and directories by their paths, in place of a disk.
struct Medium {
    files: BTreeMap<String, Vec<u8>>,
    directories: BTreeSet<String>,
}

fn take(medium: &mut Medium, steps: Vec<Step>) {
    for step in steps {
        match step {
            Step::CreateDirectory(path) => {
                medium.directories.insert(path);
            }
            Step::WriteFile(path, bytes) => {
                medium.files.insert(path, bytes);
            }
        }
    }
}

fn insert(store: &DirectoryObjectStore, medium: &mut Medium, object: &[u8]) -> ObjectId {
    let id = ObjectId::of(object);
    let object_exists = medium.files.contains_key(&store.object_path(id));
    let shard_exists = medium.directories.contains(&store.shard_path(id));
    let (id, steps) = store.insert_steps(object, object_exists, shard_exists);
    take(medium, steps);
    id
}

fn has(store: &DirectoryObjectStore, medium: &Medium, id: ObjectId) -> bool {
    medium.files.contains_key(&store.object_path(id))
}

fn read(store: &DirectoryObjectStore, medium: &Medium, id: ObjectId) -> Option<Vec<u8>> {
    medium.files.get(&store.object_path(id)).cloned()
}

#[test]
fn test_directory_object_store() {
    let mut medium = Medium { files: BTreeMap::new(), directories: BTreeSet::new() };
    let store = DirectoryObjectStore::new(String::from("/tmp/store"));
    insert(&store, &mut medium, b"hello, world");
    let b: &[u8] = b"hello, world";
    assert!(has(&store, &medium, b.into()));
    assert_eq!(read(&store, &medium, b.into()), Some(Vec::from(b)));
}

#[test]
fn directory_store_shards_by_the_first_two_characters() {
    let store = DirectoryObjectStore::new(String::from("root"));
    let id = ObjectId::of(b"");
    assert_eq!(store.root(), "root");
    assert_eq!(store.shard_path(id), "root/af");
    assert_eq!(
        store.object_path(id),
        "root/af/1349b9f5f9a1a6a0404dea36dcc9499bcb25c9adc112b7cc9a93cae41f3262"
    );
    assert_eq!(store.clone().root(), "root");
}

fn texts(steps: &[Step]) -> Vec<String> {
    steps
        .iter()
        .map(|s| match s {
            Step::CreateDirectory(path) => format!("mkdir {}", path),
            Step::WriteFile(path, bytes) => format!("write {} {:?}", path, bytes),
        })
        .collect()
}

#[test]
fn directory_store_insert_steps() {
    let store = DirectoryObjectStore::new(String::from("root"));
    let id = ObjectId::of(b"");
    let path = store.object_path(id);

    let (got, steps) = store.insert_steps(b"", true, true);
    assert_eq!(got, id);
    assert!(steps.is_empty());
    let (_, steps) = store.insert_steps(b"", true, false);
    assert!(steps.is_empty());

    let (got, steps) = store.insert_steps(b"", false, true);
    assert_eq!(got, id);
    assert_eq!(texts(&steps), vec![format!("write {} []", path)]);

    let (got, steps) = store.insert_steps(b"", false, false);
    assert_eq!(got, id);
    assert_eq!(texts(&steps), vec![String::from("mkdir root/af"), format!("write {} []", path)]);
}

#[test]
fn directory_store_insert_is_idempotent() {
    let mut medium = Medium { files: BTreeMap::new(), directories: BTreeSet::new() };
    let store = DirectoryObjectStore::new(String::from("s"));
    let a = insert(&store, &mut medium, b"same");
    let b = insert(&store, &mut medium, b"same");
    assert_eq!(a, b);
    assert_eq!(medium.files.len(), 1);
    assert_eq!(medium.directories.len(), 1);
    assert_eq!(read(&store, &medium, a), Some(b"same".to_vec()));
    assert_eq!(read(&store, &medium, ObjectId::of(b"never")), None);
}

#[test]
fn round_trip() {
    let mut store = InMemoryObjectStore::new();
    for object in [&b""[..], &b"a"[..], &b"hello, world"[..], &[0u8, 255, 7][..]] {
        let id = store.insert(object).unwrap();
        assert_eq!(id, ObjectId::of(object));
        assert_eq!(store.has(id).unwrap(), true);
        assert_eq!(store.read(id).unwrap(), Some(object.to_vec()));
    }
    assert_eq!(store.len(), 4);
}

#[test]
fn never_inserted_is_absent() {
    let mut store = InMemoryObjectStore::new();
    let id = ObjectId::of(b"never inserted");
    assert_eq!(store.has(id).unwrap(), false);
    assert_eq!(store.read(id).unwrap(), None);
    store.insert(b"something else").unwrap();
    assert_eq!(store.has(id).unwrap(), false);
    assert_eq!(store.read(id).unwrap(), None);
}

#[test]
fn insert_twice_is_insert_once() {
    let mut store = InMemoryObjectStore::new();
    let first = store.insert(b"same bytes").unwrap();
    let second = store.insert(b"same bytes").unwrap();
    assert_eq!(first, second);
    assert_eq!(store.len(), 1);
    assert_eq!(store.read(first).unwrap(), Some(b"same bytes".to_vec()));
}

#[test]
fn listing_is_in_the_order_of_the_identifiers() {
    let mut store = InMemoryObjectStore::new();
    let objects: Vec<&[u8]> = vec![b"one", b"two", b"three", b"four", b"five"];
    for o in &objects {
        store.insert(o).unwrap();
    }
    assert_eq!(store.len(), 5);
    for i in 0..store.len() {
        assert_eq!(ObjectId::of(store.bytes_at(i)), store.id_at(i));
        if i > 0 {
            assert!(store.id_at(i - 1) < store.id_at(i));
        }
    }
    let mut listed: Vec<Vec<u8>> = (0..store.len()).map(|i| store.bytes_at(i).clone()).collect();
    listed.sort();
    let mut expected: Vec<Vec<u8>> = objects.iter().map(|o| o.to_vec()).collect();
    expected.sort();
    assert_eq!(listed, expected);
}
