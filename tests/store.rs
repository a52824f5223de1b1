use std::cell::Cell;
use std::sync::Arc;

use nix_template::document::Node;
use nix_template::github::{commit_of_github, github_url, hash_from_github};
use nix_template::key::cache_key;
use nix_template::memo::{memoized, memoized_call};
use nix_template::remote::commit_from_ls_remote;
use nix_template::store::{
    delete_global_store, get_global_store, set_global_store, FileStore, LoadedFile, Store,
    StoreError, StoreHandle, FORMAT_VERSION,
};

fn key(parts: &[&str]) -> Vec<String> {
    parts.iter().map(|p| p.to_string()).collect()
}

fn fresh() -> FileStore {
    FileStore::with(LoadedFile::Empty, true).unwrap()
}

fn reload(entries: Vec<(String, Node)>) -> FileStore {
    FileStore::with(LoadedFile::Parsed(Node::Table(entries)), true).unwrap()
}

fn f(a: usize, b: &str) -> Result<String, String> {
    Ok(format!("{}{}", a, b))
}

fn g() -> Result<String, String> {
    Ok("g".to_string())
}

fn cached_f(handle: &mut StoreHandle<FileStore>, a: usize, b: &str) -> Result<String, String> {
    let k = cache_key("f", &vec![a.to_string(), b.to_string()]);
    memoized_call(handle, &k, || f(a, b))
}

fn cached_g(handle: &mut StoreHandle<FileStore>) -> Result<String, String> {
    let k = cache_key("g", &Vec::new());
    memoized_call(handle, &k, g)
}

fn hole_f(handle: &mut StoreHandle<FileStore>, a: usize, b: &str) -> Result<String, String> {
    let k = cache_key("f", &vec![a.to_string(), b.to_string()]);
    memoized_call(handle, &k, || -> Result<String, String> { unreachable!() })
}

fn hole_g(handle: &mut StoreHandle<FileStore>) -> Result<String, String> {
    let k = cache_key("g", &Vec::new());
    memoized_call(handle, &k, || -> Result<String, String> { unreachable!() })
}

#[test]
fn must_resolve_from_cache() {
    let mut store = fresh();
    store.store(&key(&["f", "1", "foo"]), "1foo".to_string());
    store.store(&key(&["f", "2", "bar"]), "2bar".to_string());
    let mut handle = StoreHandle::new();
    set_global_store(&mut handle, store);
    let rendered = format!(
        "{} {}",
        hole_f(&mut handle, 1, "foo").unwrap(),
        hole_f(&mut handle, 2, "bar").unwrap()
    );
    delete_global_store(&mut handle);
    assert_eq!(rendered, "1foo 2bar");
}

#[test]
fn must_cache_to_file() {
    let mut handle = StoreHandle::new();
    set_global_store(&mut handle, fresh());
    let rendered = format!(
        "{} {} {}",
        cached_f(&mut handle, 1, "foo").unwrap(),
        cached_f(&mut handle, 2, "/bar").unwrap(),
        cached_g(&mut handle).unwrap()
    );
    assert_eq!(rendered, "1foo 2/bar g");
    let store = delete_global_store(&mut handle).unwrap();
    let entries = FileStore::persist(Arc::new(store)).unwrap();

    set_global_store(&mut handle, reload(entries));
    let rendered = format!(
        "{} {} {}",
        hole_f(&mut handle, 1, "foo").unwrap(),
        hole_f(&mut handle, 2, "/bar").unwrap(),
        hole_g(&mut handle).unwrap()
    );
    assert_eq!(rendered, "1foo 2/bar g");
}

#[test]
fn round_trip_through_persist() {
    let mut store = fresh();
    let k = key(&["name", "arg"]);
    store.store(&k, "value".to_string());
    let entries = FileStore::persist(Arc::new(store)).unwrap();
    let mut again = reload(entries);
    assert_eq!(again.lookup(&k), Some("value".to_string()));
}

#[test]
fn version_mismatch_resets() {
    let entries = vec![
        ("version".to_string(), Node::Unsigned(FORMAT_VERSION + 1)),
        (
            "f".to_string(),
            Node::Table(vec![("1".to_string(), Node::Text("1foo".to_string()))]),
        ),
    ];
    let store = reload(entries);
    assert_eq!(store.peek(&key(&["f", "1"])), None);
    assert_eq!(
        store.entries,
        vec![("version".to_string(), Node::Unsigned(FORMAT_VERSION))]
    );
}

#[test]
fn missing_version_resets() {
    let entries = vec![("f".to_string(), Node::Text("x".to_string()))];
    let store = reload(entries);
    assert_eq!(store.peek(&key(&["f"])), None);
}

#[test]
fn non_table_document_resets() {
    let store = FileStore::with(LoadedFile::Parsed(Node::Unsigned(5)), true).unwrap();
    assert_eq!(
        store.entries,
        vec![("version".to_string(), Node::Unsigned(FORMAT_VERSION))]
    );
}

#[test]
fn current_version_is_kept() {
    let entries = vec![
        ("version".to_string(), Node::Unsigned(FORMAT_VERSION)),
        (
            "f".to_string(),
            Node::Table(vec![("1".to_string(), Node::Text("1foo".to_string()))]),
        ),
    ];
    let store = reload(entries);
    assert_eq!(store.peek(&key(&["f", "1"])), Some("1foo".to_string()));
}

#[test]
fn empty_file_is_fresh() {
    let contents = LoadedFile::from_parse("", Err("EOF while parsing a value".to_string()));
    assert_eq!(contents, LoadedFile::Empty);
    let store = FileStore::with(contents, true).unwrap();
    assert_eq!(
        store.entries,
        vec![("version".to_string(), Node::Unsigned(FORMAT_VERSION))]
    );
}

#[test]
fn corrupt_file_is_an_error() {
    let contents = LoadedFile::from_parse("{not json", Err("key must be a string".to_string()));
    assert_eq!(contents, LoadedFile::Unparsable("key must be a string".to_string()));
    let err = FileStore::with(contents, true).unwrap_err();
    assert_eq!(err, StoreError::Corrupt("key must be a string".to_string()));
}

#[test]
fn parsed_text_is_kept() {
    let contents = LoadedFile::from_parse("5", Ok(Node::Unsigned(5)));
    assert_eq!(contents, LoadedFile::Parsed(Node::Unsigned(5)));
}

#[test]
fn without_load_contents_are_ignored() {
    let store = FileStore::with(LoadedFile::Unparsable("bad".to_string()), false).unwrap();
    assert_eq!(
        store.entries,
        vec![("version".to_string(), Node::Unsigned(FORMAT_VERSION))]
    );
}

#[test]
fn miss_then_hit() {
    let mut store = fresh();
    let k = key(&["f", "1", "foo"]);
    assert_eq!(store.lookup(&k), None);
    store.store(&k, "1foo".to_string());
    assert_eq!(store.lookup(&k), Some("1foo".to_string()));
    assert_eq!(store.try_get_cached(&k), Some("1foo".to_string()));
}

#[test]
fn lookup_creates_intermediate_tables() {
    let mut store = fresh();
    assert_eq!(store.lookup(&key(&["a", "b", "c"])), None);
    assert_eq!(
        store.entries,
        vec![
            ("version".to_string(), Node::Unsigned(FORMAT_VERSION)),
            (
                "a".to_string(),
                Node::Table(vec![("b".to_string(), Node::Table(Vec::new()))])
            ),
        ]
    );
}

#[test]
fn peek_leaves_document_alone() {
    let store = fresh();
    assert_eq!(store.peek(&key(&["a", "b"])), None);
    assert_eq!(store.entries.len(), 1);
}

#[test]
fn lookup_blocked_by_leaf_changes_nothing() {
    let mut store = fresh();
    store.store(&key(&["a"]), "leaf".to_string());
    assert_eq!(store.lookup(&key(&["a", "b", "c"])), None);
    assert_eq!(store.peek(&key(&["a"])), Some("leaf".to_string()));
}

#[test]
fn store_replaces_leaf_on_the_way() {
    let mut store = fresh();
    store.store(&key(&["a"]), "leaf".to_string());
    store.put_cache(&key(&["a", "b"]), "deeper".to_string());
    assert_eq!(store.peek(&key(&["a"])), None);
    assert_eq!(store.peek(&key(&["a", "b"])), Some("deeper".to_string()));
}

#[test]
fn store_overwrites() {
    let mut store = fresh();
    let k = key(&["x", "y"]);
    store.store(&k, "one".to_string());
    store.store(&k, "two".to_string());
    assert_eq!(store.peek(&k), Some("two".to_string()));
}

#[test]
fn non_string_leaf_is_a_miss() {
    let mut store = fresh();
    assert_eq!(store.lookup(&key(&["version"])), None);
}

#[test]
fn failure_is_not_cached() {
    let mut store = fresh();
    let k = key(&["f", "3"]);
    let r: Result<String, String> = memoized(&mut store, &k, || Err("offline".to_string()));
    assert_eq!(r, Err("offline".to_string()));
    assert_eq!(store.lookup(&k), None);
    let r: Result<String, String> = memoized(&mut store, &k, || Ok("later".to_string()));
    assert_eq!(r, Ok("later".to_string()));
    assert_eq!(store.peek(&k), Some("later".to_string()));
}

#[test]
fn hit_does_not_compute() {
    let mut store = fresh();
    let k = key(&["f", "4"]);
    let runs = Cell::new(0u32);
    let compute = || -> Result<String, String> {
        runs.set(runs.get() + 1);
        Ok("v".to_string())
    };
    assert_eq!(memoized(&mut store, &k, compute), Ok("v".to_string()));
    assert_eq!(memoized(&mut store, &k, compute), Ok("v".to_string()));
    assert_eq!(runs.get(), 1);
}

#[test]
fn end_to_end_example() {
    let k1 = cache_key("f", &vec![1.to_string(), "foo".to_string()]);
    let k2 = cache_key("f", &vec![2.to_string(), "bar".to_string()]);
    assert_eq!(k1, key(&["f", "1", "foo"]));
    assert_eq!(k2, key(&["f", "2", "bar"]));
    let mut store = fresh();
    store.store(&k1, "1foo".to_string());
    store.store(&k2, "2bar".to_string());
    let mut again = reload(FileStore::persist(Arc::new(store)).unwrap());
    assert_eq!(again.lookup(&k1), Some("1foo".to_string()));
    assert_eq!(again.lookup(&k2), Some("2bar".to_string()));
}

#[test]
fn persist_needs_unique_owner() {
    let shared = Arc::new(fresh());
    let other = Arc::clone(&shared);
    assert_eq!(FileStore::persist(shared).unwrap_err(), StoreError::NotUnique);
    assert!(FileStore::persist(other).is_ok());
}

#[test]
fn cache_key_without_arguments() {
    assert_eq!(cache_key("g", &Vec::new()), key(&["g"]));
}

#[test]
fn handle_lifecycle() {
    let mut handle: StoreHandle<FileStore> = StoreHandle::new();
    assert!(delete_global_store(&mut handle).is_none());
    set_global_store(&mut handle, fresh());
    assert_eq!(get_global_store(&handle).entries.len(), 1);
    assert!(delete_global_store(&mut handle).is_some());
    assert!(delete_global_store(&mut handle).is_none());
}

#[test]
fn github_url_format() {
    assert_eq!(github_url("rust-lang", "cargo"), "https://github.com/rust-lang/cargo.git");
}

#[test]
fn commit_of_github_is_cached_under_git_url() {
    let mut handle = StoreHandle::new();
    set_global_store(&mut handle, fresh());
    let r: Result<String, String> = commit_of_github(&mut handle, "o", "r", "main", |url, rev| {
        Ok(format!("{}@{}", url, rev))
    });
    assert_eq!(r, Ok("https://github.com/o/r.git@main".to_string()));
    let again: Result<String, String> =
        commit_of_github(&mut handle, "o", "r", "main", |_, _| unreachable!());
    assert_eq!(again, Ok("https://github.com/o/r.git@main".to_string()));
    let store = delete_global_store(&mut handle).unwrap();
    assert_eq!(
        store.peek(&key(&["commit_of_git", "https://github.com/o/r.git", "main"])),
        Some("https://github.com/o/r.git@main".to_string())
    );
}

#[test]
fn hash_from_github_is_cached_under_git_url() {
    let mut handle = StoreHandle::new();
    set_global_store(&mut handle, fresh());
    let r: Result<String, String> =
        hash_from_github(&mut handle, "o", "r", "v1", |_, _| Ok("sha256-abc".to_string()));
    assert_eq!(r, Ok("sha256-abc".to_string()));
    let store = delete_global_store(&mut handle).unwrap();
    assert_eq!(
        store.peek(&key(&["hash_from_git", "https://github.com/o/r.git", "v1"])),
        Some("sha256-abc".to_string())
    );
    assert_eq!(
        store.peek(&key(&["commit_of_git", "https://github.com/o/r.git", "v1"])),
        None
    );
}

#[test]
fn hash_failure_is_not_cached() {
    let mut handle = StoreHandle::new();
    set_global_store(&mut handle, fresh());
    let r: Result<String, String> =
        hash_from_github(&mut handle, "o", "r", "v1", |_, _| Err("no network".to_string()));
    assert_eq!(r, Err("no network".to_string()));
    let store = delete_global_store(&mut handle).unwrap();
    assert_eq!(
        store.peek(&key(&["hash_from_git", "https://github.com/o/r.git", "v1"])),
        None
    );
}

fn text(s: &str) -> Node {
    Node::Text(s.to_string())
}

fn table(entries: Vec<(&str, Node)>) -> Node {
    Node::Table(entries.into_iter().map(|(k, v)| (k.to_string(), v)).collect())
}

#[test]
fn put_cache_document_is_exact() {
    let mut store = fresh();
    store.put_cache(&key(&["f", "1", "foo"]), "1foo".to_string());
    store.put_cache(&key(&["f", "2", "bar"]), "2bar".to_string());
    let entries = FileStore::persist(Arc::new(store)).unwrap();
    assert_eq!(
        Node::Table(entries),
        table(vec![
            ("version", Node::Unsigned(FORMAT_VERSION)),
            (
                "f",
                table(vec![
                    ("1", table(vec![("foo", text("1foo"))])),
                    ("2", table(vec![("bar", text("2bar"))])),
                ])
            ),
        ])
    );
}

#[test]
fn put_cache_keeps_version() {
    let mut store = fresh();
    store.put_cache(&key(&["f"]), "x".to_string());
    assert_eq!(store.entries[0], ("version".to_string(), Node::Unsigned(FORMAT_VERSION)));
    let mut again = reload(FileStore::persist(Arc::new(store)).unwrap());
    assert_eq!(again.try_get_cached(&key(&["f"])), Some("x".to_string()));
}

#[test]
fn storing_twice_equals_once() {
    let mut once = fresh();
    once.store(&key(&["a", "b"]), "v".to_string());
    let mut twice = fresh();
    twice.store(&key(&["a", "b"]), "v".to_string());
    twice.store(&key(&["a", "b"]), "v".to_string());
    assert_eq!(once.entries, twice.entries);
}

#[test]
fn unrelated_stores_keep_both_values() {
    let mut a = fresh();
    a.store(&key(&["a", "x"]), "1".to_string());
    a.store(&key(&["a", "y"]), "2".to_string());
    let mut b = fresh();
    b.store(&key(&["a", "y"]), "2".to_string());
    b.store(&key(&["a", "x"]), "1".to_string());
    for k in [key(&["a", "x"]), key(&["a", "y"]), key(&["a"])] {
        assert_eq!(a.peek(&k), b.peek(&k));
    }
    assert_eq!(a.peek(&key(&["a", "x"])), Some("1".to_string()));
}

#[test]
fn lookup_keeps_existing_nodes() {
    let mut store = fresh();
    store.store(&key(&["a", "z"]), "kept".to_string());
    assert_eq!(store.lookup(&key(&["a", "b", "c"])), None);
    assert_eq!(
        Node::Table(store.entries),
        table(vec![
            ("version", Node::Unsigned(FORMAT_VERSION)),
            ("a", table(vec![("z", text("kept")), ("b", table(vec![]))])),
        ])
    );
}

#[test]
fn ls_remote_first_commit() {
    assert_eq!(
        commit_from_ls_remote("abc123\trefs/heads/main\ndef456\trefs/tags/v1\n"),
        Some("abc123".to_string())
    );
    assert_eq!(commit_from_ls_remote("abc\r\nxyz"), Some("abc".to_string()));
    assert_eq!(commit_from_ls_remote("no-tab-here"), Some("no-tab-here".to_string()));
    assert_eq!(commit_from_ls_remote("\nsecond"), Some(String::new()));
    assert_eq!(commit_from_ls_remote(""), None);
}
