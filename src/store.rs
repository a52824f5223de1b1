//! The cache store: loading a document, looking values up, storing them, and handing the
//! document back for persisting.

use std::sync::Arc;
use vstd::prelude::*;

use crate::document::{
    find_key, grow_at, is_prefix, node_at, open_at, opt_view, peek_at, store_at, stored, tail_of,
    value_at, walked, Node,
};
use crate::key::key_view;

verus! {

/// The version stamped into every document this cache writes.
pub const FORMAT_VERSION: u64 = 1;

/// Why a store could not be loaded or persisted.
#[derive(Debug, PartialEq, Eq)]
pub enum StoreError {
    /// The file holds something that does not parse; the parser's message is kept.
    Corrupt(String),
    /// Another owner of the store still exists.
    NotUnique,
}

/// What was read from the backing file.
#[derive(Debug, PartialEq, Eq)]
pub enum LoadedFile {
    /// The file holds no bytes at all.
    Empty,
    /// The file parsed into this document.
    Parsed(Node),
    /// The file holds bytes that do not parse; the parser's message is kept.
    Unparsable(String),
}

impl LoadedFile {
    /// Classifies the outcome of parsing `text`: no bytes at all is an empty file, not a
    /// parse failure.
    pub fn from_parse(text: &str, parsed: Result<Node, String>) -> (r: LoadedFile)
        ensures
            text@.len() == 0 ==> r is Empty,
            text@.len() != 0 ==> match parsed {
                Ok(n) => r == LoadedFile::Parsed(n),
                Err(m) => r == LoadedFile::Unparsable(m),
            },
    {
        if text.is_empty() {
            LoadedFile::Empty
        } else {
            match parsed {
                Ok(n) => LoadedFile::Parsed(n),
                Err(m) => LoadedFile::Unparsable(m),
            }
        }
    }
}

/// The path of the reserved version field.
pub open spec fn version_path() -> Seq<Seq<char>> {
    seq!["version"@]
}

/// Whether the top-level table `e` carries the current format version.
pub open spec fn version_ok(e: Seq<(String, Node)>) -> bool {
    node_at(e, version_path()) == Some(Node::Unsigned(FORMAT_VERSION))
}

/// Whether a parsed document is a table that carries the current format version.
pub open spec fn document_ok(n: Node) -> bool {
    match n {
        Node::Table(v) => version_ok(v@),
        _ => false,
    }
}

/// Whether `e` is a fresh document: the version field and nothing else.
pub open spec fn is_fresh(e: Seq<(String, Node)>) -> bool {
    &&& e.len() == 1
    &&& e[0].0@ == "version"@
    &&& e[0].1 == Node::Unsigned(FORMAT_VERSION)
}

/// What loading a store from `contents` gives.
pub open spec fn load_result(contents: LoadedFile, load: bool, r: Result<FileStore, StoreError>) -> bool {
    if !load {
        r matches Ok(s) && is_fresh(s.entries@)
    } else {
        match contents {
            LoadedFile::Empty => r matches Ok(s) && is_fresh(s.entries@),
            LoadedFile::Unparsable(m) => r == Err::<FileStore, StoreError>(StoreError::Corrupt(m)),
            LoadedFile::Parsed(n) => if document_ok(n) {
                r matches Ok(s) && n == Node::Table(s.entries)
            } else {
                r matches Ok(s) && is_fresh(s.entries@)
            },
        }
    }
}

/// A store over one document, held in memory between loading and persisting.
#[derive(Debug)]
pub struct FileStore {
    /// The top-level table of the document.
    pub entries: Vec<(String, Node)>,
}

fn version_key() -> (r: String)
    ensures
        r@ == "version"@,
{
    "version".to_owned()
}

fn fresh_entries() -> (r: Vec<(String, Node)>)
    ensures
        is_fresh(r@),
{
    let mut r: Vec<(String, Node)> = Vec::new();
    r.push((version_key(), Node::Unsigned(FORMAT_VERSION)));
    r
}

/// Whether the top-level table `e` carries the current format version.
fn check_version(e: &Vec<(String, Node)>) -> (r: bool)
    ensures
        r == version_ok(e@),
{
    let key = version_key();
    proof {
        crate::document::lemma_key_index(e@, key@);
        assert(version_path()[0] == key@);
    }
    match find_key(e, &key) {
        None => false,
        Some(i) => match &e[i].1 {
            Node::Unsigned(v) => *v == FORMAT_VERSION,
            _ => false,
        },
    }
}

/// Relies on `Arc::try_unwrap`: it hands back the inner value when no other `Arc` shares
/// it, and the same `Arc` otherwise.
#[verifier::external_body]
fn unwrap_unique<T>(shared: Arc<T>) -> (r: Result<T, Arc<T>>)
    ensures
        match r {
            Ok(t) => t == *shared,
            Err(s) => s == shared,
        },
{
    Arc::try_unwrap(shared)
}

impl FileStore {
    /// Builds a store from what was read from the backing file. With `load` false the
    /// contents are ignored and the document starts fresh. An empty file, or a document
    /// whose version differs from `FORMAT_VERSION`, also starts fresh; a file that does
    /// not parse is an error.
    pub fn with(contents: LoadedFile, load: bool) -> (r: Result<FileStore, StoreError>)
        ensures
            load_result(contents, load, r),
    {
        if !load {
            return Ok(FileStore { entries: fresh_entries() });
        }
        match contents {
            LoadedFile::Empty => Ok(FileStore { entries: fresh_entries() }),
            LoadedFile::Unparsable(m) => Err(StoreError::Corrupt(m)),
            LoadedFile::Parsed(n) => match n {
                Node::Table(v) => {
                    if check_version(&v) {
                        Ok(FileStore { entries: v })
                    } else {
                        Ok(FileStore { entries: fresh_entries() })
                    }
                },
                _ => Ok(FileStore { entries: fresh_entries() }),
            },
        }
    }

    /// Reads the value at `key` without changing the document.
    pub fn peek(&self, key: &Vec<String>) -> (r: Option<String>)
        requires
            key@.len() >= 1,
        ensures
            opt_view(r) == value_at(self.entries@, key_view(key@)),
    {
        assert(tail_of(key@, 0) =~= key_view(key@));
        peek_at(&self.entries, key, 0)
    }

    /// Reads the value at `key`. As a side effect, an empty table is created at each
    /// proper prefix of `key` that does not exist yet, unless a leaf stands in the way.
    pub fn lookup(&mut self, key: &Vec<String>) -> (r: Option<String>)
        requires
            key@.len() >= 1,
        ensures
            opt_view(r) == value_at(old(self).entries@, key_view(key@)),
            walked(old(self).entries@, key_view(key@), final(self).entries@),
    {
        let ghost k = key_view(key@);
        assert(tail_of(key@, 0) =~= k);
        let r = peek_at(&self.entries, key, 0);
        if open_at(&self.entries, key, 0) {
            grow_at(&mut self.entries, key, 0);
        }
        r
    }

    /// Stores `value` at `key`, creating tables on the way and replacing whatever stood
    /// at `key`, or at a proper prefix of it as a leaf. The reserved version field is not
    /// a key.
    pub fn store(&mut self, key: &Vec<String>, value: String)
        requires
            key@.len() >= 1,
            key_view(key@)[0] != "version"@,
        ensures
            stored(old(self).entries@, key_view(key@), value@, final(self).entries@),
    {
        assert(tail_of(key@, 0) =~= key_view(key@));
        store_at(&mut self.entries, key, 0, value);
    }

    /// Hands back the whole document, to be written over the backing file, provided no
    /// other owner of the store remains; otherwise fails with `NotUnique`.
    pub fn persist(store: Arc<FileStore>) -> (r: Result<Vec<(String, Node)>, StoreError>)
        ensures
            match r {
                Ok(d) => d == store.entries,
                Err(e) => e == StoreError::NotUnique,
            },
    {
        match unwrap_unique(store) {
            Ok(s) => Ok(s.entries),
            Err(_) => Err(StoreError::NotUnique),
        }
    }
}

/// What a cache offers to a memoized call: reading a value by key and storing one, over
/// a document of nested tables.
pub trait Store {
    /// The top-level table of the store's document.
    spec fn document(&self) -> Seq<(String, Node)>;

    /// Reads the value at `key`. No cached value changes, nor any node off the walk to
    /// `key`; where no leaf blocks the way, tables stand at each proper prefix of `key`.
    fn try_get_cached(&mut self, key: &Vec<String>) -> (r: Option<String>)
        requires
            key@.len() >= 1,
        ensures
            opt_view(r) == value_at(old(self).document(), key_view(key@)),
            walked(old(self).document(), key_view(key@), final(self).document()),
    ;

    /// Stores `value` at `key`, which does not start at the reserved version field: the
    /// value stands at `key`, tables on the way to it, nothing below it, and every other
    /// node as it was.
    fn put_cache(&mut self, key: &Vec<String>, value: String)
        requires
            key@.len() >= 1,
            key_view(key@)[0] != "version"@,
        ensures
            stored(old(self).document(), key_view(key@), value@, final(self).document()),
    ;
}

impl Store for FileStore {
    open spec fn document(&self) -> Seq<(String, Node)> {
        self.entries@
    }

    fn try_get_cached(&mut self, key: &Vec<String>) -> (r: Option<String>) {
        self.lookup(key)
    }

    fn put_cache(&mut self, key: &Vec<String>, value: String) {
        self.store(key, value);
    }
}

/// Holds the store that memoized calls use, if one has been set.
pub struct StoreHandle<S> {
    slot: Option<S>,
}

impl<S> StoreHandle<S> {
    /// The store in the handle, if any.
    pub closed spec fn active(&self) -> Option<S> {
        self.slot
    }

    /// A handle with no store in it.
    pub fn new() -> (r: StoreHandle<S>)
        ensures
            r.active() is None,
    {
        StoreHandle { slot: None }
    }
}

/// Makes `store` the active store of `handle`, dropping any earlier one.
pub fn set_global_store<S>(handle: &mut StoreHandle<S>, store: S)
    ensures
        final(handle).active() == Some(store),
{
    handle.slot = Some(store);
}

/// Clears `handle` and hands back the store it held, so that it can be persisted.
pub fn delete_global_store<S>(handle: &mut StoreHandle<S>) -> (r: Option<S>)
    ensures
        r == old(handle).active(),
        final(handle).active() is None,
{
    handle.slot.take()
}

/// The active store of `handle`, which must have been set.
pub fn get_global_store<S>(handle: &StoreHandle<S>) -> (r: &S)
    requires
        handle.active() is Some,
    ensures
        Some(*r) == handle.active(),
{
    handle.slot.as_ref().unwrap()
}

/// A fresh document carries the current version and holds no cached value.
pub proof fn lemma_fresh(e: Seq<(String, Node)>)
    requires
        is_fresh(e),
    ensures
        version_ok(e),
        forall|q: Seq<Seq<char>>| #[trigger] value_at(e, q) is None,
{
    assert(e.drop_first().len() == 0);
    assert forall|q: Seq<Seq<char>>| #[trigger] value_at(e, q) is None by {
        if q.len() >= 1 {
            crate::document::lemma_key_index(e, q[0]);
        }
    }
}

/// Storing a value, persisting the document and loading it again finds the value, for
/// any key that does not start at the reserved version field.
pub proof fn lemma_round_trip(
    before: Seq<(String, Node)>,
    k: Seq<Seq<char>>,
    v: Seq<char>,
    after: Seq<(String, Node)>,
    persisted: Vec<(String, Node)>,
    loaded: Result<FileStore, StoreError>,
)
    requires
        version_ok(before),
        k.len() >= 1,
        k[0] != "version"@,
        stored(before, k, v, after),
        persisted@ == after,
        load_result(LoadedFile::Parsed(Node::Table(persisted)), true, loaded),
    ensures
        loaded matches Ok(s) && value_at(s.entries@, k) == Some(v),
{
    lemma_store_keeps_version(before, k, v, after);
}

/// A store at a key that does not start at the version field keeps the version field.
pub proof fn lemma_store_keeps_version(
    before: Seq<(String, Node)>,
    k: Seq<Seq<char>>,
    v: Seq<char>,
    after: Seq<(String, Node)>,
)
    requires
        k.len() >= 1,
        k[0] != "version"@,
        stored(before, k, v, after),
    ensures
        node_at(after, version_path()) == node_at(before, version_path()),
        version_ok(before) ==> version_ok(after),
{
    let vp = version_path();
    if is_prefix(vp, k) {
        crate::document::lemma_prefix_head(vp, k);
    }
    if is_prefix(k, vp) {
        crate::document::lemma_prefix_head(k, vp);
    }
    assert(node_at(after, vp) == node_at(before, vp));
}

/// Values stored at two keys on different branches, persisted and loaded again, are both
/// found, each under its own key.
pub proof fn lemma_two_keys_round_trip(
    before: Seq<(String, Node)>,
    k1: Seq<Seq<char>>,
    v1: Seq<char>,
    k2: Seq<Seq<char>>,
    v2: Seq<char>,
    middle: Seq<(String, Node)>,
    after: Seq<(String, Node)>,
    persisted: Vec<(String, Node)>,
    loaded: Result<FileStore, StoreError>,
)
    requires
        version_ok(before),
        k1.len() >= 1,
        k2.len() >= 1,
        k1[0] != "version"@,
        k2[0] != "version"@,
        !is_prefix(k1, k2),
        !is_prefix(k2, k1),
        stored(before, k1, v1, middle),
        stored(middle, k2, v2, after),
        persisted@ == after,
        load_result(LoadedFile::Parsed(Node::Table(persisted)), true, loaded),
    ensures
        loaded matches Ok(s) && value_at(s.entries@, k1) == Some(v1) && value_at(s.entries@, k2) == Some(
            v2,
        ),
{
    lemma_store_keeps_version(before, k1, v1, middle);
    lemma_store_keeps_version(middle, k2, v2, after);
    assert(node_at(after, k1) == node_at(middle, k1));
}

/// A document whose version is not the current one loads as a fresh document, in which
/// every lookup misses.
pub proof fn lemma_version_reset(n: Node, loaded: Result<FileStore, StoreError>)
    requires
        !document_ok(n),
        load_result(LoadedFile::Parsed(n), true, loaded),
    ensures
        loaded matches Ok(s) && forall|q: Seq<Seq<char>>| #[trigger] value_at(s.entries@, q) is None,
{
    if let Ok(s) = loaded {
        lemma_fresh(s.entries@);
    }
}

/// An empty file loads as a fresh document, with the current version and no value.
pub proof fn lemma_empty_file(loaded: Result<FileStore, StoreError>)
    requires
        load_result(LoadedFile::Empty, true, loaded),
    ensures
        loaded matches Ok(s) && version_ok(s.entries@) && forall|q: Seq<Seq<char>>|
            #[trigger] value_at(s.entries@, q) is None,
{
    if let Ok(s) = loaded {
        lemma_fresh(s.entries@);
    }
}

/// A key that misses, once a value is stored at it, hits with that value.
pub proof fn lemma_miss_then_hit(
    before: Seq<(String, Node)>,
    k: Seq<Seq<char>>,
    v: Seq<char>,
    after: Seq<(String, Node)>,
)
    requires
        value_at(before, k) is None,
        stored(before, k, v, after),
    ensures
        value_at(after, k) == Some(v),
{
}

} // verus!
