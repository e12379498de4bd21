//! The cache: what an earlier pass found in each file, keyed by the text of
//! the file's normalized path.

use vstd::prelude::*;
use crate::declaration::{DeclarationModel, DiscoveredDeclaration};
use crate::path::FilePath;
use crate::symbol::SymbolPath;

verus! {

/// A modification time, as a span since the start of the epoch.
#[derive(Clone, Copy, PartialEq, Eq, Structural, Debug)]
pub struct Timestamp {
    pub seconds: u64,
    pub nanos: u32,
}

/// What a pass recorded of one file.
pub struct CacheEntry {
    /// The file's modification time when it was scanned.
    pub last_modified: Timestamp,
    /// The symbolic path of the module that the file holds.
    pub module: SymbolPath,
    /// The directory below which the file's external modules are looked up.
    pub search_directory: FilePath,
    /// The marked functions of the file, in source order.
    pub fn_paths: Vec<DiscoveredDeclaration>,
    /// The files of the external modules that the file declares, in source
    /// order.
    pub referenced_files: Vec<FilePath>,
}

/// What a [`CacheEntry`] stands for.
pub struct EntryModel {
    pub last_modified: Timestamp,
    pub module: Seq<Seq<char>>,
    pub search_directory: Seq<Seq<char>>,
    pub fn_paths: Seq<DeclarationModel>,
    pub referenced_files: Seq<Seq<Seq<char>>>,
}

impl View for CacheEntry {
    type V = EntryModel;

    open spec fn view(&self) -> EntryModel {
        EntryModel {
            last_modified: self.last_modified,
            module: self.module@,
            search_directory: self.search_directory@,
            fn_paths: self.fn_paths.deep_view(),
            referenced_files: self.referenced_files.deep_view(),
        }
    }
}

impl DeepView for CacheEntry {
    type V = EntryModel;

    open spec fn deep_view(&self) -> EntryModel {
        self.view()
    }
}

impl EntryModel {
    /// An entry is well formed when its module path and the path of each of its
    /// declarations have at least one segment.
    pub open spec fn well_formed(self) -> bool {
        &&& self.module.len() > 0
        &&& forall|i: int| 0 <= i < self.fn_paths.len() ==> (#[trigger] self.fn_paths[i]).path.len() > 0
    }
}

impl CacheEntry {
    /// Whether the entry is well formed.
    pub fn is_well_formed(&self) -> (good: bool)
        ensures
            good == self@.well_formed(),
    {
        if self.module.is_empty() {
            return false;
        }
        let mut index: usize = 0;
        while index < self.fn_paths.len()
            invariant
                index <= self.fn_paths.len(),
                forall|i: int| 0 <= i < index ==> (#[trigger] self@.fn_paths[i]).path.len() > 0,
            decreases self.fn_paths.len() - index,
        {
            if self.fn_paths[index].path.is_empty() {
                assert(self@.fn_paths[index as int].path.len() == 0);
                return false;
            }
            index = index + 1;
        }
        true
    }
}

/// The cache of a pass: a map from the text of a normalized file path to the
/// entry of that file. It is held in a hash map of `rustc_hash`.
#[verifier::external_body]
pub struct CacheStore {
    entries: rustc_hash::FxHashMap<String, CacheEntry>,
}

/// What a store holds.
pub uninterp spec fn store_entries(store: CacheStore) -> Map<Seq<char>, EntryModel>;

impl View for CacheStore {
    type V = Map<Seq<char>, EntryModel>;

    open spec fn view(&self) -> Map<Seq<char>, EntryModel> {
        store_entries(*self)
    }
}

/// Makes an empty `FxHashMap` with `Default::default`: it holds nothing.
#[verifier::external_body]
fn store_empty() -> (store: CacheStore)
    ensures
        store_entries(store).dom() == Set::<Seq<char>>::empty(),
{
    CacheStore { entries: rustc_hash::FxHashMap::default() }
}

/// Calls `HashMap::insert`: afterwards the key maps to the entry, whatever it
/// mapped to before, and every other key is as it was.
#[verifier::external_body]
fn store_insert(store: &mut CacheStore, key: String, entry: CacheEntry)
    ensures
        store_entries(*final(store)) == store_entries(*old(store)).insert(key@, entry@),
{
    store.entries.insert(key, entry);
}

/// Calls `HashMap::remove`: the entry that the key mapped to is handed out and
/// the key maps to nothing afterwards; where it mapped to nothing, nothing
/// changes.
#[verifier::external_body]
fn store_remove(store: &mut CacheStore, key: &str) -> (entry: Option<CacheEntry>)
    ensures
        match entry {
            Some(entry) => store_entries(*old(store)).contains_key(key@) && entry@
                == store_entries(*old(store))[key@],
            None => !store_entries(*old(store)).contains_key(key@),
        },
        store_entries(*final(store)) == store_entries(*old(store)).remove(key@),
{
    store.entries.remove(key)
}

/// Calls `HashMap::get`: the entry that the key maps to, where it maps to one.
#[verifier::external_body]
fn store_get<'a>(store: &'a CacheStore, key: &str) -> (entry: Option<&'a CacheEntry>)
    ensures
        match entry {
            Some(entry) => store_entries(*store).contains_key(key@) && entry@ == store_entries(
                *store,
            )[key@],
            None => !store_entries(*store).contains_key(key@),
        },
{
    store.entries.get(key)
}

/// Walks the map with `HashMap::into_iter` and collects the pairs. The order
/// of the pairs is the map's own and nothing is claimed of it: each pair is an
/// entry of the map under its key, no key comes twice, and each key of the map
/// comes.
#[verifier::external_body]
fn store_into_pairs(store: CacheStore) -> (pairs: Vec<(String, CacheEntry)>)
    ensures
        forall|i: int|
            0 <= i < pairs.len() ==> store_entries(store).contains_key((#[trigger] pairs[i]).0@)
                && store_entries(store)[pairs[i].0@] == pairs[i].1@,
        forall|i: int, j: int|
            0 <= i < j < pairs.len() ==> (#[trigger] pairs[i]).0@ != (#[trigger] pairs[j]).0@,
        forall|key: Seq<char>| #[trigger]
            store_entries(store).contains_key(key) ==> exists|i: int|
                0 <= i < pairs.len() && (#[trigger] pairs[i]).0@ == key,
{
    store.entries.into_iter().collect()
}

impl CacheStore {
    /// The store that holds nothing.
    pub fn new() -> (store: CacheStore)
        ensures
            store@ == Map::<Seq<char>, EntryModel>::empty(),
    {
        let store = store_empty();
        assert(store@ =~= Map::<Seq<char>, EntryModel>::empty());
        store
    }

    /// Puts an entry under a key, in place of what the key held.
    pub fn insert(&mut self, key: String, entry: CacheEntry)
        ensures
            final(self)@ == old(self)@.insert(key@, entry@),
    {
        store_insert(self, key, entry)
    }

    /// Takes the entry of a key out of the store.
    pub fn remove(&mut self, key: &str) -> (entry: Option<CacheEntry>)
        ensures
            match entry {
                Some(entry) => old(self)@.contains_key(key@) && entry@ == old(self)@[key@],
                None => !old(self)@.contains_key(key@),
            },
            final(self)@ == old(self)@.remove(key@),
    {
        store_remove(self, key)
    }

    /// The entry of a key.
    pub fn get(&self, key: &str) -> (entry: Option<&CacheEntry>)
        ensures
            match entry {
                Some(entry) => self@.contains_key(key@) && entry@ == self@[key@],
                None => !self@.contains_key(key@),
            },
    {
        store_get(self, key)
    }

    /// The keys and entries of the store, in no particular order: every key
    /// once, with its entry.
    pub fn into_pairs(self) -> (pairs: Vec<(String, CacheEntry)>)
        ensures
            forall|i: int|
                0 <= i < pairs.len() ==> self@.contains_key((#[trigger] pairs[i]).0@)
                    && self@[pairs[i].0@] == pairs[i].1@,
            forall|i: int, j: int|
                0 <= i < j < pairs.len() ==> (#[trigger] pairs[i]).0@ != (#[trigger] pairs[j]).0@,
            forall|key: Seq<char>| #[trigger]
                self@.contains_key(key) ==> exists|i: int|
                    0 <= i < pairs.len() && (#[trigger] pairs[i]).0@ == key,
    {
        store_into_pairs(self)
    }
}

} // verus!
