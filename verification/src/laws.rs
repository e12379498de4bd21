//! What holds of every pass.
//!
//! The laws speak of [`pass_of`], which [`crate::simulation`] shows to be what
//! the machine computes. Where a law asks that no file is visited twice, it
//! asks what the cache is meant to hold anyway: files that refer to one another
//! as a forest below the root. [`crate::sharing`] has idempotence for files
//! that are reached from two branches as well.

use vstd::prelude::*;
use crate::cache::EntryModel;
use crate::declaration::registrations_of;
use crate::model::{
    candidate_of, candidates_of, pass_of, replay_of, resolve_of, scan_file_of, visit_of,
    ContentModel, FileModel, Outcome,
};
use crate::pass::VisitModel;
use crate::path::{normalized, path_text, search_directory_of};
use crate::scan::{scan_of, scan_of_item, ModuleReferenceModel};
use crate::source::ItemModel;

verus! {

/// The keys of the files visited, in order.
pub open spec fn keys_of(visits: Seq<VisitModel>) -> Seq<Seq<char>> {
    Seq::new(visits.len(), |i: int| visits[i].key)
}

/// Whether no visit scanned its file.
pub open spec fn none_scanned(visits: Seq<VisitModel>) -> bool {
    forall|i: int| 0 <= i < visits.len() ==> !(#[trigger] visits[i]).scanned
}

/// Whether `after` holds under every key but the listed ones what `before`
/// holds.
pub open spec fn same_outside(
    before: Map<Seq<char>, EntryModel>,
    after: Map<Seq<char>, EntryModel>,
    keys: Seq<Seq<char>>,
) -> bool {
    forall|key: Seq<char>|
        !(#[trigger] keys.contains(key)) ==> after.contains_key(key) == before.contains_key(key)
            && (before.contains_key(key) ==> after[key] == before[key])
}

/// Whether `store` holds under each listed key what `other` holds there.
pub open spec fn agrees_on(
    store: Map<Seq<char>, EntryModel>,
    other: Map<Seq<char>, EntryModel>,
    keys: Seq<Seq<char>>,
) -> bool {
    forall|key: Seq<char>|
        (#[trigger] keys.contains(key)) && other.contains_key(key) ==> store.contains_key(key)
            && store[key] == other[key]
}

/// Whether `again` is `first` done over from the cache `store`: it went well,
/// scanned nothing, visited the same files, emitted the same registrations and
/// left the cache as it found it.
pub open spec fn repeats(again: Outcome, first: Outcome, store: Map<Seq<char>, EntryModel>) -> bool {
    &&& again.end is Done
    &&& again.store == store
    &&& again.emitted == first.emitted
    &&& keys_of(again.visits) == keys_of(first.visits)
    &&& none_scanned(again.visits)
}

/// Whether every module of the list has a module path of at least one segment.
pub open spec fn modules_named(modules: Seq<ModuleReferenceModel>) -> bool {
    forall|i: int| 0 <= i < modules.len() ==> (#[trigger] modules[i]).module.len() > 0
}

/// The parts of a list without repetition have no repetition and share
/// no member.
pub proof fn lemma_distinct_split(first: Seq<Seq<char>>, second: Seq<Seq<char>>)
    requires
        (first + second).no_duplicates(),
    ensures
        first.no_duplicates(),
        second.no_duplicates(),
        forall|key: Seq<char>| #[trigger] first.contains(key) ==> !second.contains(key),
{
    let whole = first + second;
    assert forall|i: int, j: int| 0 <= i < first.len() && 0 <= j < first.len() && i != j implies first[i]
        != first[j] by {
        assert(whole[i] == first[i] && whole[j] == first[j]);
    }
    assert forall|i: int, j: int|
        0 <= i < second.len() && 0 <= j < second.len() && i != j implies second[i] != second[j] by {
        assert(whole[first.len() + i] == second[i] && whole[first.len() + j] == second[j]);
    }
    assert forall|key: Seq<char>| #[trigger] first.contains(key) implies !second.contains(key) by {
        if second.contains(key) {
            let i = choose|i: int| 0 <= i < first.len() && first[i] == key;
            let j = choose|j: int| 0 <= j < second.len() && second[j] == key;
            assert(whole[i] == key && whole[first.len() + j] == key);
        }
    }
}

/// The keys of two runs of visits, one after the other.
pub proof fn lemma_keys_concat(first: Seq<VisitModel>, second: Seq<VisitModel>)
    ensures
        keys_of(first + second) == keys_of(first) + keys_of(second),
        forall|key: Seq<char>|
            keys_of(first + second).contains(key) <==> keys_of(first).contains(key) || keys_of(
                second,
            ).contains(key),
        none_scanned(first) && none_scanned(second) ==> none_scanned(first + second),
{
    let whole = keys_of(first + second);
    assert(whole =~= keys_of(first) + keys_of(second));
    assert forall|key: Seq<char>|
        whole.contains(key) <==> keys_of(first).contains(key) || keys_of(second).contains(
            key,
        ) by {
        if whole.contains(key) {
            let i = choose|i: int| 0 <= i < whole.len() && whole[i] == key;
            if i < first.len() {
                assert(keys_of(first)[i] == key);
            } else {
                assert(keys_of(second)[i - first.len()] == key);
            }
        }
        if keys_of(first).contains(key) {
            let i = choose|i: int| 0 <= i < first.len() && keys_of(first)[i] == key;
            assert(whole[i] == key);
        }
        if keys_of(second).contains(key) {
            let j = choose|j: int| 0 <= j < second.len() && keys_of(second)[j] == key;
            assert(whole[first.len() + j] == key);
        }
    }
}

/// Every declaration that a scan finds has a path, and every module that it
/// finds a module path, of at least one segment.
pub proof fn lemma_scan_named(items: Seq<ItemModel>, module: Seq<Seq<char>>, directory: Seq<Seq<char>>)
    ensures
        forall|i: int|
            0 <= i < scan_of(items, module, directory).declarations.len() ==> (#[trigger] scan_of(
                items,
                module,
                directory,
            ).declarations[i]).path.len() > 0,
        modules_named(scan_of(items, module, directory).modules),
    decreases items,
{
    if items.len() > 0 {
        lemma_scan_named(items.drop_last(), module, directory);
        lemma_scan_item_named(items.last(), module, directory);
    }
}

/// Every declaration that a scan of one item finds has a path, and every
/// module that it finds a module path, of at least one segment.
pub proof fn lemma_scan_item_named(item: ItemModel, module: Seq<Seq<char>>, directory: Seq<Seq<char>>)
    ensures
        forall|i: int|
            0 <= i < scan_of_item(item, module, directory).declarations.len()
                ==> (#[trigger] scan_of_item(item, module, directory).declarations[i]).path.len()
                > 0,
        modules_named(scan_of_item(item, module, directory).modules),
    decreases item,
{
    match item {
        ItemModel::Module { name, body: Some(body) } => {
            lemma_scan_named(body, module.push(name), directory.push(name));
        },
        _ => {},
    }
}

/// A key that is not among the keys of a run of visits is not among the keys
/// of any part of it.
pub proof fn lemma_key_outside(first: Seq<VisitModel>, second: Seq<VisitModel>, key: Seq<char>)
    requires
        !keys_of(first + second).contains(key),
    ensures
        !keys_of(first).contains(key),
        !keys_of(second).contains(key),
{
    lemma_keys_concat(first, second);
}

/// A visit that went well changed the cache under the keys of the files it
/// visited, and under no other.
pub proof fn lemma_visit_frame(
    tree: Map<Seq<char>, FileModel>,
    store: Map<Seq<char>, EntryModel>,
    file: Seq<Seq<char>>,
    module: Seq<Seq<char>>,
    depth: nat,
)
    requires
        visit_of(tree, store, file, module, depth).end is Done,
    ensures
        same_outside(
            store,
            visit_of(tree, store, file, module, depth).store,
            keys_of(visit_of(tree, store, file, module, depth).visits),
        ),
        visit_of(tree, store, file, module, depth).visits.len() > 0,
        visit_of(tree, store, file, module, depth).visits[0].key == path_text(file),
    decreases depth, 1nat,
{
    let out = visit_of(tree, store, file, module, depth);
    let key = path_text(file);
    assert(depth > 0 && tree.contains_key(key));
    if store.contains_key(key) {
        let entry = store[key];
        let taken = store.remove(key);
        assert(entry.well_formed());
        if entry.last_modified == tree[key].modified {
            let inner = replay_of(
                tree,
                taken,
                entry.referenced_files,
                entry.module,
                (depth - 1) as nat,
            );
            let own = seq![VisitModel { key, scanned: false }];
            lemma_replay_frame(
                tree,
                taken,
                entry.referenced_files,
                entry.module,
                (depth - 1) as nat,
            );
            assert(out.visits == own + inner.visits);
            assert(keys_of(own)[0] == key);
            assert forall|other: Seq<char>| !(#[trigger] keys_of(out.visits).contains(other)) implies
                out.store.contains_key(other) == store.contains_key(other) && (store.contains_key(
                other,
            ) ==> out.store[other] == store[other]) by {
                lemma_key_outside(own, inner.visits, other);
                assert(other != key);
                assert(!keys_of(inner.visits).contains(other));
            }
        } else {
            lemma_scan_frame(tree, taken, file, entry.module, entry.search_directory, depth);
            assert(out.visits[0].key == key);
            assert(keys_of(out.visits)[0] == key);
            assert forall|other: Seq<char>| !(#[trigger] keys_of(out.visits).contains(other)) implies
                out.store.contains_key(other) == store.contains_key(other) && (store.contains_key(
                other,
            ) ==> out.store[other] == store[other]) by {
                assert(other != key);
            }
        }
    } else {
        lemma_scan_frame(tree, store, file, module, search_directory_of(file), depth);
    }
}

/// A scan that went well changed the cache under the keys of the files it
/// visited, and under no other.
pub proof fn lemma_scan_frame(
    tree: Map<Seq<char>, FileModel>,
    store: Map<Seq<char>, EntryModel>,
    file: Seq<Seq<char>>,
    module: Seq<Seq<char>>,
    directory: Seq<Seq<char>>,
    depth: nat,
)
    requires
        tree.contains_key(path_text(file)),
        scan_file_of(tree, store, file, module, directory, depth).end is Done,
    ensures
        same_outside(
            store,
            scan_file_of(tree, store, file, module, directory, depth).store,
            keys_of(scan_file_of(tree, store, file, module, directory, depth).visits),
        ),
        scan_file_of(tree, store, file, module, directory, depth).visits.len() > 0,
        scan_file_of(tree, store, file, module, directory, depth).visits[0] == (VisitModel {
            key: path_text(file),
            scanned: true,
        }),
    decreases depth, 0nat,
{
    let out = scan_file_of(tree, store, file, module, directory, depth);
    let key = path_text(file);
    match tree[key].content {
        ContentModel::Items(items) => {
            let found = scan_of(items, module, directory);
            let inner = resolve_of(tree, store, found.modules, (depth - 1) as nat);
            let own = seq![VisitModel { key, scanned: true }];
            lemma_resolve_frame(tree, store, found.modules, (depth - 1) as nat);
            assert(out.visits == own + inner.visits);
            assert(keys_of(own)[0] == key);
            assert forall|other: Seq<char>| !(#[trigger] keys_of(out.visits).contains(other)) implies
                out.store.contains_key(other) == store.contains_key(other) && (store.contains_key(
                other,
            ) ==> out.store[other] == store[other]) by {
                lemma_key_outside(own, inner.visits, other);
                assert(other != key);
                assert(!keys_of(inner.visits).contains(other));
            }
        },
        _ => {},
    }
}

/// Visits of a fresh entry's files that went well changed the cache under the
/// keys of the files visited, and under no other.
pub proof fn lemma_replay_frame(
    tree: Map<Seq<char>, FileModel>,
    store: Map<Seq<char>, EntryModel>,
    files: Seq<Seq<Seq<char>>>,
    module: Seq<Seq<char>>,
    depth: nat,
)
    requires
        replay_of(tree, store, files, module, depth).end is Done,
    ensures
        same_outside(
            store,
            replay_of(tree, store, files, module, depth).store,
            keys_of(replay_of(tree, store, files, module, depth).visits),
        ),
    decreases depth, files.len() + 2,
{
    let out = replay_of(tree, store, files, module, depth);
    if files.len() > 0 {
        let first = visit_of(tree, store, normalized(files[0]), module, depth);
        let rest = replay_of(tree, first.store, files.drop_first(), module, depth);
        lemma_visit_frame(tree, store, normalized(files[0]), module, depth);
        lemma_replay_frame(tree, first.store, files.drop_first(), module, depth);
        assert(out.visits == first.visits + rest.visits);
        assert forall|other: Seq<char>| !(#[trigger] keys_of(out.visits).contains(other)) implies
            out.store.contains_key(other) == store.contains_key(other) && (store.contains_key(
            other,
        ) ==> out.store[other] == store[other]) by {
            lemma_key_outside(first.visits, rest.visits, other);
            assert(!keys_of(first.visits).contains(other));
            assert(!keys_of(rest.visits).contains(other));
        }
    }
}

/// Visits of external modules that went well changed the cache under the keys
/// of the files visited, and under no other.
pub proof fn lemma_resolve_frame(
    tree: Map<Seq<char>, FileModel>,
    store: Map<Seq<char>, EntryModel>,
    modules: Seq<ModuleReferenceModel>,
    depth: nat,
)
    requires
        resolve_of(tree, store, modules, depth).end is Done,
    ensures
        same_outside(
            store,
            resolve_of(tree, store, modules, depth).store,
            keys_of(resolve_of(tree, store, modules, depth).visits),
        ),
    decreases depth, modules.len() + 2,
{
    let out = resolve_of(tree, store, modules, depth);
    if modules.len() > 0 {
        let file = normalized(candidate_of(tree, modules[0]));
        let first = visit_of(tree, store, file, modules[0].module, depth);
        let rest = resolve_of(tree, first.store, modules.drop_first(), depth);
        lemma_visit_frame(tree, store, file, modules[0].module, depth);
        lemma_resolve_frame(tree, first.store, modules.drop_first(), depth);
        assert(out.visits == first.visits + rest.visits);
        assert forall|other: Seq<char>| !(#[trigger] keys_of(out.visits).contains(other)) implies
            out.store.contains_key(other) == store.contains_key(other) && (store.contains_key(
            other,
        ) ==> out.store[other] == store[other]) by {
            lemma_key_outside(first.visits, rest.visits, other);
            assert(!keys_of(first.visits).contains(other));
            assert(!keys_of(rest.visits).contains(other));
        }
    }
}

/// What a visit left in the cache, with the entry of the visited file put in
/// afterwards, is found again under the keys of the files that the visit's
/// children visited.
pub proof fn lemma_agrees_inside(
    later: Map<Seq<char>, EntryModel>,
    inner: Outcome,
    out: Outcome,
    key: Seq<char>,
    entry: EntryModel,
    own: Seq<VisitModel>,
)
    requires
        own.len() == 1,
        own[0].key == key,
        out.visits == own + inner.visits,
        out.store == inner.store.insert(key, entry),
        keys_of(out.visits).no_duplicates(),
        agrees_on(later, out.store, keys_of(out.visits)),
    ensures
        keys_of(inner.visits).no_duplicates(),
        !keys_of(inner.visits).contains(key),
        agrees_on(later.remove(key), inner.store, keys_of(inner.visits)),
        later.contains_key(key),
        later[key] == entry,
        later.remove(key).insert(key, entry) == later,
{
    lemma_keys_concat(own, inner.visits);
    lemma_distinct_split(keys_of(own), keys_of(inner.visits));
    assert(keys_of(own)[0] == key);
    assert(keys_of(own).contains(key));
    assert(keys_of(out.visits).contains(key));
    assert forall|other: Seq<char>|
        (#[trigger] keys_of(inner.visits).contains(other)) && inner.store.contains_key(
            other,
        ) implies later.remove(key).contains_key(other) && later.remove(key)[other]
        == inner.store[other] by {
        assert(keys_of(out.visits).contains(other));
        assert(other != key);
    }
    assert(later.remove(key).insert(key, entry) =~= later);
}

/// What two runs of visits left in the cache, one after the other, is found
/// again under the keys of either.
pub proof fn lemma_agrees_beside(
    later: Map<Seq<char>, EntryModel>,
    first: Outcome,
    rest: Outcome,
)
    requires
        same_outside(first.store, rest.store, keys_of(rest.visits)),
        keys_of(first.visits + rest.visits).no_duplicates(),
        agrees_on(later, rest.store, keys_of(first.visits + rest.visits)),
    ensures
        keys_of(first.visits).no_duplicates(),
        keys_of(rest.visits).no_duplicates(),
        agrees_on(later, first.store, keys_of(first.visits)),
        agrees_on(later, rest.store, keys_of(rest.visits)),
{
    lemma_keys_concat(first.visits, rest.visits);
    lemma_distinct_split(keys_of(first.visits), keys_of(rest.visits));
    assert forall|other: Seq<char>|
        (#[trigger] keys_of(first.visits).contains(other)) && first.store.contains_key(
            other,
        ) implies later.contains_key(other) && later[other] == first.store[other] by {
        assert(!keys_of(rest.visits).contains(other));
        assert(keys_of(first.visits + rest.visits).contains(other));
    }
    assert forall|other: Seq<char>|
        (#[trigger] keys_of(rest.visits).contains(other)) && rest.store.contains_key(
            other,
        ) implies later.contains_key(other) && later[other] == rest.store[other] by {
        assert(keys_of(first.visits + rest.visits).contains(other));
    }
}

/// A visit that went well and visited no file twice is repeated, without a
/// scan, by a visit of the same file from any cache that holds, for the files
/// that were visited, what the first visit left.
pub proof fn lemma_visit_repeats(
    tree: Map<Seq<char>, FileModel>,
    store: Map<Seq<char>, EntryModel>,
    file: Seq<Seq<char>>,
    module: Seq<Seq<char>>,
    depth: nat,
    later: Map<Seq<char>, EntryModel>,
    other_module: Seq<Seq<char>>,
)
    requires
        module.len() > 0,
        visit_of(tree, store, file, module, depth).end is Done,
        keys_of(visit_of(tree, store, file, module, depth).visits).no_duplicates(),
        agrees_on(
            later,
            visit_of(tree, store, file, module, depth).store,
            keys_of(visit_of(tree, store, file, module, depth).visits),
        ),
    ensures
        repeats(
            visit_of(tree, later, file, other_module, depth),
            visit_of(tree, store, file, module, depth),
            later,
        ),
    decreases depth, 1nat,
{
    let out = visit_of(tree, store, file, module, depth);
    let again = visit_of(tree, later, file, other_module, depth);
    let key = path_text(file);
    assert(depth > 0 && tree.contains_key(key));
    if store.contains_key(key) {
        let entry = store[key];
        let taken = store.remove(key);
        assert(entry.well_formed());
        if entry.last_modified == tree[key].modified {
            let inner = replay_of(
                tree,
                taken,
                entry.referenced_files,
                entry.module,
                (depth - 1) as nat,
            );
            let own = seq![VisitModel { key, scanned: false }];
            lemma_agrees_inside(later, inner, out, key, entry, own);
            lemma_replay_repeats(
                tree,
                taken,
                entry.referenced_files,
                entry.module,
                (depth - 1) as nat,
                later.remove(key),
                entry.module,
            );
            let second = replay_of(
                tree,
                later.remove(key),
                entry.referenced_files,
                entry.module,
                (depth - 1) as nat,
            );
            lemma_keys_concat(own, inner.visits);
            lemma_keys_concat(own, second.visits);
            assert(again.visits == own + second.visits);
        } else {
            lemma_scan_repeats(
                tree,
                taken,
                file,
                entry.module,
                entry.search_directory,
                depth,
                later,
                other_module,
            );
        }
    } else {
        lemma_scan_repeats(
            tree,
            store,
            file,
            module,
            search_directory_of(file),
            depth,
            later,
            other_module,
        );
    }
}

/// A scan that went well and visited no file twice is repeated, without a
/// scan, by a visit of the same file from any cache that holds, for the files
/// that were visited, what the scan left.
pub proof fn lemma_scan_repeats(
    tree: Map<Seq<char>, FileModel>,
    store: Map<Seq<char>, EntryModel>,
    file: Seq<Seq<char>>,
    module: Seq<Seq<char>>,
    directory: Seq<Seq<char>>,
    depth: nat,
    later: Map<Seq<char>, EntryModel>,
    other_module: Seq<Seq<char>>,
)
    requires
        module.len() > 0,
        tree.contains_key(path_text(file)),
        scan_file_of(tree, store, file, module, directory, depth).end is Done,
        keys_of(scan_file_of(tree, store, file, module, directory, depth).visits).no_duplicates(),
        agrees_on(
            later,
            scan_file_of(tree, store, file, module, directory, depth).store,
            keys_of(scan_file_of(tree, store, file, module, directory, depth).visits),
        ),
    ensures
        repeats(
            visit_of(tree, later, file, other_module, depth),
            scan_file_of(tree, store, file, module, directory, depth),
            later,
        ),
    decreases depth, 0nat,
{
    let out = scan_file_of(tree, store, file, module, directory, depth);
    let again = visit_of(tree, later, file, other_module, depth);
    let key = path_text(file);
    match tree[key].content {
        ContentModel::Items(items) => {
            let found = scan_of(items, module, directory);
            let inner = resolve_of(tree, store, found.modules, (depth - 1) as nat);
            let entry = EntryModel {
                last_modified: tree[key].modified,
                module,
                search_directory: directory,
                fn_paths: found.declarations,
                referenced_files: candidates_of(tree, found.modules),
            };
            let own = seq![VisitModel { key, scanned: true }];
            let replayed = seq![VisitModel { key, scanned: false }];
            lemma_scan_named(items, module, directory);
            assert(entry.well_formed());
            lemma_agrees_inside(later, inner, out, key, entry, own);
            lemma_resolve_repeats(
                tree,
                store,
                found.modules,
                (depth - 1) as nat,
                later.remove(key),
                module,
            );
            let second = replay_of(
                tree,
                later.remove(key),
                entry.referenced_files,
                module,
                (depth - 1) as nat,
            );
            lemma_keys_concat(own, inner.visits);
            lemma_keys_concat(replayed, second.visits);
            assert(again.visits == replayed + second.visits);
            assert(keys_of(own) =~= keys_of(replayed));
        },
        _ => {},
    }
}

/// Visits of a fresh entry's files that went well and visited no file twice
/// are repeated, without a scan, from any cache that holds, for the files that
/// were visited, what the first visits left.
pub proof fn lemma_replay_repeats(
    tree: Map<Seq<char>, FileModel>,
    store: Map<Seq<char>, EntryModel>,
    files: Seq<Seq<Seq<char>>>,
    module: Seq<Seq<char>>,
    depth: nat,
    later: Map<Seq<char>, EntryModel>,
    other_module: Seq<Seq<char>>,
)
    requires
        module.len() > 0,
        replay_of(tree, store, files, module, depth).end is Done,
        keys_of(replay_of(tree, store, files, module, depth).visits).no_duplicates(),
        agrees_on(
            later,
            replay_of(tree, store, files, module, depth).store,
            keys_of(replay_of(tree, store, files, module, depth).visits),
        ),
    ensures
        repeats(
            replay_of(tree, later, files, other_module, depth),
            replay_of(tree, store, files, module, depth),
            later,
        ),
    decreases depth, files.len() + 2,
{
    let out = replay_of(tree, store, files, module, depth);
    let again = replay_of(tree, later, files, other_module, depth);
    if files.len() == 0 {
        assert(keys_of(again.visits) =~= keys_of(out.visits));
    } else {
        let file = normalized(files[0]);
        let first = visit_of(tree, store, file, module, depth);
        let rest = replay_of(tree, first.store, files.drop_first(), module, depth);
        lemma_replay_frame(tree, first.store, files.drop_first(), module, depth);
        lemma_agrees_beside(later, first, rest);
        lemma_visit_repeats(tree, store, file, module, depth, later, other_module);
        lemma_replay_repeats(
            tree,
            first.store,
            files.drop_first(),
            module,
            depth,
            later,
            other_module,
        );
        let first_again = visit_of(tree, later, file, other_module, depth);
        let rest_again = replay_of(tree, later, files.drop_first(), other_module, depth);
        lemma_keys_concat(first.visits, rest.visits);
        lemma_keys_concat(first_again.visits, rest_again.visits);
        assert(again == rest_again.after(first_again));
    }
}

/// Visits of external modules that went well and visited no file twice are
/// repeated, without a scan, by visits of the modules' files from any cache
/// that holds, for the files that were visited, what the first visits left.
pub proof fn lemma_resolve_repeats(
    tree: Map<Seq<char>, FileModel>,
    store: Map<Seq<char>, EntryModel>,
    modules: Seq<ModuleReferenceModel>,
    depth: nat,
    later: Map<Seq<char>, EntryModel>,
    other_module: Seq<Seq<char>>,
)
    requires
        modules_named(modules),
        resolve_of(tree, store, modules, depth).end is Done,
        keys_of(resolve_of(tree, store, modules, depth).visits).no_duplicates(),
        agrees_on(
            later,
            resolve_of(tree, store, modules, depth).store,
            keys_of(resolve_of(tree, store, modules, depth).visits),
        ),
    ensures
        repeats(
            replay_of(tree, later, candidates_of(tree, modules), other_module, depth),
            resolve_of(tree, store, modules, depth),
            later,
        ),
    decreases depth, modules.len() + 2,
{
    let out = resolve_of(tree, store, modules, depth);
    let files = candidates_of(tree, modules);
    let again = replay_of(tree, later, files, other_module, depth);
    if modules.len() == 0 {
        assert(keys_of(again.visits) =~= keys_of(out.visits));
    } else {
        let file = normalized(candidate_of(tree, modules[0]));
        let visit = visit_of(tree, store, file, modules[0].module, depth);
        let first = Outcome { steps: visit.steps + 1, ..visit };
        let rest = resolve_of(tree, first.store, modules.drop_first(), depth);
        assert(files.drop_first() =~= candidates_of(tree, modules.drop_first()));
        assert(modules_named(modules.drop_first())) by {
            assert forall|i: int| 0 <= i < modules.drop_first().len() implies (
            #[trigger] modules.drop_first()[i]).module.len() > 0 by {
                assert(modules.drop_first()[i] == modules[i + 1]);
            }
        }
        lemma_resolve_frame(tree, first.store, modules.drop_first(), depth);
        lemma_agrees_beside(later, first, rest);
        lemma_visit_repeats(tree, store, file, modules[0].module, depth, later, other_module);
        lemma_resolve_repeats(tree, first.store, modules.drop_first(), depth, later, other_module);
        let first_again = visit_of(tree, later, file, other_module, depth);
        let rest_again = replay_of(tree, later, files.drop_first(), other_module, depth);
        lemma_keys_concat(first.visits, rest.visits);
        lemma_keys_concat(first_again.visits, rest_again.visits);
        assert(again == rest_again.after(first_again));
    }
}

/// Idempotence. A pass that went well and visited no file twice is repeated
/// by a second pass over the same files from the cache that the first pass
/// left: the same registrations in the same order, the same cache, and no file
/// scanned.
pub proof fn law_idempotence(
    tree: Map<Seq<char>, FileModel>,
    store: Map<Seq<char>, EntryModel>,
    root: Seq<Seq<char>>,
    module: Seq<Seq<char>>,
    depth: nat,
)
    requires
        module.len() > 0,
        pass_of(tree, store, root, module, depth).end is Done,
        keys_of(pass_of(tree, store, root, module, depth).visits).no_duplicates(),
    ensures
        ({
            let first = pass_of(tree, store, root, module, depth);
            let second = pass_of(tree, first.store, root, module, depth);
            &&& second.end is Done
            &&& second.emitted == first.emitted
            &&& second.store == first.store
            &&& none_scanned(second.visits)
        }),
{
    let first = pass_of(tree, store, root, module, depth);
    lemma_visit_repeats(tree, store, normalized(root), module, depth, first.store, module);
}

/// Deterministic ordering. A pass from an empty cache and the pass that
/// follows it from the cache it left emit the same registrations in the same
/// order, where the first went well and visited no file twice.
pub proof fn law_cold_and_warm_agree(
    tree: Map<Seq<char>, FileModel>,
    root: Seq<Seq<char>>,
    module: Seq<Seq<char>>,
    depth: nat,
)
    requires
        module.len() > 0,
        pass_of(tree, Map::empty(), root, module, depth).end is Done,
        keys_of(pass_of(tree, Map::empty(), root, module, depth).visits).no_duplicates(),
    ensures
        ({
            let cold = pass_of(tree, Map::empty(), root, module, depth);
            let warm = pass_of(tree, cold.store, root, module, depth);
            warm.end is Done && warm.emitted == cold.emitted
        }),
{
    law_idempotence(tree, Map::empty(), root, module, depth);
}

/// Cache correctness. A file whose entry is well formed and bears the file's
/// modification time is not scanned: the visit registers the declarations
/// that the entry recorded, in their order and before all that the visits of
/// the files it refers to register, and where the visit goes
/// well and visits no file twice, no visit in it scans the file and the entry
/// is in the cache afterwards as it was before.
pub proof fn law_fresh_entry_is_reused(
    tree: Map<Seq<char>, FileModel>,
    store: Map<Seq<char>, EntryModel>,
    file: Seq<Seq<char>>,
    module: Seq<Seq<char>>,
    depth: nat,
)
    requires
        depth > 0,
        tree.contains_key(path_text(file)),
        store.contains_key(path_text(file)),
        store[path_text(file)].well_formed(),
        store[path_text(file)].last_modified == tree[path_text(file)].modified,
    ensures
        ({
            let key = path_text(file);
            let out = visit_of(tree, store, file, module, depth);
            &&& out.visits.len() > 0
            &&& out.visits[0] == VisitModel { key, scanned: false }
            &&& out.emitted == registrations_of(store[key].fn_paths) + replay_of(
                tree,
                store.remove(key),
                store[key].referenced_files,
                store[key].module,
                (depth - 1) as nat,
            ).emitted
            &&& out.end is Done && keys_of(out.visits).no_duplicates() ==> {
                &&& out.store.contains_key(key)
                &&& out.store[key] == store[key]
                &&& forall|i: int|
                    0 <= i < out.visits.len() && (#[trigger] out.visits[i]).key == key
                        ==> !out.visits[i].scanned
            }
        }),
{
    let key = path_text(file);
    let out = visit_of(tree, store, file, module, depth);
    let entry = store[key];
    let inner = replay_of(
        tree,
        store.remove(key),
        entry.referenced_files,
        entry.module,
        (depth - 1) as nat,
    );
    let own = seq![VisitModel { key, scanned: false }];
    assert(out.visits == own + inner.visits);
    assert(out.emitted == registrations_of(entry.fn_paths) + inner.emitted);
    if out.end is Done && keys_of(out.visits).no_duplicates() {
        lemma_keys_concat(own, inner.visits);
        assert(keys_of(out.visits)[0] == key);
        assert forall|i: int|
            0 <= i < out.visits.len() && (#[trigger] out.visits[i]).key == key implies !out.visits[i].scanned by {
            if i != 0 {
                assert(keys_of(out.visits)[i] == key);
            }
        }
    }
}

/// Whether the cache holds, for each listed file, an entry that bears the
/// modification time that the file has in the tree.
pub open spec fn valid_on(
    tree: Map<Seq<char>, FileModel>,
    store: Map<Seq<char>, EntryModel>,
    keys: Seq<Seq<char>>,
) -> bool {
    forall|key: Seq<char>| #[trigger]
        keys.contains(key) ==> tree.contains_key(key) && store.contains_key(key)
            && store[key].last_modified == tree[key].modified
}

/// The entries that were valid after the first of two runs of visits are
/// valid after both, where no file was visited twice.
pub proof fn lemma_valid_beside(
    tree: Map<Seq<char>, FileModel>,
    first: Outcome,
    rest: Outcome,
)
    requires
        same_outside(first.store, rest.store, keys_of(rest.visits)),
        keys_of(first.visits + rest.visits).no_duplicates(),
        valid_on(tree, first.store, keys_of(first.visits)),
        valid_on(tree, rest.store, keys_of(rest.visits)),
    ensures
        keys_of(first.visits).no_duplicates(),
        keys_of(rest.visits).no_duplicates(),
        valid_on(tree, rest.store, keys_of(first.visits + rest.visits)),
{
    lemma_keys_concat(first.visits, rest.visits);
    lemma_distinct_split(keys_of(first.visits), keys_of(rest.visits));
    assert forall|key: Seq<char>| #[trigger]
        keys_of(first.visits + rest.visits).contains(key) implies tree.contains_key(key)
        && rest.store.contains_key(key) && rest.store[key].last_modified
        == tree[key].modified by {
        if keys_of(first.visits).contains(key) {
            assert(!keys_of(rest.visits).contains(key));
        } else {
            assert(keys_of(rest.visits).contains(key));
        }
    }
}

/// The entries that were valid after the children of a visit are valid after
/// the visit, and so is the entry of the visited file, where no file was
/// visited twice.
pub proof fn lemma_valid_around(
    tree: Map<Seq<char>, FileModel>,
    inner: Outcome,
    out: Outcome,
    key: Seq<char>,
    entry: EntryModel,
    own: Seq<VisitModel>,
)
    requires
        own.len() == 1,
        own[0].key == key,
        out.visits == own + inner.visits,
        out.store == inner.store.insert(key, entry),
        keys_of(out.visits).no_duplicates(),
        tree.contains_key(key),
        entry.last_modified == tree[key].modified,
        keys_of(inner.visits).no_duplicates() ==> valid_on(
            tree,
            inner.store,
            keys_of(inner.visits),
        ),
    ensures
        keys_of(inner.visits).no_duplicates(),
        valid_on(tree, out.store, keys_of(out.visits)),
{
    lemma_keys_concat(own, inner.visits);
    lemma_distinct_split(keys_of(own), keys_of(inner.visits));
    assert(keys_of(own)[0] == key);
    assert(keys_of(own).contains(key));
    assert forall|other: Seq<char>| #[trigger]
        keys_of(out.visits).contains(other) implies tree.contains_key(other)
        && out.store.contains_key(other) && out.store[other].last_modified
        == tree[other].modified by {
        if keys_of(inner.visits).contains(other) {
            assert(other != key);
        } else {
            assert(keys_of(own).contains(other));
            let i = choose|i: int| 0 <= i < keys_of(own).len() && keys_of(own)[i] == other;
            assert(other == key);
        }
    }
}

/// After a visit that went well and visited no file twice, the entry of every
/// file that was visited bears the modification time of the file.
pub proof fn lemma_visit_settles(
    tree: Map<Seq<char>, FileModel>,
    store: Map<Seq<char>, EntryModel>,
    file: Seq<Seq<char>>,
    module: Seq<Seq<char>>,
    depth: nat,
)
    requires
        visit_of(tree, store, file, module, depth).end is Done,
        keys_of(visit_of(tree, store, file, module, depth).visits).no_duplicates(),
    ensures
        valid_on(
            tree,
            visit_of(tree, store, file, module, depth).store,
            keys_of(visit_of(tree, store, file, module, depth).visits),
        ),
    decreases depth, 1nat,
{
    let out = visit_of(tree, store, file, module, depth);
    let key = path_text(file);
    assert(depth > 0 && tree.contains_key(key));
    if store.contains_key(key) {
        let entry = store[key];
        let taken = store.remove(key);
        assert(entry.well_formed());
        if entry.last_modified == tree[key].modified {
            let inner = replay_of(
                tree,
                taken,
                entry.referenced_files,
                entry.module,
                (depth - 1) as nat,
            );
            let own = seq![VisitModel { key, scanned: false }];
            if keys_of(inner.visits).no_duplicates() {
                lemma_replay_settles(
                    tree,
                    taken,
                    entry.referenced_files,
                    entry.module,
                    (depth - 1) as nat,
                );
            }
            lemma_valid_around(tree, inner, out, key, entry, own);
        } else {
            lemma_scan_settles(tree, taken, file, entry.module, entry.search_directory, depth);
        }
    } else {
        lemma_scan_settles(tree, store, file, module, search_directory_of(file), depth);
    }
}

/// After a scan that went well and visited no file twice, the entry of every
/// file that was visited bears the modification time of the file.
pub proof fn lemma_scan_settles(
    tree: Map<Seq<char>, FileModel>,
    store: Map<Seq<char>, EntryModel>,
    file: Seq<Seq<char>>,
    module: Seq<Seq<char>>,
    directory: Seq<Seq<char>>,
    depth: nat,
)
    requires
        tree.contains_key(path_text(file)),
        scan_file_of(tree, store, file, module, directory, depth).end is Done,
        keys_of(scan_file_of(tree, store, file, module, directory, depth).visits).no_duplicates(),
    ensures
        valid_on(
            tree,
            scan_file_of(tree, store, file, module, directory, depth).store,
            keys_of(scan_file_of(tree, store, file, module, directory, depth).visits),
        ),
    decreases depth, 0nat,
{
    let out = scan_file_of(tree, store, file, module, directory, depth);
    let key = path_text(file);
    match tree[key].content {
        ContentModel::Items(items) => {
            let found = scan_of(items, module, directory);
            let inner = resolve_of(tree, store, found.modules, (depth - 1) as nat);
            let entry = EntryModel {
                last_modified: tree[key].modified,
                module,
                search_directory: directory,
                fn_paths: found.declarations,
                referenced_files: candidates_of(tree, found.modules),
            };
            let own = seq![VisitModel { key, scanned: true }];
            if keys_of(inner.visits).no_duplicates() {
                lemma_resolve_settles(tree, store, found.modules, (depth - 1) as nat);
            }
            lemma_valid_around(tree, inner, out, key, entry, own);
        },
        _ => {},
    }
}

/// After visits of a fresh entry's files that went well and visited no file
/// twice, the entry of every file that was visited bears the modification time
/// of the file.
pub proof fn lemma_replay_settles(
    tree: Map<Seq<char>, FileModel>,
    store: Map<Seq<char>, EntryModel>,
    files: Seq<Seq<Seq<char>>>,
    module: Seq<Seq<char>>,
    depth: nat,
)
    requires
        replay_of(tree, store, files, module, depth).end is Done,
        keys_of(replay_of(tree, store, files, module, depth).visits).no_duplicates(),
    ensures
        valid_on(
            tree,
            replay_of(tree, store, files, module, depth).store,
            keys_of(replay_of(tree, store, files, module, depth).visits),
        ),
    decreases depth, files.len() + 2,
{
    if files.len() > 0 {
        let file = normalized(files[0]);
        let first = visit_of(tree, store, file, module, depth);
        let rest = replay_of(tree, first.store, files.drop_first(), module, depth);
        lemma_keys_concat(first.visits, rest.visits);
        lemma_distinct_split(keys_of(first.visits), keys_of(rest.visits));
        lemma_replay_frame(tree, first.store, files.drop_first(), module, depth);
        lemma_visit_settles(tree, store, file, module, depth);
        lemma_replay_settles(tree, first.store, files.drop_first(), module, depth);
        lemma_valid_beside(tree, first, rest);
    }
}

/// After visits of external modules that went well and visited no file twice,
/// the entry of every file that was visited bears the modification time of the
/// file.
pub proof fn lemma_resolve_settles(
    tree: Map<Seq<char>, FileModel>,
    store: Map<Seq<char>, EntryModel>,
    modules: Seq<ModuleReferenceModel>,
    depth: nat,
)
    requires
        resolve_of(tree, store, modules, depth).end is Done,
        keys_of(resolve_of(tree, store, modules, depth).visits).no_duplicates(),
    ensures
        valid_on(
            tree,
            resolve_of(tree, store, modules, depth).store,
            keys_of(resolve_of(tree, store, modules, depth).visits),
        ),
    decreases depth, modules.len() + 2,
{
    if modules.len() > 0 {
        let file = normalized(candidate_of(tree, modules[0]));
        let visit = visit_of(tree, store, file, modules[0].module, depth);
        let first = Outcome { steps: visit.steps + 1, ..visit };
        let rest = resolve_of(tree, first.store, modules.drop_first(), depth);
        lemma_keys_concat(first.visits, rest.visits);
        lemma_distinct_split(keys_of(first.visits), keys_of(rest.visits));
        lemma_resolve_frame(tree, first.store, modules.drop_first(), depth);
        lemma_visit_settles(tree, store, file, modules[0].module, depth);
        lemma_resolve_settles(tree, first.store, modules.drop_first(), depth);
        lemma_valid_beside(tree, first, rest);
    }
}

/// Validity. After a pass that went well and visited no file twice, the cache
/// holds an entry for every file that was visited, and each of these entries
/// bears the modification time that its file has.
pub proof fn law_visited_entries_are_valid(
    tree: Map<Seq<char>, FileModel>,
    store: Map<Seq<char>, EntryModel>,
    root: Seq<Seq<char>>,
    module: Seq<Seq<char>>,
    depth: nat,
)
    requires
        pass_of(tree, store, root, module, depth).end is Done,
        keys_of(pass_of(tree, store, root, module, depth).visits).no_duplicates(),
    ensures
        valid_on(
            tree,
            pass_of(tree, store, root, module, depth).store,
            keys_of(pass_of(tree, store, root, module, depth).visits),
        ),
{
    lemma_visit_settles(tree, store, normalized(root), module, depth);
}

/// Whether the cache holds a well-formed entry of the file `key` that bears
/// the modification time that the file has in the tree.
pub open spec fn fresh_in(
    tree: Map<Seq<char>, FileModel>,
    store: Map<Seq<char>, EntryModel>,
    key: Seq<char>,
) -> bool {
    &&& tree.contains_key(key)
    &&& store.contains_key(key)
    &&& store[key].well_formed()
    &&& store[key].last_modified == tree[key].modified
}

/// Whether no visit of the file `key` scanned it.
pub open spec fn spared(visits: Seq<VisitModel>, key: Seq<char>) -> bool {
    forall|i: int| 0 <= i < visits.len() && (#[trigger] visits[i]).key == key ==> !visits[i].scanned
}

/// A file that is spared by each of two runs of visits is spared by both.
pub proof fn lemma_spared_concat(first: Seq<VisitModel>, rest: Seq<VisitModel>, key: Seq<char>)
    requires
        spared(first, key),
        spared(rest, key),
    ensures
        spared(first + rest, key),
{
    assert forall|i: int|
        0 <= i < (first + rest).len() && (#[trigger] (first + rest)[i]).key == key implies !(first
        + rest)[i].scanned by {
        if i < first.len() {
            assert((first + rest)[i] == first[i]);
        } else {
            assert((first + rest)[i] == rest[i - first.len()]);
        }
    }
}

/// A file that no visit visited is spared.
pub proof fn lemma_spared_outside(visits: Seq<VisitModel>, key: Seq<char>)
    requires
        !keys_of(visits).contains(key),
    ensures
        spared(visits, key),
{
    assert forall|i: int| 0 <= i < visits.len() && (#[trigger] visits[i]).key == key implies !visits[i].scanned by {
        assert(keys_of(visits)[i] == key);
    }
}

/// A file whose entry is fresh when a visit begins is not scanned in that
/// visit, where the visit goes well and visits no file twice.
pub proof fn lemma_visit_spares(
    tree: Map<Seq<char>, FileModel>,
    store: Map<Seq<char>, EntryModel>,
    file: Seq<Seq<char>>,
    module: Seq<Seq<char>>,
    depth: nat,
    fresh: Seq<char>,
)
    requires
        fresh_in(tree, store, fresh),
        visit_of(tree, store, file, module, depth).end is Done,
        keys_of(visit_of(tree, store, file, module, depth).visits).no_duplicates(),
    ensures
        spared(visit_of(tree, store, file, module, depth).visits, fresh),
    decreases depth, 1nat,
{
    let out = visit_of(tree, store, file, module, depth);
    let key = path_text(file);
    assert(depth > 0 && tree.contains_key(key));
    if store.contains_key(key) {
        let entry = store[key];
        let taken = store.remove(key);
        assert(entry.well_formed());
        if entry.last_modified == tree[key].modified {
            let inner = replay_of(
                tree,
                taken,
                entry.referenced_files,
                entry.module,
                (depth - 1) as nat,
            );
            let own = seq![VisitModel { key, scanned: false }];
            lemma_keys_concat(own, inner.visits);
            lemma_distinct_split(keys_of(own), keys_of(inner.visits));
            assert(keys_of(own)[0] == key);
            assert(keys_of(own).contains(key));
            if key == fresh {
                lemma_spared_outside(inner.visits, fresh);
            } else {
                lemma_replay_spares(
                    tree,
                    taken,
                    entry.referenced_files,
                    entry.module,
                    (depth - 1) as nat,
                    fresh,
                );
            }
            lemma_spared_concat(own, inner.visits, fresh);
        } else {
            lemma_scan_spares(
                tree,
                taken,
                file,
                entry.module,
                entry.search_directory,
                depth,
                fresh,
            );
        }
    } else {
        lemma_scan_spares(tree, store, file, module, search_directory_of(file), depth, fresh);
    }
}

/// A file whose entry is fresh when the scan of another file begins is not
/// scanned in the visits that follow from that scan, where they go well and
/// visit no file twice.
pub proof fn lemma_scan_spares(
    tree: Map<Seq<char>, FileModel>,
    store: Map<Seq<char>, EntryModel>,
    file: Seq<Seq<char>>,
    module: Seq<Seq<char>>,
    directory: Seq<Seq<char>>,
    depth: nat,
    fresh: Seq<char>,
)
    requires
        fresh_in(tree, store, fresh),
        fresh != path_text(file),
        tree.contains_key(path_text(file)),
        scan_file_of(tree, store, file, module, directory, depth).end is Done,
        keys_of(scan_file_of(tree, store, file, module, directory, depth).visits).no_duplicates(),
    ensures
        spared(scan_file_of(tree, store, file, module, directory, depth).visits, fresh),
    decreases depth, 0nat,
{
    let key = path_text(file);
    match tree[key].content {
        ContentModel::Items(items) => {
            let found = scan_of(items, module, directory);
            let inner = resolve_of(tree, store, found.modules, (depth - 1) as nat);
            let own = seq![VisitModel { key, scanned: true }];
            lemma_keys_concat(own, inner.visits);
            lemma_distinct_split(keys_of(own), keys_of(inner.visits));
            lemma_resolve_spares(tree, store, found.modules, (depth - 1) as nat, fresh);
            lemma_spared_concat(own, inner.visits, fresh);
        },
        _ => {},
    }
}

/// A file whose entry is fresh when visits of a fresh entry's files begin is
/// not scanned in them, where they go well and visit no file twice.
pub proof fn lemma_replay_spares(
    tree: Map<Seq<char>, FileModel>,
    store: Map<Seq<char>, EntryModel>,
    files: Seq<Seq<Seq<char>>>,
    module: Seq<Seq<char>>,
    depth: nat,
    fresh: Seq<char>,
)
    requires
        fresh_in(tree, store, fresh),
        replay_of(tree, store, files, module, depth).end is Done,
        keys_of(replay_of(tree, store, files, module, depth).visits).no_duplicates(),
    ensures
        spared(replay_of(tree, store, files, module, depth).visits, fresh),
    decreases depth, files.len() + 2,
{
    if files.len() > 0 {
        let file = normalized(files[0]);
        let first = visit_of(tree, store, file, module, depth);
        let rest = replay_of(tree, first.store, files.drop_first(), module, depth);
        lemma_keys_concat(first.visits, rest.visits);
        lemma_distinct_split(keys_of(first.visits), keys_of(rest.visits));
        lemma_visit_spares(tree, store, file, module, depth, fresh);
        if keys_of(first.visits).contains(fresh) {
            lemma_spared_outside(rest.visits, fresh);
        } else {
            lemma_visit_frame(tree, store, file, module, depth);
            lemma_replay_spares(tree, first.store, files.drop_first(), module, depth, fresh);
        }
        lemma_spared_concat(first.visits, rest.visits, fresh);
    }
}

/// A file whose entry is fresh when visits of external modules begin is not
/// scanned in them, where they go well and visit no file twice.
pub proof fn lemma_resolve_spares(
    tree: Map<Seq<char>, FileModel>,
    store: Map<Seq<char>, EntryModel>,
    modules: Seq<ModuleReferenceModel>,
    depth: nat,
    fresh: Seq<char>,
)
    requires
        fresh_in(tree, store, fresh),
        resolve_of(tree, store, modules, depth).end is Done,
        keys_of(resolve_of(tree, store, modules, depth).visits).no_duplicates(),
    ensures
        spared(resolve_of(tree, store, modules, depth).visits, fresh),
    decreases depth, modules.len() + 2,
{
    if modules.len() > 0 {
        let file = normalized(candidate_of(tree, modules[0]));
        let visit = visit_of(tree, store, file, modules[0].module, depth);
        let first = Outcome { steps: visit.steps + 1, ..visit };
        let rest = resolve_of(tree, first.store, modules.drop_first(), depth);
        lemma_keys_concat(first.visits, rest.visits);
        lemma_distinct_split(keys_of(first.visits), keys_of(rest.visits));
        lemma_visit_spares(tree, store, file, modules[0].module, depth, fresh);
        if keys_of(first.visits).contains(fresh) {
            lemma_spared_outside(rest.visits, fresh);
        } else {
            lemma_visit_frame(tree, store, file, modules[0].module, depth);
            lemma_resolve_spares(tree, first.store, modules.drop_first(), depth, fresh);
        }
        lemma_spared_concat(first.visits, rest.visits, fresh);
    }
}

/// Cache correctness, of a whole pass. A file of which the cache holds a
/// well-formed entry that bears the file's modification time is not scanned
/// by a pass that goes well and visits no file twice.
pub proof fn law_fresh_files_are_not_scanned(
    tree: Map<Seq<char>, FileModel>,
    store: Map<Seq<char>, EntryModel>,
    root: Seq<Seq<char>>,
    module: Seq<Seq<char>>,
    depth: nat,
    fresh: Seq<char>,
)
    requires
        fresh_in(tree, store, fresh),
        pass_of(tree, store, root, module, depth).end is Done,
        keys_of(pass_of(tree, store, root, module, depth).visits).no_duplicates(),
    ensures
        spared(pass_of(tree, store, root, module, depth).visits, fresh),
{
    lemma_visit_spares(tree, store, normalized(root), module, depth, fresh);
}

} // verus!
