//! What the pass after a change of one file's modification time keeps: the
//! registrations, and every entry of the cache but the time of the one.

use vstd::prelude::*;
use crate::cache::{EntryModel, Timestamp};
use crate::declaration::registrations_of;
use crate::invalidation::{
    is_leaf_content, leaf_recorded, lemma_agrees_after, lemma_leaf_beside, lemma_leaf_visit,
    lemma_replay_touched, lemma_resolve_touched, lemma_scan_touched, lemma_visit_touched, touch,
};
use crate::laws::{
    agrees_on, keys_of, law_visited_entries_are_valid, lemma_agrees_beside, lemma_agrees_inside,
    lemma_distinct_split, lemma_keys_concat, lemma_replay_frame, lemma_resolve_frame,
    lemma_scan_named, lemma_visit_frame, modules_named,
};
use crate::model::{
    candidate_of, candidates_of, pass_of, replay_of, resolve_of, scan_file_of, visit_of,
    ContentModel, FileModel, Outcome,
};
use crate::pass::VisitModel;
use crate::path::{normalized, path_text, search_directory_of};
use crate::scan::{scan_of, ModuleReferenceModel};

verus! {

/// Whether an entry of the file `leaf` records what a scan of the file finds
/// where the entry says the file stands, and refers to no file.
pub open spec fn records_leaf(
    tree: Map<Seq<char>, FileModel>,
    entry: EntryModel,
    leaf: Seq<char>,
) -> bool {
    &&& tree[leaf].content matches ContentModel::Items(items) && entry.fn_paths == scan_of(
        items,
        entry.module,
        entry.search_directory,
    ).declarations
    &&& entry.referenced_files.len() == 0
}

/// Whether the cache holds no entry of `leaf` or one that records the file.
pub open spec fn leaf_kept(
    tree: Map<Seq<char>, FileModel>,
    store: Map<Seq<char>, EntryModel>,
    leaf: Seq<char>,
) -> bool {
    store.contains_key(leaf) ==> records_leaf(tree, store[leaf], leaf)
}

/// The cache with the time of the entry of `leaf` set to `time`, where `leaf`
/// is among the listed files, and the cache as it is where it is not.
pub open spec fn touched_store(
    store: Map<Seq<char>, EntryModel>,
    keys: Seq<Seq<char>>,
    leaf: Seq<char>,
    time: Timestamp,
) -> Map<Seq<char>, EntryModel> {
    if keys.contains(leaf) {
        store.insert(leaf, EntryModel { last_modified: time, ..store[leaf] })
    } else {
        store
    }
}

/// Whether `again` emitted what `first` emitted and left the cache `later`
/// with nothing changed but the time of the entry of `leaf`.
pub open spec fn keeps(
    again: Outcome,
    first: Outcome,
    later: Map<Seq<char>, EntryModel>,
    leaf: Seq<char>,
    time: Timestamp,
) -> bool {
    &&& again.emitted == first.emitted
    &&& again.store == touched_store(later, keys_of(first.visits), leaf, time)
}

/// A visit that goes well leaves an entry of `leaf` that records the file,
/// where it found none or one that records it.
pub proof fn lemma_visit_records(
    tree: Map<Seq<char>, FileModel>,
    store: Map<Seq<char>, EntryModel>,
    file: Seq<Seq<char>>,
    module: Seq<Seq<char>>,
    depth: nat,
    leaf: Seq<char>,
)
    requires
        tree.contains_key(leaf),
        is_leaf_content(tree[leaf].content),
        leaf_kept(tree, store, leaf),
        visit_of(tree, store, file, module, depth).end is Done,
    ensures
        leaf_kept(tree, visit_of(tree, store, file, module, depth).store, leaf),
    decreases depth, 1nat,
{
    let key = path_text(file);
    assert(depth > 0 && tree.contains_key(key));
    if store.contains_key(key) {
        let entry = store[key];
        let taken = store.remove(key);
        assert(entry.well_formed());
        if entry.last_modified == tree[key].modified {
            lemma_replay_records(
                tree,
                taken,
                entry.referenced_files,
                entry.module,
                (depth - 1) as nat,
                leaf,
            );
        } else {
            lemma_scan_records(tree, taken, file, entry.module, entry.search_directory, depth, leaf);
        }
    } else {
        lemma_scan_records(tree, store, file, module, search_directory_of(file), depth, leaf);
    }
}

/// A scan that goes well leaves an entry of `leaf` that records the file,
/// where it found none or one that records it.
pub proof fn lemma_scan_records(
    tree: Map<Seq<char>, FileModel>,
    store: Map<Seq<char>, EntryModel>,
    file: Seq<Seq<char>>,
    module: Seq<Seq<char>>,
    directory: Seq<Seq<char>>,
    depth: nat,
    leaf: Seq<char>,
)
    requires
        tree.contains_key(leaf),
        is_leaf_content(tree[leaf].content),
        leaf_kept(tree, store, leaf),
        tree.contains_key(path_text(file)),
        scan_file_of(tree, store, file, module, directory, depth).end is Done,
    ensures
        leaf_kept(tree, scan_file_of(tree, store, file, module, directory, depth).store, leaf),
    decreases depth, 0nat,
{
    let key = path_text(file);
    match tree[key].content {
        ContentModel::Items(items) => {
            let found = scan_of(items, module, directory);
            lemma_resolve_records(tree, store, found.modules, (depth - 1) as nat, leaf);
            if key == leaf {
                assert(found.modules.len() == 0);
            }
        },
        _ => {},
    }
}

/// Visits of a fresh entry's files that go well leave an entry of `leaf` that
/// records the file, where they found none or one that records it.
pub proof fn lemma_replay_records(
    tree: Map<Seq<char>, FileModel>,
    store: Map<Seq<char>, EntryModel>,
    files: Seq<Seq<Seq<char>>>,
    module: Seq<Seq<char>>,
    depth: nat,
    leaf: Seq<char>,
)
    requires
        tree.contains_key(leaf),
        is_leaf_content(tree[leaf].content),
        leaf_kept(tree, store, leaf),
        replay_of(tree, store, files, module, depth).end is Done,
    ensures
        leaf_kept(tree, replay_of(tree, store, files, module, depth).store, leaf),
    decreases depth, files.len() + 2,
{
    if files.len() > 0 {
        let file = normalized(files[0]);
        let first = visit_of(tree, store, file, module, depth);
        lemma_visit_records(tree, store, file, module, depth, leaf);
        lemma_replay_records(tree, first.store, files.drop_first(), module, depth, leaf);
    }
}

/// Visits of external modules that go well leave an entry of `leaf` that
/// records the file, where they found none or one that records it.
pub proof fn lemma_resolve_records(
    tree: Map<Seq<char>, FileModel>,
    store: Map<Seq<char>, EntryModel>,
    modules: Seq<ModuleReferenceModel>,
    depth: nat,
    leaf: Seq<char>,
)
    requires
        tree.contains_key(leaf),
        is_leaf_content(tree[leaf].content),
        leaf_kept(tree, store, leaf),
        resolve_of(tree, store, modules, depth).end is Done,
    ensures
        leaf_kept(tree, resolve_of(tree, store, modules, depth).store, leaf),
    decreases depth, modules.len() + 2,
{
    if modules.len() > 0 {
        let file = normalized(candidate_of(tree, modules[0]));
        let visit = visit_of(tree, store, file, modules[0].module, depth);
        lemma_visit_records(tree, store, file, modules[0].module, depth, leaf);
        lemma_resolve_records(tree, visit.store, modules.drop_first(), depth, leaf);
    }
}

/// The visit of the touched file itself, whose entry records it: the visit
/// registers what the entry holds and changes nothing of the entry but its
/// time.
pub proof fn lemma_leaf_visit_keeps(
    tree: Map<Seq<char>, FileModel>,
    time: Timestamp,
    file: Seq<Seq<char>>,
    depth: nat,
    later: Map<Seq<char>, EntryModel>,
    other_module: Seq<Seq<char>>,
)
    requires
        depth > 0,
        tree.contains_key(path_text(file)),
        is_leaf_content(tree[path_text(file)].content),
        later.contains_key(path_text(file)),
        later[path_text(file)].well_formed(),
        records_leaf(tree, later[path_text(file)], path_text(file)),
    ensures
        ({
            let leaf = path_text(file);
            let again = visit_of(touch(tree, leaf, time), later, file, other_module, depth);
            &&& again.emitted == registrations_of(later[leaf].fn_paths)
            &&& again.store == later.insert(
                leaf,
                EntryModel { last_modified: time, ..later[leaf] },
            )
        }),
{
    let leaf = path_text(file);
    let after = touch(tree, leaf, time);
    let again = visit_of(after, later, file, other_module, depth);
    let entry = later[leaf];
    let taken = later.remove(leaf);
    let kept = EntryModel { last_modified: time, ..entry };
    assert(after.contains_key(leaf));
    assert(after[leaf].modified == time);
    if entry.last_modified != time {
        let items = tree[leaf].content->Items_0;
        let found = scan_of(items, entry.module, entry.search_directory);
        assert(found.modules.len() == 0);
        assert(again == scan_file_of(
            after,
            taken,
            file,
            entry.module,
            entry.search_directory,
            depth,
        ));
        assert(candidates_of(after, found.modules) =~= entry.referenced_files);
        assert(again.emitted =~= registrations_of(entry.fn_paths));
        assert(again.store =~= later.insert(leaf, kept));
    } else {
        assert(entry.referenced_files =~= Seq::empty());
        assert(again.emitted =~= registrations_of(entry.fn_paths));
        assert(kept == entry);
        assert(again.store =~= later.insert(leaf, kept));
    }
}

/// After a touch of `leaf`, a visit that had gone well and visited no file
/// twice is done over with the same registrations, and the cache is left with
/// nothing changed but the time of the entry of `leaf`.
pub proof fn lemma_visit_keeps(
    tree: Map<Seq<char>, FileModel>,
    leaf: Seq<char>,
    time: Timestamp,
    store: Map<Seq<char>, EntryModel>,
    file: Seq<Seq<char>>,
    module: Seq<Seq<char>>,
    depth: nat,
    later: Map<Seq<char>, EntryModel>,
    other_module: Seq<Seq<char>>,
    stale: bool,
)
    requires
        module.len() > 0,
        tree.contains_key(leaf),
        is_leaf_content(tree[leaf].content),
        visit_of(tree, store, file, module, depth).end is Done,
        keys_of(visit_of(tree, store, file, module, depth).visits).no_duplicates(),
        agrees_on(
            later,
            visit_of(tree, store, file, module, depth).store,
            keys_of(visit_of(tree, store, file, module, depth).visits),
        ),
        leaf_recorded(visit_of(tree, store, file, module, depth), leaf, time, stale),
        leaf_kept(tree, later, leaf),
    ensures
        keeps(
            visit_of(touch(tree, leaf, time), later, file, other_module, depth),
            visit_of(tree, store, file, module, depth),
            later,
            leaf,
            time,
        ),
    decreases depth, 1nat,
{
    let after = touch(tree, leaf, time);
    let out = visit_of(tree, store, file, module, depth);
    let again = visit_of(after, later, file, other_module, depth);
    let key = path_text(file);
    assert(depth > 0 && tree.contains_key(key));
    if store.contains_key(key) {
        let entry = store[key];
        let taken = store.remove(key);
        assert(entry.well_formed());
        if entry.last_modified == tree[key].modified {
            let inner = replay_of(
                tree,
                taken,
                entry.referenced_files,
                entry.module,
                (depth - 1) as nat,
            );
            let own = seq![VisitModel { key, scanned: false }];
            lemma_agrees_inside(later, inner, out, key, entry, own);
            lemma_keys_concat(own, inner.visits);
            assert(keys_of(own)[0] == key);
            if key == leaf {
                assert(keys_of(out.visits).contains(leaf));
                assert(inner.emitted =~= Seq::empty());
                lemma_leaf_visit_keeps(tree, time, file, depth, later, other_module);
                assert(out.emitted =~= registrations_of(entry.fn_paths));
            } else {
                assert(after[key] == tree[key]);
                lemma_replay_touched(
                    tree,
                    leaf,
                    time,
                    taken,
                    entry.referenced_files,
                    entry.module,
                    (depth - 1) as nat,
                    later.remove(key),
                    entry.module,
                    stale,
                );
                lemma_replay_keeps(
                    tree,
                    leaf,
                    time,
                    taken,
                    entry.referenced_files,
                    entry.module,
                    (depth - 1) as nat,
                    later.remove(key),
                    entry.module,
                    stale,
                );
                assert(keys_of(own).contains(leaf) ==> keys_of(own)[0] == leaf);
                assert(again.store =~= touched_store(later, keys_of(out.visits), leaf, time));
            }
        } else {
            lemma_scan_keeps(
                tree,
                leaf,
                time,
                taken,
                file,
                entry.module,
                entry.search_directory,
                depth,
                later,
                other_module,
                stale,
            );
        }
    } else {
        lemma_scan_keeps(
            tree,
            leaf,
            time,
            store,
            file,
            module,
            search_directory_of(file),
            depth,
            later,
            other_module,
            stale,
        );
    }
}

/// After a touch of `leaf`, a scan that had gone well and visited no file
/// twice is done over by a visit with the same registrations, and the cache is
/// left with nothing changed but the time of the entry of `leaf`.
pub proof fn lemma_scan_keeps(
    tree: Map<Seq<char>, FileModel>,
    leaf: Seq<char>,
    time: Timestamp,
    store: Map<Seq<char>, EntryModel>,
    file: Seq<Seq<char>>,
    module: Seq<Seq<char>>,
    directory: Seq<Seq<char>>,
    depth: nat,
    later: Map<Seq<char>, EntryModel>,
    other_module: Seq<Seq<char>>,
    stale: bool,
)
    requires
        module.len() > 0,
        tree.contains_key(leaf),
        is_leaf_content(tree[leaf].content),
        tree.contains_key(path_text(file)),
        scan_file_of(tree, store, file, module, directory, depth).end is Done,
        keys_of(scan_file_of(tree, store, file, module, directory, depth).visits).no_duplicates(),
        agrees_on(
            later,
            scan_file_of(tree, store, file, module, directory, depth).store,
            keys_of(scan_file_of(tree, store, file, module, directory, depth).visits),
        ),
        leaf_recorded(
            scan_file_of(tree, store, file, module, directory, depth),
            leaf,
            time,
            stale,
        ),
        leaf_kept(tree, later, leaf),
    ensures
        keeps(
            visit_of(touch(tree, leaf, time), later, file, other_module, depth),
            scan_file_of(tree, store, file, module, directory, depth),
            later,
            leaf,
            time,
        ),
    decreases depth, 0nat,
{
    let after = touch(tree, leaf, time);
    let out = scan_file_of(tree, store, file, module, directory, depth);
    let again = visit_of(after, later, file, other_module, depth);
    let key = path_text(file);
    match tree[key].content {
        ContentModel::Items(items) => {
            let found = scan_of(items, module, directory);
            let inner = resolve_of(tree, store, found.modules, (depth - 1) as nat);
            let entry = EntryModel {
                last_modified: tree[key].modified,
                module,
                search_directory: directory,
                fn_paths: found.declarations,
                referenced_files: candidates_of(tree, found.modules),
            };
            let own = seq![VisitModel { key, scanned: true }];
            lemma_scan_named(items, module, directory);
            assert(entry.well_formed());
            lemma_agrees_inside(later, inner, out, key, entry, own);
            lemma_keys_concat(own, inner.visits);
            assert(keys_of(own)[0] == key);
            if key == leaf {
                assert(keys_of(out.visits).contains(leaf));
                assert(found.modules.len() == 0);
                assert(inner.emitted =~= Seq::empty());
                lemma_leaf_visit_keeps(tree, time, file, depth, later, other_module);
                assert(out.emitted =~= registrations_of(entry.fn_paths));
            } else {
                assert(after[key] == tree[key]);
                lemma_resolve_touched(
                    tree,
                    leaf,
                    time,
                    store,
                    found.modules,
                    (depth - 1) as nat,
                    later.remove(key),
                    module,
                    stale,
                );
                lemma_resolve_keeps(
                    tree,
                    leaf,
                    time,
                    store,
                    found.modules,
                    (depth - 1) as nat,
                    later.remove(key),
                    module,
                    stale,
                );
                assert(keys_of(own).contains(leaf) ==> keys_of(own)[0] == leaf);
                assert(again.store =~= touched_store(later, keys_of(out.visits), leaf, time));
            }
        },
        _ => {},
    }
}

/// What the cache that the first of two runs of visits left, done over, holds
/// of `leaf`, and what both runs together leave.
pub proof fn lemma_keeps_beside(
    tree: Map<Seq<char>, FileModel>,
    later: Map<Seq<char>, EntryModel>,
    first: Outcome,
    rest: Outcome,
    leaf: Seq<char>,
    time: Timestamp,
)
    requires
        keys_of(first.visits + rest.visits).no_duplicates(),
        leaf_kept(tree, later, leaf),
        keys_of(first.visits).contains(leaf) ==> later.contains_key(leaf),
    ensures
        leaf_kept(tree, touched_store(later, keys_of(first.visits), leaf, time), leaf),
        touched_store(
            touched_store(later, keys_of(first.visits), leaf, time),
            keys_of(rest.visits),
            leaf,
            time,
        ) == touched_store(later, keys_of(first.visits + rest.visits), leaf, time),
{
    lemma_keys_concat(first.visits, rest.visits);
    lemma_distinct_split(keys_of(first.visits), keys_of(rest.visits));
    let once = touched_store(later, keys_of(first.visits), leaf, time);
    let twice = touched_store(once, keys_of(rest.visits), leaf, time);
    assert(twice =~= touched_store(later, keys_of(first.visits + rest.visits), leaf, time));
}

/// After a touch of `leaf`, visits of a fresh entry's files that had gone well
/// and visited no file twice are done over with the same registrations, and
/// the cache is left with nothing changed but the time of the entry of `leaf`.
pub proof fn lemma_replay_keeps(
    tree: Map<Seq<char>, FileModel>,
    leaf: Seq<char>,
    time: Timestamp,
    store: Map<Seq<char>, EntryModel>,
    files: Seq<Seq<Seq<char>>>,
    module: Seq<Seq<char>>,
    depth: nat,
    later: Map<Seq<char>, EntryModel>,
    other_module: Seq<Seq<char>>,
    stale: bool,
)
    requires
        module.len() > 0,
        tree.contains_key(leaf),
        is_leaf_content(tree[leaf].content),
        replay_of(tree, store, files, module, depth).end is Done,
        keys_of(replay_of(tree, store, files, module, depth).visits).no_duplicates(),
        agrees_on(
            later,
            replay_of(tree, store, files, module, depth).store,
            keys_of(replay_of(tree, store, files, module, depth).visits),
        ),
        leaf_recorded(replay_of(tree, store, files, module, depth), leaf, time, stale),
        leaf_kept(tree, later, leaf),
    ensures
        keeps(
            replay_of(touch(tree, leaf, time), later, files, other_module, depth),
            replay_of(tree, store, files, module, depth),
            later,
            leaf,
            time,
        ),
    decreases depth, files.len() + 2,
{
    let after = touch(tree, leaf, time);
    let out = replay_of(tree, store, files, module, depth);
    let again = replay_of(after, later, files, other_module, depth);
    if files.len() == 0 {
        assert(keys_of(out.visits) =~= Seq::empty());
    } else {
        let file = normalized(files[0]);
        let first = visit_of(tree, store, file, module, depth);
        let rest = replay_of(tree, first.store, files.drop_first(), module, depth);
        lemma_replay_frame(tree, first.store, files.drop_first(), module, depth);
        lemma_agrees_beside(later, first, rest);
        lemma_leaf_beside(first, rest, leaf, time, stale);
        lemma_visit_touched(tree, leaf, time, store, file, module, depth, later, other_module, stale);
        lemma_visit_keeps(tree, leaf, time, store, file, module, depth, later, other_module, stale);
        let first_again = visit_of(after, later, file, other_module, depth);
        lemma_visit_frame(after, later, file, other_module, depth);
        lemma_agrees_after(later, first_again, first, rest);
        crate::laws::lemma_visit_settles(tree, store, file, module, depth);
        lemma_keeps_beside(tree, later, first, rest, leaf, time);
        lemma_replay_touched(
            tree,
            leaf,
            time,
            first.store,
            files.drop_first(),
            module,
            depth,
            first_again.store,
            other_module,
            stale,
        );
        lemma_replay_keeps(
            tree,
            leaf,
            time,
            first.store,
            files.drop_first(),
            module,
            depth,
            first_again.store,
            other_module,
            stale,
        );
        let rest_again = replay_of(
            after,
            first_again.store,
            files.drop_first(),
            other_module,
            depth,
        );
        assert(again == rest_again.after(first_again));
    }
}

/// After a touch of `leaf`, visits of external modules that had gone well and
/// visited no file twice are done over, by visits of the modules' files, with
/// the same registrations, and the cache is left with nothing changed but the
/// time of the entry of `leaf`.
pub proof fn lemma_resolve_keeps(
    tree: Map<Seq<char>, FileModel>,
    leaf: Seq<char>,
    time: Timestamp,
    store: Map<Seq<char>, EntryModel>,
    modules: Seq<ModuleReferenceModel>,
    depth: nat,
    later: Map<Seq<char>, EntryModel>,
    other_module: Seq<Seq<char>>,
    stale: bool,
)
    requires
        modules_named(modules),
        tree.contains_key(leaf),
        is_leaf_content(tree[leaf].content),
        resolve_of(tree, store, modules, depth).end is Done,
        keys_of(resolve_of(tree, store, modules, depth).visits).no_duplicates(),
        agrees_on(
            later,
            resolve_of(tree, store, modules, depth).store,
            keys_of(resolve_of(tree, store, modules, depth).visits),
        ),
        leaf_recorded(resolve_of(tree, store, modules, depth), leaf, time, stale),
        leaf_kept(tree, later, leaf),
    ensures
        keeps(
            replay_of(
                touch(tree, leaf, time),
                later,
                candidates_of(tree, modules),
                other_module,
                depth,
            ),
            resolve_of(tree, store, modules, depth),
            later,
            leaf,
            time,
        ),
    decreases depth, modules.len() + 2,
{
    let after = touch(tree, leaf, time);
    let out = resolve_of(tree, store, modules, depth);
    let files = candidates_of(tree, modules);
    let again = replay_of(after, later, files, other_module, depth);
    if modules.len() == 0 {
        assert(keys_of(out.visits) =~= Seq::empty());
    } else {
        let file = normalized(candidate_of(tree, modules[0]));
        let visit = visit_of(tree, store, file, modules[0].module, depth);
        let first = Outcome { steps: visit.steps + 1, ..visit };
        let rest = resolve_of(tree, first.store, modules.drop_first(), depth);
        assert(files.drop_first() =~= candidates_of(tree, modules.drop_first()));
        assert(modules_named(modules.drop_first())) by {
            assert forall|i: int| 0 <= i < modules.drop_first().len() implies (
            #[trigger] modules.drop_first()[i]).module.len() > 0 by {
                assert(modules.drop_first()[i] == modules[i + 1]);
            }
        }
        lemma_resolve_frame(tree, first.store, modules.drop_first(), depth);
        lemma_agrees_beside(later, first, rest);
        lemma_leaf_beside(first, rest, leaf, time, stale);
        lemma_visit_touched(
            tree,
            leaf,
            time,
            store,
            file,
            modules[0].module,
            depth,
            later,
            other_module,
            stale,
        );
        lemma_visit_keeps(
            tree,
            leaf,
            time,
            store,
            file,
            modules[0].module,
            depth,
            later,
            other_module,
            stale,
        );
        let first_again = visit_of(after, later, file, other_module, depth);
        lemma_visit_frame(after, later, file, other_module, depth);
        lemma_agrees_after(later, first_again, first, rest);
        crate::laws::lemma_visit_settles(tree, store, file, modules[0].module, depth);
        lemma_keeps_beside(tree, later, first, rest, leaf, time);
        lemma_resolve_touched(
            tree,
            leaf,
            time,
            first.store,
            modules.drop_first(),
            depth,
            first_again.store,
            other_module,
            stale,
        );
        lemma_resolve_keeps(
            tree,
            leaf,
            time,
            first.store,
            modules.drop_first(),
            depth,
            first_again.store,
            other_module,
            stale,
        );
        let rest_again = replay_of(
            after,
            first_again.store,
            files.drop_first(),
            other_module,
            depth,
        );
        assert(again == rest_again.after(first_again));
    }
}

/// Invalidation keeps what was found. Let a pass go well and visit no file
/// twice, from a cache that holds no entry of one file, or one that records
/// what the file holds; the file declares no external module. Let then the
/// modification time of that file change. The next pass, from the cache that
/// the first left, goes well, emits the same registrations in the same order,
/// and leaves the cache as the first did, but for the time that the entry of
/// that file bears: its declarations are kept, and so is every other entry.
pub proof fn law_touch_keeps_what_was_found(
    tree: Map<Seq<char>, FileModel>,
    store: Map<Seq<char>, EntryModel>,
    root: Seq<Seq<char>>,
    module: Seq<Seq<char>>,
    depth: nat,
    leaf: Seq<char>,
    time: Timestamp,
)
    requires
        module.len() > 0,
        tree.contains_key(leaf),
        is_leaf_content(tree[leaf].content),
        leaf_kept(tree, store, leaf),
        pass_of(tree, store, root, module, depth).end is Done,
        keys_of(pass_of(tree, store, root, module, depth).visits).no_duplicates(),
    ensures
        ({
            let first = pass_of(tree, store, root, module, depth);
            let second = pass_of(touch(tree, leaf, time), first.store, root, module, depth);
            &&& second.end is Done
            &&& second.emitted == first.emitted
            &&& second.store == touched_store(first.store, keys_of(first.visits), leaf, time)
        }),
{
    let first = pass_of(tree, store, root, module, depth);
    let stale = tree[leaf].modified != time;
    lemma_visit_records(tree, store, normalized(root), module, depth, leaf);
    law_visited_entries_are_valid(tree, store, root, module, depth);
    lemma_visit_touched(
        tree,
        leaf,
        time,
        store,
        normalized(root),
        module,
        depth,
        first.store,
        module,
        stale,
    );
    lemma_visit_keeps(
        tree,
        leaf,
        time,
        store,
        normalized(root),
        module,
        depth,
        first.store,
        module,
        stale,
    );
}

} // verus!
