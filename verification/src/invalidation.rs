//! What a change of one file's modification time does to the next pass.

use vstd::prelude::*;
use crate::cache::{EntryModel, Timestamp};
use crate::laws::{
    agrees_on, keys_of, law_visited_entries_are_valid, lemma_agrees_beside, lemma_agrees_inside,
    lemma_keys_concat,
    lemma_replay_frame, lemma_resolve_frame, lemma_scan_named, lemma_visit_frame, modules_named,
    same_outside,
};
use crate::model::{
    candidate_of, candidates_of, pass_of, replay_of, resolve_of, scan_file_of, visit_of,
    ContentModel, FileModel, Outcome,
};
use crate::pass::VisitModel;
use crate::path::{normalized, path_text, search_directory_of};
use crate::scan::{scan_of, ModuleReferenceModel};

verus! {

/// Whether a file declares no external module, wherever it stands.
pub open spec fn is_leaf_content(content: ContentModel) -> bool {
    content matches ContentModel::Items(items) && forall|
        module: Seq<Seq<char>>,
        directory: Seq<Seq<char>>,
    | (#[trigger] scan_of(items, module, directory)).modules.len() == 0
}

/// The tree after the file `leaf` got the modification time `time`, with its
/// content as it was.
pub open spec fn touch(tree: Map<Seq<char>, FileModel>, leaf: Seq<char>, time: Timestamp) -> Map<
    Seq<char>,
    FileModel,
> {
    tree.insert(leaf, FileModel { modified: time, content: tree[leaf].content })
}

/// Whether the visits scanned `leaf`, where `stale` holds, and nothing else.
pub open spec fn scans_only(visits: Seq<VisitModel>, leaf: Seq<char>, stale: bool) -> bool {
    forall|i: int|
        0 <= i < visits.len() ==> ((#[trigger] visits[i]).scanned <==> visits[i].key == leaf
            && stale)
}

/// Whether `again` is `first` done over with at most `leaf` scanned: it went
/// well and visited the same files.
pub open spec fn rescans_only(again: Outcome, first: Outcome, leaf: Seq<char>, stale: bool) -> bool {
    &&& again.end is Done
    &&& keys_of(again.visits) == keys_of(first.visits)
    &&& scans_only(again.visits, leaf, stale)
}

/// Whether the entry that `out` left of `leaf`, where it visited `leaf`, refers
/// to no file, and bears another time than `time` just where `stale` holds.
pub open spec fn leaf_recorded(out: Outcome, leaf: Seq<char>, time: Timestamp, stale: bool) -> bool {
    keys_of(out.visits).contains(leaf) && out.store.contains_key(leaf) ==> out.store[leaf].referenced_files.len()
        == 0 && (out.store[leaf].last_modified != time) == stale
}

/// Two runs of visits that each scanned at most `leaf` did so together.
pub proof fn lemma_scans_concat(
    first_again: Seq<VisitModel>,
    rest_again: Seq<VisitModel>,
    first: Seq<VisitModel>,
    rest: Seq<VisitModel>,
    leaf: Seq<char>,
    stale: bool,
)
    requires
        keys_of(first_again) == keys_of(first),
        keys_of(rest_again) == keys_of(rest),
        scans_only(first_again, leaf, stale),
        scans_only(rest_again, leaf, stale),
    ensures
        keys_of(first_again + rest_again) == keys_of(first + rest),
        scans_only(first_again + rest_again, leaf, stale),
{
    lemma_keys_concat(first_again, rest_again);
    lemma_keys_concat(first, rest);
}

/// The visit of the touched file itself, whose entry `entry` the cache holds:
/// the file is scanned where the entry is stale and not where it is fresh, and
/// nothing else is visited.
pub proof fn lemma_leaf_visit(
    tree: Map<Seq<char>, FileModel>,
    time: Timestamp,
    file: Seq<Seq<char>>,
    depth: nat,
    later: Map<Seq<char>, EntryModel>,
    other_module: Seq<Seq<char>>,
    stale: bool,
)
    requires
        depth > 0,
        tree.contains_key(path_text(file)),
        is_leaf_content(tree[path_text(file)].content),
        later.contains_key(path_text(file)),
        later[path_text(file)].well_formed(),
        later[path_text(file)].referenced_files.len() == 0,
        (later[path_text(file)].last_modified != time) == stale,
    ensures
        ({
            let again = visit_of(
                touch(tree, path_text(file), time),
                later,
                file,
                other_module,
                depth,
            );
            &&& again.end is Done
            &&& again.visits == seq![VisitModel { key: path_text(file), scanned: stale }]
        }),
{
    let leaf = path_text(file);
    let after = touch(tree, leaf, time);
    let again = visit_of(after, later, file, other_module, depth);
    let entry = later[leaf];
    let taken = later.remove(leaf);
    assert(after.contains_key(leaf));
    assert(after[leaf].modified == time);
    if stale {
        let items = tree[leaf].content->Items_0;
        let found = scan_of(items, entry.module, entry.search_directory);
        assert(found.modules.len() == 0);
        let inner = resolve_of(after, taken, found.modules, (depth - 1) as nat);
        assert(again == scan_file_of(
            after,
            taken,
            file,
            entry.module,
            entry.search_directory,
            depth,
        ));
        assert(again.visits =~= seq![VisitModel { key: leaf, scanned: true }]);
    } else {
        let inner = replay_of(
            after,
            taken,
            entry.referenced_files,
            entry.module,
            (depth - 1) as nat,
        );
        assert(again.visits =~= seq![VisitModel { key: leaf, scanned: false }]);
    }
}

/// After a touch of `leaf`, a visit that had gone well and visited no file
/// twice is done over with at most `leaf` scanned.
pub proof fn lemma_visit_touched(
    tree: Map<Seq<char>, FileModel>,
    leaf: Seq<char>,
    time: Timestamp,
    store: Map<Seq<char>, EntryModel>,
    file: Seq<Seq<char>>,
    module: Seq<Seq<char>>,
    depth: nat,
    later: Map<Seq<char>, EntryModel>,
    other_module: Seq<Seq<char>>,
    stale: bool,
)
    requires
        module.len() > 0,
        tree.contains_key(leaf),
        is_leaf_content(tree[leaf].content),
        visit_of(tree, store, file, module, depth).end is Done,
        keys_of(visit_of(tree, store, file, module, depth).visits).no_duplicates(),
        agrees_on(
            later,
            visit_of(tree, store, file, module, depth).store,
            keys_of(visit_of(tree, store, file, module, depth).visits),
        ),
        leaf_recorded(visit_of(tree, store, file, module, depth), leaf, time, stale),
    ensures
        rescans_only(
            visit_of(touch(tree, leaf, time), later, file, other_module, depth),
            visit_of(tree, store, file, module, depth),
            leaf,
            stale,
        ),
    decreases depth, 1nat,
{
    let after = touch(tree, leaf, time);
    let out = visit_of(tree, store, file, module, depth);
    let again = visit_of(after, later, file, other_module, depth);
    let key = path_text(file);
    assert(depth > 0 && tree.contains_key(key));
    if store.contains_key(key) {
        let entry = store[key];
        let taken = store.remove(key);
        assert(entry.well_formed());
        if entry.last_modified == tree[key].modified {
            let inner = replay_of(
                tree,
                taken,
                entry.referenced_files,
                entry.module,
                (depth - 1) as nat,
            );
            let own = seq![VisitModel { key, scanned: false }];
            lemma_agrees_inside(later, inner, out, key, entry, own);
            lemma_keys_concat(own, inner.visits);
            assert(keys_of(own)[0] == key);
            if key == leaf {
                assert(keys_of(out.visits).contains(leaf));
                assert(inner.visits =~= Seq::empty());
                lemma_leaf_visit(tree, time, file, depth, later, other_module, stale);
                assert(keys_of(again.visits) =~= keys_of(out.visits));
            } else {
                assert(after[key] == tree[key]);
                lemma_replay_touched(
                    tree,
                    leaf,
                    time,
                    taken,
                    entry.referenced_files,
                    entry.module,
                    (depth - 1) as nat,
                    later.remove(key),
                    entry.module,
                    stale,
                );
                let second = replay_of(
                    after,
                    later.remove(key),
                    entry.referenced_files,
                    entry.module,
                    (depth - 1) as nat,
                );
                assert(again.visits == own + second.visits);
                lemma_scans_concat(own, second.visits, own, inner.visits, leaf, stale);
            }
        } else {
            lemma_scan_touched(
                tree,
                leaf,
                time,
                taken,
                file,
                entry.module,
                entry.search_directory,
                depth,
                later,
                other_module,
                stale,
            );
        }
    } else {
        lemma_scan_touched(
            tree,
            leaf,
            time,
            store,
            file,
            module,
            search_directory_of(file),
            depth,
            later,
            other_module,
            stale,
        );
    }
}

/// After a touch of `leaf`, a scan that had gone well and visited no file
/// twice is done over by a visit with at most `leaf` scanned.
pub proof fn lemma_scan_touched(
    tree: Map<Seq<char>, FileModel>,
    leaf: Seq<char>,
    time: Timestamp,
    store: Map<Seq<char>, EntryModel>,
    file: Seq<Seq<char>>,
    module: Seq<Seq<char>>,
    directory: Seq<Seq<char>>,
    depth: nat,
    later: Map<Seq<char>, EntryModel>,
    other_module: Seq<Seq<char>>,
    stale: bool,
)
    requires
        module.len() > 0,
        tree.contains_key(leaf),
        is_leaf_content(tree[leaf].content),
        tree.contains_key(path_text(file)),
        scan_file_of(tree, store, file, module, directory, depth).end is Done,
        keys_of(scan_file_of(tree, store, file, module, directory, depth).visits).no_duplicates(),
        agrees_on(
            later,
            scan_file_of(tree, store, file, module, directory, depth).store,
            keys_of(scan_file_of(tree, store, file, module, directory, depth).visits),
        ),
        leaf_recorded(
            scan_file_of(tree, store, file, module, directory, depth),
            leaf,
            time,
            stale,
        ),
    ensures
        rescans_only(
            visit_of(touch(tree, leaf, time), later, file, other_module, depth),
            scan_file_of(tree, store, file, module, directory, depth),
            leaf,
            stale,
        ),
    decreases depth, 0nat,
{
    let after = touch(tree, leaf, time);
    let out = scan_file_of(tree, store, file, module, directory, depth);
    let again = visit_of(after, later, file, other_module, depth);
    let key = path_text(file);
    match tree[key].content {
        ContentModel::Items(items) => {
            let found = scan_of(items, module, directory);
            let inner = resolve_of(tree, store, found.modules, (depth - 1) as nat);
            let entry = EntryModel {
                last_modified: tree[key].modified,
                module,
                search_directory: directory,
                fn_paths: found.declarations,
                referenced_files: candidates_of(tree, found.modules),
            };
            let own = seq![VisitModel { key, scanned: true }];
            let replayed = seq![VisitModel { key, scanned: false }];
            lemma_scan_named(items, module, directory);
            assert(entry.well_formed());
            lemma_agrees_inside(later, inner, out, key, entry, own);
            lemma_keys_concat(own, inner.visits);
            assert(keys_of(own)[0] == key);
            assert(keys_of(own) =~= keys_of(replayed));
            if key == leaf {
                assert(keys_of(out.visits).contains(leaf));
                assert(found.modules.len() == 0);
                assert(inner.visits =~= Seq::empty());
                lemma_leaf_visit(tree, time, file, depth, later, other_module, stale);
                assert(keys_of(again.visits) =~= keys_of(out.visits));
            } else {
                assert(after[key] == tree[key]);
                lemma_resolve_touched(
                    tree,
                    leaf,
                    time,
                    store,
                    found.modules,
                    (depth - 1) as nat,
                    later.remove(key),
                    module,
                    stale,
                );
                let second = replay_of(
                    after,
                    later.remove(key),
                    entry.referenced_files,
                    module,
                    (depth - 1) as nat,
                );
                assert(again.visits == replayed + second.visits);
                lemma_scans_concat(replayed, second.visits, own, inner.visits, leaf, stale);
            }
        },
        _ => {},
    }
}

/// What the second of two runs of visits needs of the cache that the first,
/// done over, left.
pub proof fn lemma_agrees_after(
    later: Map<Seq<char>, EntryModel>,
    first_again: Outcome,
    first: Outcome,
    rest: Outcome,
)
    requires
        same_outside(later, first_again.store, keys_of(first_again.visits)),
        keys_of(first_again.visits) == keys_of(first.visits),
        keys_of(first.visits + rest.visits).no_duplicates(),
        agrees_on(later, rest.store, keys_of(rest.visits)),
    ensures
        agrees_on(first_again.store, rest.store, keys_of(rest.visits)),
{
    lemma_keys_concat(first.visits, rest.visits);
    crate::laws::lemma_distinct_split(keys_of(first.visits), keys_of(rest.visits));
    assert forall|other: Seq<char>|
        (#[trigger] keys_of(rest.visits).contains(other)) && rest.store.contains_key(
            other,
        ) implies first_again.store.contains_key(other) && first_again.store[other]
        == rest.store[other] by {
        assert(!keys_of(first.visits).contains(other));
        assert(!keys_of(first_again.visits).contains(other));
    }
}

/// The entry of `leaf` that the first of two runs of visits left is the one
/// that both left, where the first visited `leaf`; and so for the second.
pub proof fn lemma_leaf_beside(
    first: Outcome,
    rest: Outcome,
    leaf: Seq<char>,
    time: Timestamp,
    stale: bool,
)
    requires
        same_outside(first.store, rest.store, keys_of(rest.visits)),
        keys_of(first.visits + rest.visits).no_duplicates(),
        leaf_recorded(
            Outcome { store: rest.store, visits: first.visits + rest.visits, ..rest },
            leaf,
            time,
            stale,
        ),
    ensures
        leaf_recorded(first, leaf, time, stale),
        leaf_recorded(rest, leaf, time, stale),
{
    lemma_keys_concat(first.visits, rest.visits);
    crate::laws::lemma_distinct_split(keys_of(first.visits), keys_of(rest.visits));
    if keys_of(first.visits).contains(leaf) {
        assert(!keys_of(rest.visits).contains(leaf));
    }
}

/// After a touch of `leaf`, visits of a fresh entry's files that had gone well
/// and visited no file twice are done over with at most `leaf` scanned.
pub proof fn lemma_replay_touched(
    tree: Map<Seq<char>, FileModel>,
    leaf: Seq<char>,
    time: Timestamp,
    store: Map<Seq<char>, EntryModel>,
    files: Seq<Seq<Seq<char>>>,
    module: Seq<Seq<char>>,
    depth: nat,
    later: Map<Seq<char>, EntryModel>,
    other_module: Seq<Seq<char>>,
    stale: bool,
)
    requires
        module.len() > 0,
        tree.contains_key(leaf),
        is_leaf_content(tree[leaf].content),
        replay_of(tree, store, files, module, depth).end is Done,
        keys_of(replay_of(tree, store, files, module, depth).visits).no_duplicates(),
        agrees_on(
            later,
            replay_of(tree, store, files, module, depth).store,
            keys_of(replay_of(tree, store, files, module, depth).visits),
        ),
        leaf_recorded(replay_of(tree, store, files, module, depth), leaf, time, stale),
    ensures
        rescans_only(
            replay_of(touch(tree, leaf, time), later, files, other_module, depth),
            replay_of(tree, store, files, module, depth),
            leaf,
            stale,
        ),
    decreases depth, files.len() + 2,
{
    let after = touch(tree, leaf, time);
    let out = replay_of(tree, store, files, module, depth);
    let again = replay_of(after, later, files, other_module, depth);
    if files.len() == 0 {
        assert(keys_of(again.visits) =~= keys_of(out.visits));
    } else {
        let file = normalized(files[0]);
        let first = visit_of(tree, store, file, module, depth);
        let rest = replay_of(tree, first.store, files.drop_first(), module, depth);
        lemma_replay_frame(tree, first.store, files.drop_first(), module, depth);
        lemma_agrees_beside(later, first, rest);
        lemma_leaf_beside(first, rest, leaf, time, stale);
        lemma_visit_touched(tree, leaf, time, store, file, module, depth, later, other_module, stale);
        let first_again = visit_of(after, later, file, other_module, depth);
        lemma_visit_frame(after, later, file, other_module, depth);
        lemma_agrees_after(later, first_again, first, rest);
        lemma_replay_touched(
            tree,
            leaf,
            time,
            first.store,
            files.drop_first(),
            module,
            depth,
            first_again.store,
            other_module,
            stale,
        );
        let rest_again = replay_of(
            after,
            first_again.store,
            files.drop_first(),
            other_module,
            depth,
        );
        assert(again == rest_again.after(first_again));
        lemma_scans_concat(
            first_again.visits,
            rest_again.visits,
            first.visits,
            rest.visits,
            leaf,
            stale,
        );
    }
}

/// After a touch of `leaf`, visits of external modules that had gone well and
/// visited no file twice are done over, by visits of the modules' files, with
/// at most `leaf` scanned.
pub proof fn lemma_resolve_touched(
    tree: Map<Seq<char>, FileModel>,
    leaf: Seq<char>,
    time: Timestamp,
    store: Map<Seq<char>, EntryModel>,
    modules: Seq<ModuleReferenceModel>,
    depth: nat,
    later: Map<Seq<char>, EntryModel>,
    other_module: Seq<Seq<char>>,
    stale: bool,
)
    requires
        modules_named(modules),
        tree.contains_key(leaf),
        is_leaf_content(tree[leaf].content),
        resolve_of(tree, store, modules, depth).end is Done,
        keys_of(resolve_of(tree, store, modules, depth).visits).no_duplicates(),
        agrees_on(
            later,
            resolve_of(tree, store, modules, depth).store,
            keys_of(resolve_of(tree, store, modules, depth).visits),
        ),
        leaf_recorded(resolve_of(tree, store, modules, depth), leaf, time, stale),
    ensures
        rescans_only(
            replay_of(
                touch(tree, leaf, time),
                later,
                candidates_of(tree, modules),
                other_module,
                depth,
            ),
            resolve_of(tree, store, modules, depth),
            leaf,
            stale,
        ),
    decreases depth, modules.len() + 2,
{
    let after = touch(tree, leaf, time);
    let out = resolve_of(tree, store, modules, depth);
    let files = candidates_of(tree, modules);
    let again = replay_of(after, later, files, other_module, depth);
    if modules.len() == 0 {
        assert(keys_of(again.visits) =~= keys_of(out.visits));
    } else {
        let file = normalized(candidate_of(tree, modules[0]));
        let visit = visit_of(tree, store, file, modules[0].module, depth);
        let first = Outcome { steps: visit.steps + 1, ..visit };
        let rest = resolve_of(tree, first.store, modules.drop_first(), depth);
        assert(files.drop_first() =~= candidates_of(tree, modules.drop_first()));
        assert(modules_named(modules.drop_first())) by {
            assert forall|i: int| 0 <= i < modules.drop_first().len() implies (
            #[trigger] modules.drop_first()[i]).module.len() > 0 by {
                assert(modules.drop_first()[i] == modules[i + 1]);
            }
        }
        lemma_resolve_frame(tree, first.store, modules.drop_first(), depth);
        lemma_agrees_beside(later, first, rest);
        lemma_leaf_beside(first, rest, leaf, time, stale);
        lemma_visit_touched(
            tree,
            leaf,
            time,
            store,
            file,
            modules[0].module,
            depth,
            later,
            other_module,
            stale,
        );
        let first_again = visit_of(after, later, file, other_module, depth);
        lemma_visit_frame(after, later, file, other_module, depth);
        lemma_agrees_after(later, first_again, first, rest);
        lemma_resolve_touched(
            tree,
            leaf,
            time,
            first.store,
            modules.drop_first(),
            depth,
            first_again.store,
            other_module,
            stale,
        );
        let rest_again = replay_of(
            after,
            first_again.store,
            files.drop_first(),
            other_module,
            depth,
        );
        assert(again == rest_again.after(first_again));
        lemma_scans_concat(
            first_again.visits,
            rest_again.visits,
            first.visits,
            rest.visits,
            leaf,
            stale,
        );
    }
}

/// Invalidation propagation. Let a pass go well and visit no file twice, and
/// let then the modification time of one file change, a file that declares no
/// external module and whose entry refers to no file. The next pass, from the
/// cache that the first left, goes well and visits the same files. It scans
/// that file, if the new time is another than the old, and it scans no other
/// file.
pub proof fn law_touch_rescans_the_leaf_alone(
    tree: Map<Seq<char>, FileModel>,
    store: Map<Seq<char>, EntryModel>,
    root: Seq<Seq<char>>,
    module: Seq<Seq<char>>,
    depth: nat,
    leaf: Seq<char>,
    time: Timestamp,
)
    requires
        module.len() > 0,
        tree.contains_key(leaf),
        is_leaf_content(tree[leaf].content),
        pass_of(tree, store, root, module, depth).end is Done,
        keys_of(pass_of(tree, store, root, module, depth).visits).no_duplicates(),
        pass_of(tree, store, root, module, depth).store.contains_key(leaf) ==> pass_of(
            tree,
            store,
            root,
            module,
            depth,
        ).store[leaf].referenced_files.len() == 0,
    ensures
        ({
            let first = pass_of(tree, store, root, module, depth);
            let second = pass_of(touch(tree, leaf, time), first.store, root, module, depth);
            &&& second.end is Done
            &&& keys_of(second.visits) == keys_of(first.visits)
            &&& forall|i: int|
                0 <= i < second.visits.len() ==> ((#[trigger] second.visits[i]).scanned
                    <==> second.visits[i].key == leaf && tree[leaf].modified != time)
        }),
{
    let first = pass_of(tree, store, root, module, depth);
    let stale = tree[leaf].modified != time;
    law_visited_entries_are_valid(tree, store, root, module, depth);
    lemma_visit_touched(
        tree,
        leaf,
        time,
        store,
        normalized(root),
        module,
        depth,
        first.store,
        module,
        stale,
    );
}

} // verus!
