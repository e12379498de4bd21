//! Idempotence where files are shared.
//!
//! A file may be reached from two branches of the tree. The second pass still
//! repeats the first, as long as no file is reached again while its own visit
//! lasts. Where one is, the second pass may differ: the file is scanned again
//! inside its own visit, under the module path that its parent hands down,
//! and a parent that was scanned in the first pass and is used again in the
//! second hands down another path.

use vstd::prelude::*;
use crate::cache::EntryModel;
use crate::laws::{
    agrees_on, fresh_in, keys_of, lemma_distinct_split, lemma_keys_concat, lemma_scan_named,
    lemma_spared_concat, lemma_spared_outside, modules_named, none_scanned, repeats, spared,
};
use crate::model::{
    candidate_of, candidates_of, pass_of, replay_of, resolve_of, scan_file_of, visit_of,
    ContentModel, FileModel, Outcome,
};
use crate::pass::VisitModel;
use crate::path::{normalized, path_text, search_directory_of};
use crate::scan::{scan_of, ModuleReferenceModel};

verus! {

/// Whether a visit reaches no file whose visit is open: not the files in
/// `open`, whose visits were open when this one began, and not, further down,
/// a file on the way to it.
pub open spec fn untangled_visit(
    tree: Map<Seq<char>, FileModel>,
    store: Map<Seq<char>, EntryModel>,
    file: Seq<Seq<char>>,
    module: Seq<Seq<char>>,
    depth: nat,
    open: Set<Seq<char>>,
) -> bool
    decreases depth, 1nat,
{
    let key = path_text(file);
    &&& !open.contains(key)
    &&& if depth == 0 || !tree.contains_key(key) {
        true
    } else if store.contains_key(key) {
        let entry = store[key];
        let taken = store.remove(key);
        if !entry.well_formed() {
            true
        } else if entry.last_modified == tree[key].modified {
            untangled_replay(
                tree,
                taken,
                entry.referenced_files,
                entry.module,
                (depth - 1) as nat,
                open.insert(key),
            )
        } else {
            untangled_scan(tree, taken, file, entry.module, entry.search_directory, depth, open)
        }
    } else {
        untangled_scan(tree, store, file, module, search_directory_of(file), depth, open)
    }
}

/// Whether the visits that follow from the scan of a file reach no file whose
/// visit is open.
pub open spec fn untangled_scan(
    tree: Map<Seq<char>, FileModel>,
    store: Map<Seq<char>, EntryModel>,
    file: Seq<Seq<char>>,
    module: Seq<Seq<char>>,
    directory: Seq<Seq<char>>,
    depth: nat,
    open: Set<Seq<char>>,
) -> bool
    decreases depth, 0nat,
{
    let key = path_text(file);
    if depth == 0 {
        true
    } else {
        match tree[key].content {
            ContentModel::Items(items) => untangled_resolve(
                tree,
                store,
                scan_of(items, module, directory).modules,
                (depth - 1) as nat,
                open.insert(key),
            ),
            _ => true,
        }
    }
}

/// Whether the visits of a fresh entry's files reach no file whose visit is
/// open.
pub open spec fn untangled_replay(
    tree: Map<Seq<char>, FileModel>,
    store: Map<Seq<char>, EntryModel>,
    files: Seq<Seq<Seq<char>>>,
    module: Seq<Seq<char>>,
    depth: nat,
    open: Set<Seq<char>>,
) -> bool
    decreases depth, files.len() + 2,
{
    if files.len() == 0 {
        true
    } else {
        let first = visit_of(tree, store, normalized(files[0]), module, depth);
        &&& untangled_visit(tree, store, normalized(files[0]), module, depth, open)
        &&& first.end is Done ==> untangled_replay(
            tree,
            first.store,
            files.drop_first(),
            module,
            depth,
            open,
        )
    }
}

/// Whether the visits of external modules reach no file whose visit is open.
pub open spec fn untangled_resolve(
    tree: Map<Seq<char>, FileModel>,
    store: Map<Seq<char>, EntryModel>,
    modules: Seq<ModuleReferenceModel>,
    depth: nat,
    open: Set<Seq<char>>,
) -> bool
    decreases depth, modules.len() + 2,
{
    if modules.len() == 0 {
        true
    } else {
        let file = normalized(candidate_of(tree, modules[0]));
        let first = visit_of(tree, store, file, modules[0].module, depth);
        &&& untangled_visit(tree, store, file, modules[0].module, depth, open)
        &&& first.end is Done ==> untangled_resolve(
            tree,
            first.store,
            modules.drop_first(),
            depth,
            open,
        )
    }
}

/// Whether none of the listed files is among the open ones.
pub open spec fn outside(keys: Seq<Seq<char>>, open: Set<Seq<char>>) -> bool {
    forall|key: Seq<char>| #[trigger] keys.contains(key) ==> !open.contains(key)
}

/// Whether the cache holds a fresh entry of each listed file.
pub open spec fn fresh_on(
    tree: Map<Seq<char>, FileModel>,
    store: Map<Seq<char>, EntryModel>,
    keys: Seq<Seq<char>>,
) -> bool {
    forall|key: Seq<char>| #[trigger] keys.contains(key) ==> fresh_in(tree, store, key)
}

/// An untangled visit that went well visited no open file.
pub proof fn lemma_visit_outside(
    tree: Map<Seq<char>, FileModel>,
    store: Map<Seq<char>, EntryModel>,
    file: Seq<Seq<char>>,
    module: Seq<Seq<char>>,
    depth: nat,
    open: Set<Seq<char>>,
)
    requires
        untangled_visit(tree, store, file, module, depth, open),
        visit_of(tree, store, file, module, depth).end is Done,
    ensures
        outside(keys_of(visit_of(tree, store, file, module, depth).visits), open),
    decreases depth, 1nat,
{
    let out = visit_of(tree, store, file, module, depth);
    let key = path_text(file);
    assert(depth > 0 && tree.contains_key(key));
    if store.contains_key(key) {
        let entry = store[key];
        let taken = store.remove(key);
        assert(entry.well_formed());
        if entry.last_modified == tree[key].modified {
            let inner = replay_of(
                tree,
                taken,
                entry.referenced_files,
                entry.module,
                (depth - 1) as nat,
            );
            let own = seq![VisitModel { key, scanned: false }];
            lemma_replay_outside(
                tree,
                taken,
                entry.referenced_files,
                entry.module,
                (depth - 1) as nat,
                open.insert(key),
            );
            lemma_own_outside(own, inner.visits, key, open);
        } else {
            lemma_scan_outside(tree, taken, file, entry.module, entry.search_directory, depth, open);
        }
    } else {
        lemma_scan_outside(tree, store, file, module, search_directory_of(file), depth, open);
    }
}

/// A visit whose file is not open, and whose children visited neither an open
/// file nor that file, visited no open file.
pub proof fn lemma_own_outside(
    own: Seq<VisitModel>,
    inner: Seq<VisitModel>,
    key: Seq<char>,
    open: Set<Seq<char>>,
)
    requires
        own.len() == 1,
        own[0].key == key,
        !open.contains(key),
        outside(keys_of(inner), open.insert(key)),
    ensures
        outside(keys_of(own + inner), open),
        !keys_of(inner).contains(key),
{
    lemma_keys_concat(own, inner);
    assert forall|other: Seq<char>| #[trigger] keys_of(own + inner).contains(other) implies !open.contains(
        other,
    ) by {
        if keys_of(inner).contains(other) {
            assert(!open.insert(key).contains(other));
        } else {
            assert(keys_of(own).contains(other));
            let i = choose|i: int| 0 <= i < keys_of(own).len() && keys_of(own)[i] == other;
            assert(other == key);
        }
    }
    if keys_of(inner).contains(key) {
        assert(open.insert(key).contains(key));
    }
}

/// Two runs of visits that each visited no open file did so together.
pub proof fn lemma_both_outside(first: Seq<VisitModel>, rest: Seq<VisitModel>, open: Set<Seq<char>>)
    requires
        outside(keys_of(first), open),
        outside(keys_of(rest), open),
    ensures
        outside(keys_of(first + rest), open),
{
    lemma_keys_concat(first, rest);
    assert forall|key: Seq<char>| #[trigger] keys_of(first + rest).contains(key) implies !open.contains(
        key,
    ) by {
        assert(keys_of(first).contains(key) || keys_of(rest).contains(key));
    }
}

/// The visits that follow from an untangled scan that went well visited no
/// open file.
pub proof fn lemma_scan_outside(
    tree: Map<Seq<char>, FileModel>,
    store: Map<Seq<char>, EntryModel>,
    file: Seq<Seq<char>>,
    module: Seq<Seq<char>>,
    directory: Seq<Seq<char>>,
    depth: nat,
    open: Set<Seq<char>>,
)
    requires
        !open.contains(path_text(file)),
        untangled_scan(tree, store, file, module, directory, depth, open),
        tree.contains_key(path_text(file)),
        scan_file_of(tree, store, file, module, directory, depth).end is Done,
    ensures
        outside(keys_of(scan_file_of(tree, store, file, module, directory, depth).visits), open),
    decreases depth, 0nat,
{
    let out = scan_file_of(tree, store, file, module, directory, depth);
    let key = path_text(file);
    match tree[key].content {
        ContentModel::Items(items) => {
            let found = scan_of(items, module, directory);
            let inner = resolve_of(tree, store, found.modules, (depth - 1) as nat);
            let own = seq![VisitModel { key, scanned: true }];
            lemma_resolve_outside(tree, store, found.modules, (depth - 1) as nat, open.insert(key));
            lemma_own_outside(own, inner.visits, key, open);
        },
        _ => {},
    }
}

/// Untangled visits of a fresh entry's files that went well visited no open
/// file.
pub proof fn lemma_replay_outside(
    tree: Map<Seq<char>, FileModel>,
    store: Map<Seq<char>, EntryModel>,
    files: Seq<Seq<Seq<char>>>,
    module: Seq<Seq<char>>,
    depth: nat,
    open: Set<Seq<char>>,
)
    requires
        untangled_replay(tree, store, files, module, depth, open),
        replay_of(tree, store, files, module, depth).end is Done,
    ensures
        outside(keys_of(replay_of(tree, store, files, module, depth).visits), open),
    decreases depth, files.len() + 2,
{
    if files.len() > 0 {
        let file = normalized(files[0]);
        let first = visit_of(tree, store, file, module, depth);
        let rest = replay_of(tree, first.store, files.drop_first(), module, depth);
        lemma_visit_outside(tree, store, file, module, depth, open);
        lemma_replay_outside(tree, first.store, files.drop_first(), module, depth, open);
        lemma_both_outside(first.visits, rest.visits, open);
    } else {
        assert(keys_of(replay_of(tree, store, files, module, depth).visits) =~= Seq::empty());
    }
}

/// Untangled visits of external modules that went well visited no open file.
pub proof fn lemma_resolve_outside(
    tree: Map<Seq<char>, FileModel>,
    store: Map<Seq<char>, EntryModel>,
    modules: Seq<ModuleReferenceModel>,
    depth: nat,
    open: Set<Seq<char>>,
)
    requires
        untangled_resolve(tree, store, modules, depth, open),
        resolve_of(tree, store, modules, depth).end is Done,
    ensures
        outside(keys_of(resolve_of(tree, store, modules, depth).visits), open),
    decreases depth, modules.len() + 2,
{
    if modules.len() > 0 {
        let file = normalized(candidate_of(tree, modules[0]));
        let first = visit_of(tree, store, file, modules[0].module, depth);
        let rest = resolve_of(tree, first.store, modules.drop_first(), depth);
        lemma_visit_outside(tree, store, file, modules[0].module, depth, open);
        lemma_resolve_outside(tree, first.store, modules.drop_first(), depth, open);
        lemma_both_outside(first.visits, rest.visits, open);
    } else {
        assert(keys_of(resolve_of(tree, store, modules, depth).visits) =~= Seq::empty());
    }
}

/// A fresh entry stays as it is through a visit that goes well.
pub proof fn lemma_visit_stable(
    tree: Map<Seq<char>, FileModel>,
    store: Map<Seq<char>, EntryModel>,
    file: Seq<Seq<char>>,
    module: Seq<Seq<char>>,
    depth: nat,
    fresh: Seq<char>,
)
    requires
        fresh_in(tree, store, fresh),
        visit_of(tree, store, file, module, depth).end is Done,
    ensures
        fresh_in(tree, visit_of(tree, store, file, module, depth).store, fresh),
        visit_of(tree, store, file, module, depth).store[fresh] == store[fresh],
    decreases depth, 1nat,
{
    let key = path_text(file);
    assert(depth > 0 && tree.contains_key(key));
    if store.contains_key(key) {
        let entry = store[key];
        let taken = store.remove(key);
        assert(entry.well_formed());
        if entry.last_modified == tree[key].modified {
            if key != fresh {
                lemma_replay_stable(
                    tree,
                    taken,
                    entry.referenced_files,
                    entry.module,
                    (depth - 1) as nat,
                    fresh,
                );
            }
        } else {
            lemma_scan_stable(
                tree,
                taken,
                file,
                entry.module,
                entry.search_directory,
                depth,
                fresh,
            );
        }
    } else {
        lemma_scan_stable(tree, store, file, module, search_directory_of(file), depth, fresh);
    }
}

/// A fresh entry of another file stays as it is through a scan and the visits
/// that follow from it, where they go well.
pub proof fn lemma_scan_stable(
    tree: Map<Seq<char>, FileModel>,
    store: Map<Seq<char>, EntryModel>,
    file: Seq<Seq<char>>,
    module: Seq<Seq<char>>,
    directory: Seq<Seq<char>>,
    depth: nat,
    fresh: Seq<char>,
)
    requires
        fresh_in(tree, store, fresh),
        fresh != path_text(file),
        tree.contains_key(path_text(file)),
        scan_file_of(tree, store, file, module, directory, depth).end is Done,
    ensures
        fresh_in(tree, scan_file_of(tree, store, file, module, directory, depth).store, fresh),
        scan_file_of(tree, store, file, module, directory, depth).store[fresh] == store[fresh],
    decreases depth, 0nat,
{
    let key = path_text(file);
    match tree[key].content {
        ContentModel::Items(items) => {
            let found = scan_of(items, module, directory);
            lemma_resolve_stable(tree, store, found.modules, (depth - 1) as nat, fresh);
        },
        _ => {},
    }
}

/// A fresh entry stays as it is through visits of a fresh entry's files that
/// go well.
pub proof fn lemma_replay_stable(
    tree: Map<Seq<char>, FileModel>,
    store: Map<Seq<char>, EntryModel>,
    files: Seq<Seq<Seq<char>>>,
    module: Seq<Seq<char>>,
    depth: nat,
    fresh: Seq<char>,
)
    requires
        fresh_in(tree, store, fresh),
        replay_of(tree, store, files, module, depth).end is Done,
    ensures
        fresh_in(tree, replay_of(tree, store, files, module, depth).store, fresh),
        replay_of(tree, store, files, module, depth).store[fresh] == store[fresh],
    decreases depth, files.len() + 2,
{
    if files.len() > 0 {
        let file = normalized(files[0]);
        let first = visit_of(tree, store, file, module, depth);
        lemma_visit_stable(tree, store, file, module, depth, fresh);
        lemma_replay_stable(tree, first.store, files.drop_first(), module, depth, fresh);
    }
}

/// A fresh entry stays as it is through visits of external modules that go
/// well.
pub proof fn lemma_resolve_stable(
    tree: Map<Seq<char>, FileModel>,
    store: Map<Seq<char>, EntryModel>,
    modules: Seq<ModuleReferenceModel>,
    depth: nat,
    fresh: Seq<char>,
)
    requires
        fresh_in(tree, store, fresh),
        resolve_of(tree, store, modules, depth).end is Done,
    ensures
        fresh_in(tree, resolve_of(tree, store, modules, depth).store, fresh),
        resolve_of(tree, store, modules, depth).store[fresh] == store[fresh],
    decreases depth, modules.len() + 2,
{
    if modules.len() > 0 {
        let file = normalized(candidate_of(tree, modules[0]));
        let first = visit_of(tree, store, file, modules[0].module, depth);
        lemma_visit_stable(tree, store, file, modules[0].module, depth, fresh);
        lemma_resolve_stable(tree, first.store, modules.drop_first(), depth, fresh);
    }
}

/// The entry of a visited file and the fresh entries that its children left
/// are the fresh entries that the visit left.
pub proof fn lemma_settled_around(
    tree: Map<Seq<char>, FileModel>,
    inner: Outcome,
    out: Outcome,
    key: Seq<char>,
    entry: EntryModel,
    own: Seq<VisitModel>,
)
    requires
        own.len() == 1,
        own[0].key == key,
        out.visits == own + inner.visits,
        out.store == inner.store.insert(key, entry),
        tree.contains_key(key),
        entry.well_formed(),
        entry.last_modified == tree[key].modified,
        fresh_on(tree, inner.store, keys_of(inner.visits)),
    ensures
        fresh_on(tree, out.store, keys_of(out.visits)),
{
    lemma_keys_concat(own, inner.visits);
    assert forall|other: Seq<char>| #[trigger] keys_of(out.visits).contains(other) implies fresh_in(
        tree,
        out.store,
        other,
    ) by {
        if other != key {
            if !keys_of(inner.visits).contains(other) {
                assert(keys_of(own).contains(other));
                let i = choose|i: int| 0 <= i < keys_of(own).len() && keys_of(own)[i] == other;
                assert(false);
            }
        }
    }
}

/// The fresh entries that two runs of visits left, one after the other, where
/// the second kept what the first left fresh.
pub proof fn lemma_settled_beside(
    tree: Map<Seq<char>, FileModel>,
    first: Outcome,
    rest: Outcome,
)
    requires
        fresh_on(tree, rest.store, keys_of(first.visits)),
        fresh_on(tree, rest.store, keys_of(rest.visits)),
    ensures
        fresh_on(tree, rest.store, keys_of(first.visits + rest.visits)),
{
    lemma_keys_concat(first.visits, rest.visits);
    assert forall|other: Seq<char>| #[trigger]
        keys_of(first.visits + rest.visits).contains(other) implies fresh_in(
        tree,
        rest.store,
        other,
    ) by {
        assert(keys_of(first.visits).contains(other) || keys_of(rest.visits).contains(other));
    }
}

/// After a visit that went well the cache holds a fresh entry of every file
/// that was visited.
pub proof fn lemma_visit_settled(
    tree: Map<Seq<char>, FileModel>,
    store: Map<Seq<char>, EntryModel>,
    file: Seq<Seq<char>>,
    module: Seq<Seq<char>>,
    depth: nat,
)
    requires
        module.len() > 0,
        visit_of(tree, store, file, module, depth).end is Done,
    ensures
        fresh_on(
            tree,
            visit_of(tree, store, file, module, depth).store,
            keys_of(visit_of(tree, store, file, module, depth).visits),
        ),
    decreases depth, 1nat,
{
    let out = visit_of(tree, store, file, module, depth);
    let key = path_text(file);
    assert(depth > 0 && tree.contains_key(key));
    if store.contains_key(key) {
        let entry = store[key];
        let taken = store.remove(key);
        assert(entry.well_formed());
        if entry.last_modified == tree[key].modified {
            let inner = replay_of(
                tree,
                taken,
                entry.referenced_files,
                entry.module,
                (depth - 1) as nat,
            );
            let own = seq![VisitModel { key, scanned: false }];
            lemma_replay_settled(
                tree,
                taken,
                entry.referenced_files,
                entry.module,
                (depth - 1) as nat,
            );
            lemma_settled_around(tree, inner, out, key, entry, own);
        } else {
            lemma_scan_settled(tree, taken, file, entry.module, entry.search_directory, depth);
        }
    } else {
        lemma_scan_settled(tree, store, file, module, search_directory_of(file), depth);
    }
}

/// After a scan that went well the cache holds a fresh entry of every file
/// that was visited.
pub proof fn lemma_scan_settled(
    tree: Map<Seq<char>, FileModel>,
    store: Map<Seq<char>, EntryModel>,
    file: Seq<Seq<char>>,
    module: Seq<Seq<char>>,
    directory: Seq<Seq<char>>,
    depth: nat,
)
    requires
        module.len() > 0,
        tree.contains_key(path_text(file)),
        scan_file_of(tree, store, file, module, directory, depth).end is Done,
    ensures
        fresh_on(
            tree,
            scan_file_of(tree, store, file, module, directory, depth).store,
            keys_of(scan_file_of(tree, store, file, module, directory, depth).visits),
        ),
    decreases depth, 0nat,
{
    let out = scan_file_of(tree, store, file, module, directory, depth);
    let key = path_text(file);
    match tree[key].content {
        ContentModel::Items(items) => {
            let found = scan_of(items, module, directory);
            let inner = resolve_of(tree, store, found.modules, (depth - 1) as nat);
            let entry = EntryModel {
                last_modified: tree[key].modified,
                module,
                search_directory: directory,
                fn_paths: found.declarations,
                referenced_files: candidates_of(tree, found.modules),
            };
            let own = seq![VisitModel { key, scanned: true }];
            lemma_scan_named(items, module, directory);
            assert(entry.well_formed());
            lemma_resolve_settled(tree, store, found.modules, (depth - 1) as nat);
            lemma_settled_around(tree, inner, out, key, entry, own);
        },
        _ => {},
    }
}

/// After visits of a fresh entry's files that went well the cache holds a
/// fresh entry of every file that was visited.
pub proof fn lemma_replay_settled(
    tree: Map<Seq<char>, FileModel>,
    store: Map<Seq<char>, EntryModel>,
    files: Seq<Seq<Seq<char>>>,
    module: Seq<Seq<char>>,
    depth: nat,
)
    requires
        module.len() > 0,
        replay_of(tree, store, files, module, depth).end is Done,
    ensures
        fresh_on(
            tree,
            replay_of(tree, store, files, module, depth).store,
            keys_of(replay_of(tree, store, files, module, depth).visits),
        ),
    decreases depth, files.len() + 2,
{
    if files.len() > 0 {
        let file = normalized(files[0]);
        let first = visit_of(tree, store, file, module, depth);
        let rest = replay_of(tree, first.store, files.drop_first(), module, depth);
        lemma_visit_settled(tree, store, file, module, depth);
        lemma_replay_settled(tree, first.store, files.drop_first(), module, depth);
        assert forall|other: Seq<char>| #[trigger] keys_of(first.visits).contains(other) implies fresh_in(
            tree,
            rest.store,
            other,
        ) by {
            lemma_replay_stable(tree, first.store, files.drop_first(), module, depth, other);
        }
        lemma_settled_beside(tree, first, rest);
    } else {
        assert(keys_of(replay_of(tree, store, files, module, depth).visits) =~= Seq::empty());
    }
}

/// After visits of external modules that went well the cache holds a fresh
/// entry of every file that was visited.
pub proof fn lemma_resolve_settled(
    tree: Map<Seq<char>, FileModel>,
    store: Map<Seq<char>, EntryModel>,
    modules: Seq<ModuleReferenceModel>,
    depth: nat,
)
    requires
        modules_named(modules),
        resolve_of(tree, store, modules, depth).end is Done,
    ensures
        fresh_on(
            tree,
            resolve_of(tree, store, modules, depth).store,
            keys_of(resolve_of(tree, store, modules, depth).visits),
        ),
    decreases depth, modules.len() + 2,
{
    if modules.len() > 0 {
        let file = normalized(candidate_of(tree, modules[0]));
        let visit = visit_of(tree, store, file, modules[0].module, depth);
        let first = Outcome { steps: visit.steps + 1, ..visit };
        let rest = resolve_of(tree, first.store, modules.drop_first(), depth);
        lemma_named_rest(modules);
        lemma_visit_settled(tree, store, file, modules[0].module, depth);
        lemma_resolve_settled(tree, first.store, modules.drop_first(), depth);
        assert forall|other: Seq<char>| #[trigger] keys_of(first.visits).contains(other) implies fresh_in(
            tree,
            rest.store,
            other,
        ) by {
            lemma_resolve_stable(tree, first.store, modules.drop_first(), depth, other);
        }
        lemma_settled_beside(tree, first, rest);
    } else {
        assert(keys_of(resolve_of(tree, store, modules, depth).visits) =~= Seq::empty());
    }
}

/// The modules behind the first are named where all are.
pub proof fn lemma_named_rest(modules: Seq<ModuleReferenceModel>)
    requires
        modules.len() > 0,
        modules_named(modules),
    ensures
        modules_named(modules.drop_first()),
        modules[0].module.len() > 0,
{
    assert forall|i: int| 0 <= i < modules.drop_first().len() implies (
    #[trigger] modules.drop_first()[i]).module.len() > 0 by {
        assert(modules.drop_first()[i] == modules[i + 1]);
    }
}

/// What a cache that holds what a visit left holds for the children of the
/// visit, where none of them visited the file of the visit itself.
pub proof fn lemma_agrees_within(
    later: Map<Seq<char>, EntryModel>,
    inner: Outcome,
    out: Outcome,
    key: Seq<char>,
    entry: EntryModel,
    own: Seq<VisitModel>,
)
    requires
        own.len() == 1,
        own[0].key == key,
        out.visits == own + inner.visits,
        out.store == inner.store.insert(key, entry),
        !keys_of(inner.visits).contains(key),
        agrees_on(later, out.store, keys_of(out.visits)),
    ensures
        agrees_on(later.remove(key), inner.store, keys_of(inner.visits)),
        later.contains_key(key),
        later[key] == entry,
        later.remove(key).insert(key, entry) == later,
{
    lemma_keys_concat(own, inner.visits);
    assert(keys_of(own)[0] == key);
    assert(keys_of(own).contains(key));
    assert(keys_of(out.visits).contains(key));
    assert forall|other: Seq<char>|
        (#[trigger] keys_of(inner.visits).contains(other)) && inner.store.contains_key(
            other,
        ) implies later.remove(key).contains_key(other) && later.remove(key)[other]
        == inner.store[other] by {
        assert(keys_of(out.visits).contains(other));
        assert(other != key);
    }
    assert(later.remove(key).insert(key, entry) =~= later);
}

/// What a cache that holds what two runs of visits left holds for each of
/// them, where the second kept what the first left.
pub proof fn lemma_agrees_shared(
    later: Map<Seq<char>, EntryModel>,
    first: Outcome,
    rest: Outcome,
)
    requires
        agrees_on(later, rest.store, keys_of(first.visits + rest.visits)),
        forall|key: Seq<char>| #[trigger]
            keys_of(first.visits).contains(key) ==> rest.store.contains_key(key) && rest.store[key]
                == first.store[key],
    ensures
        agrees_on(later, first.store, keys_of(first.visits)),
        agrees_on(later, rest.store, keys_of(rest.visits)),
{
    lemma_keys_concat(first.visits, rest.visits);
    assert forall|other: Seq<char>|
        (#[trigger] keys_of(first.visits).contains(other)) && first.store.contains_key(
            other,
        ) implies later.contains_key(other) && later[other] == first.store[other] by {
        assert(keys_of(first.visits + rest.visits).contains(other));
    }
    assert forall|other: Seq<char>|
        (#[trigger] keys_of(rest.visits).contains(other)) && rest.store.contains_key(
            other,
        ) implies later.contains_key(other) && later[other] == rest.store[other] by {
        assert(keys_of(first.visits + rest.visits).contains(other));
    }
}

/// An untangled visit that went well is repeated, without a scan, by a visit
/// of the same file from any cache that holds, for the files that were
/// visited, what the first visit left.
pub proof fn lemma_visit_again(
    tree: Map<Seq<char>, FileModel>,
    store: Map<Seq<char>, EntryModel>,
    file: Seq<Seq<char>>,
    module: Seq<Seq<char>>,
    depth: nat,
    open: Set<Seq<char>>,
    later: Map<Seq<char>, EntryModel>,
    other_module: Seq<Seq<char>>,
)
    requires
        module.len() > 0,
        untangled_visit(tree, store, file, module, depth, open),
        visit_of(tree, store, file, module, depth).end is Done,
        agrees_on(
            later,
            visit_of(tree, store, file, module, depth).store,
            keys_of(visit_of(tree, store, file, module, depth).visits),
        ),
    ensures
        repeats(
            visit_of(tree, later, file, other_module, depth),
            visit_of(tree, store, file, module, depth),
            later,
        ),
    decreases depth, 1nat,
{
    let out = visit_of(tree, store, file, module, depth);
    let again = visit_of(tree, later, file, other_module, depth);
    let key = path_text(file);
    assert(depth > 0 && tree.contains_key(key));
    if store.contains_key(key) {
        let entry = store[key];
        let taken = store.remove(key);
        assert(entry.well_formed());
        if entry.last_modified == tree[key].modified {
            let inner = replay_of(
                tree,
                taken,
                entry.referenced_files,
                entry.module,
                (depth - 1) as nat,
            );
            let own = seq![VisitModel { key, scanned: false }];
            lemma_replay_outside(
                tree,
                taken,
                entry.referenced_files,
                entry.module,
                (depth - 1) as nat,
                open.insert(key),
            );
            lemma_own_outside(own, inner.visits, key, open);
            lemma_agrees_within(later, inner, out, key, entry, own);
            lemma_replay_again(
                tree,
                taken,
                entry.referenced_files,
                entry.module,
                (depth - 1) as nat,
                open.insert(key),
                later.remove(key),
                entry.module,
            );
            let second = replay_of(
                tree,
                later.remove(key),
                entry.referenced_files,
                entry.module,
                (depth - 1) as nat,
            );
            lemma_keys_concat(own, inner.visits);
            lemma_keys_concat(own, second.visits);
            assert(again.visits == own + second.visits);
        } else {
            lemma_scan_again(
                tree,
                taken,
                file,
                entry.module,
                entry.search_directory,
                depth,
                open,
                later,
                other_module,
            );
        }
    } else {
        lemma_scan_again(
            tree,
            store,
            file,
            module,
            search_directory_of(file),
            depth,
            open,
            later,
            other_module,
        );
    }
}

/// An untangled scan that went well is repeated, without a scan, by a visit
/// of the same file from any cache that holds, for the files that were
/// visited, what the scan left.
pub proof fn lemma_scan_again(
    tree: Map<Seq<char>, FileModel>,
    store: Map<Seq<char>, EntryModel>,
    file: Seq<Seq<char>>,
    module: Seq<Seq<char>>,
    directory: Seq<Seq<char>>,
    depth: nat,
    open: Set<Seq<char>>,
    later: Map<Seq<char>, EntryModel>,
    other_module: Seq<Seq<char>>,
)
    requires
        module.len() > 0,
        !open.contains(path_text(file)),
        untangled_scan(tree, store, file, module, directory, depth, open),
        tree.contains_key(path_text(file)),
        scan_file_of(tree, store, file, module, directory, depth).end is Done,
        agrees_on(
            later,
            scan_file_of(tree, store, file, module, directory, depth).store,
            keys_of(scan_file_of(tree, store, file, module, directory, depth).visits),
        ),
    ensures
        repeats(
            visit_of(tree, later, file, other_module, depth),
            scan_file_of(tree, store, file, module, directory, depth),
            later,
        ),
    decreases depth, 0nat,
{
    let out = scan_file_of(tree, store, file, module, directory, depth);
    let again = visit_of(tree, later, file, other_module, depth);
    let key = path_text(file);
    match tree[key].content {
        ContentModel::Items(items) => {
            let found = scan_of(items, module, directory);
            let inner = resolve_of(tree, store, found.modules, (depth - 1) as nat);
            let entry = EntryModel {
                last_modified: tree[key].modified,
                module,
                search_directory: directory,
                fn_paths: found.declarations,
                referenced_files: candidates_of(tree, found.modules),
            };
            let own = seq![VisitModel { key, scanned: true }];
            let replayed = seq![VisitModel { key, scanned: false }];
            lemma_scan_named(items, module, directory);
            assert(entry.well_formed());
            lemma_resolve_outside(tree, store, found.modules, (depth - 1) as nat, open.insert(key));
            lemma_own_outside(own, inner.visits, key, open);
            lemma_agrees_within(later, inner, out, key, entry, own);
            lemma_resolve_again(
                tree,
                store,
                found.modules,
                (depth - 1) as nat,
                open.insert(key),
                later.remove(key),
                module,
            );
            let second = replay_of(
                tree,
                later.remove(key),
                entry.referenced_files,
                module,
                (depth - 1) as nat,
            );
            lemma_keys_concat(own, inner.visits);
            lemma_keys_concat(replayed, second.visits);
            assert(again.visits == replayed + second.visits);
            assert(keys_of(own) =~= keys_of(replayed));
        },
        _ => {},
    }
}

/// Untangled visits of a fresh entry's files that went well are repeated,
/// without a scan, from any cache that holds, for the files that were
/// visited, what the first visits left.
pub proof fn lemma_replay_again(
    tree: Map<Seq<char>, FileModel>,
    store: Map<Seq<char>, EntryModel>,
    files: Seq<Seq<Seq<char>>>,
    module: Seq<Seq<char>>,
    depth: nat,
    open: Set<Seq<char>>,
    later: Map<Seq<char>, EntryModel>,
    other_module: Seq<Seq<char>>,
)
    requires
        module.len() > 0,
        untangled_replay(tree, store, files, module, depth, open),
        replay_of(tree, store, files, module, depth).end is Done,
        agrees_on(
            later,
            replay_of(tree, store, files, module, depth).store,
            keys_of(replay_of(tree, store, files, module, depth).visits),
        ),
    ensures
        repeats(
            replay_of(tree, later, files, other_module, depth),
            replay_of(tree, store, files, module, depth),
            later,
        ),
    decreases depth, files.len() + 2,
{
    let out = replay_of(tree, store, files, module, depth);
    let again = replay_of(tree, later, files, other_module, depth);
    if files.len() == 0 {
        assert(keys_of(again.visits) =~= keys_of(out.visits));
    } else {
        let file = normalized(files[0]);
        let first = visit_of(tree, store, file, module, depth);
        let rest = replay_of(tree, first.store, files.drop_first(), module, depth);
        lemma_visit_settled(tree, store, file, module, depth);
        assert forall|other: Seq<char>| #[trigger]
            keys_of(first.visits).contains(other) implies rest.store.contains_key(other)
            && rest.store[other] == first.store[other] by {
            lemma_replay_stable(tree, first.store, files.drop_first(), module, depth, other);
        }
        lemma_agrees_shared(later, first, rest);
        lemma_visit_again(tree, store, file, module, depth, open, later, other_module);
        lemma_replay_again(
            tree,
            first.store,
            files.drop_first(),
            module,
            depth,
            open,
            later,
            other_module,
        );
        let first_again = visit_of(tree, later, file, other_module, depth);
        let rest_again = replay_of(tree, later, files.drop_first(), other_module, depth);
        lemma_keys_concat(first.visits, rest.visits);
        lemma_keys_concat(first_again.visits, rest_again.visits);
        assert(again == rest_again.after(first_again));
    }
}

/// Untangled visits of external modules that went well are repeated, without
/// a scan, by visits of the modules' files from any cache that holds, for the
/// files that were visited, what the first visits left.
pub proof fn lemma_resolve_again(
    tree: Map<Seq<char>, FileModel>,
    store: Map<Seq<char>, EntryModel>,
    modules: Seq<ModuleReferenceModel>,
    depth: nat,
    open: Set<Seq<char>>,
    later: Map<Seq<char>, EntryModel>,
    other_module: Seq<Seq<char>>,
)
    requires
        modules_named(modules),
        untangled_resolve(tree, store, modules, depth, open),
        resolve_of(tree, store, modules, depth).end is Done,
        agrees_on(
            later,
            resolve_of(tree, store, modules, depth).store,
            keys_of(resolve_of(tree, store, modules, depth).visits),
        ),
    ensures
        repeats(
            replay_of(tree, later, candidates_of(tree, modules), other_module, depth),
            resolve_of(tree, store, modules, depth),
            later,
        ),
    decreases depth, modules.len() + 2,
{
    let out = resolve_of(tree, store, modules, depth);
    let files = candidates_of(tree, modules);
    let again = replay_of(tree, later, files, other_module, depth);
    if modules.len() == 0 {
        assert(keys_of(again.visits) =~= keys_of(out.visits));
    } else {
        let file = normalized(candidate_of(tree, modules[0]));
        let visit = visit_of(tree, store, file, modules[0].module, depth);
        let first = Outcome { steps: visit.steps + 1, ..visit };
        let rest = resolve_of(tree, first.store, modules.drop_first(), depth);
        assert(files.drop_first() =~= candidates_of(tree, modules.drop_first()));
        lemma_named_rest(modules);
        lemma_visit_settled(tree, store, file, modules[0].module, depth);
        assert forall|other: Seq<char>| #[trigger]
            keys_of(first.visits).contains(other) implies rest.store.contains_key(other)
            && rest.store[other] == first.store[other] by {
            lemma_resolve_stable(tree, first.store, modules.drop_first(), depth, other);
        }
        lemma_agrees_shared(later, first, rest);
        lemma_visit_again(
            tree,
            store,
            file,
            modules[0].module,
            depth,
            open,
            later,
            other_module,
        );
        lemma_resolve_again(
            tree,
            first.store,
            modules.drop_first(),
            depth,
            open,
            later,
            other_module,
        );
        let first_again = visit_of(tree, later, file, other_module, depth);
        let rest_again = replay_of(tree, later, files.drop_first(), other_module, depth);
        lemma_keys_concat(first.visits, rest.visits);
        lemma_keys_concat(first_again.visits, rest_again.visits);
        assert(again == rest_again.after(first_again));
    }
}

/// The children of a visit visited neither an open file nor the file of the
/// visit, where the visit visited no open file and no file twice.
pub proof fn lemma_inner_outside(
    own: Seq<VisitModel>,
    inner: Seq<VisitModel>,
    key: Seq<char>,
    open: Set<Seq<char>>,
)
    requires
        own.len() == 1,
        own[0].key == key,
        keys_of(own + inner).no_duplicates(),
        outside(keys_of(own + inner), open),
    ensures
        !open.contains(key),
        keys_of(inner).no_duplicates(),
        outside(keys_of(inner), open.insert(key)),
{
    lemma_keys_concat(own, inner);
    lemma_distinct_split(keys_of(own), keys_of(inner));
    assert(keys_of(own)[0] == key);
    assert(keys_of(own).contains(key));
    assert(keys_of(own + inner).contains(key));
    assert forall|other: Seq<char>| #[trigger] keys_of(inner).contains(other) implies !open.insert(
        key,
    ).contains(other) by {
        assert(keys_of(own + inner).contains(other));
    }
}

/// Each of two runs of visits visited no open file and no file twice, where
/// both together did so.
pub proof fn lemma_each_outside(first: Seq<VisitModel>, rest: Seq<VisitModel>, open: Set<Seq<char>>)
    requires
        keys_of(first + rest).no_duplicates(),
        outside(keys_of(first + rest), open),
    ensures
        keys_of(first).no_duplicates(),
        keys_of(rest).no_duplicates(),
        outside(keys_of(first), open),
        outside(keys_of(rest), open),
{
    lemma_keys_concat(first, rest);
    lemma_distinct_split(keys_of(first), keys_of(rest));
    assert forall|other: Seq<char>| #[trigger] keys_of(first).contains(other) implies !open.contains(
        other,
    ) by {
        assert(keys_of(first + rest).contains(other));
    }
    assert forall|other: Seq<char>| #[trigger] keys_of(rest).contains(other) implies !open.contains(
        other,
    ) by {
        assert(keys_of(first + rest).contains(other));
    }
}

/// A visit that went well, visited no file twice and no open file is
/// untangled.
pub proof fn lemma_distinct_visit(
    tree: Map<Seq<char>, FileModel>,
    store: Map<Seq<char>, EntryModel>,
    file: Seq<Seq<char>>,
    module: Seq<Seq<char>>,
    depth: nat,
    open: Set<Seq<char>>,
)
    requires
        visit_of(tree, store, file, module, depth).end is Done,
        keys_of(visit_of(tree, store, file, module, depth).visits).no_duplicates(),
        outside(keys_of(visit_of(tree, store, file, module, depth).visits), open),
    ensures
        untangled_visit(tree, store, file, module, depth, open),
    decreases depth, 1nat,
{
    let out = visit_of(tree, store, file, module, depth);
    let key = path_text(file);
    assert(depth > 0 && tree.contains_key(key));
    if store.contains_key(key) {
        let entry = store[key];
        let taken = store.remove(key);
        assert(entry.well_formed());
        if entry.last_modified == tree[key].modified {
            let inner = replay_of(
                tree,
                taken,
                entry.referenced_files,
                entry.module,
                (depth - 1) as nat,
            );
            let own = seq![VisitModel { key, scanned: false }];
            lemma_inner_outside(own, inner.visits, key, open);
            lemma_distinct_replay(
                tree,
                taken,
                entry.referenced_files,
                entry.module,
                (depth - 1) as nat,
                open.insert(key),
            );
        } else {
            lemma_distinct_scan(tree, taken, file, entry.module, entry.search_directory, depth, open);
        }
    } else {
        lemma_distinct_scan(tree, store, file, module, search_directory_of(file), depth, open);
    }
}

/// A scan that went well, with visits of no file twice and of no open file,
/// is untangled.
pub proof fn lemma_distinct_scan(
    tree: Map<Seq<char>, FileModel>,
    store: Map<Seq<char>, EntryModel>,
    file: Seq<Seq<char>>,
    module: Seq<Seq<char>>,
    directory: Seq<Seq<char>>,
    depth: nat,
    open: Set<Seq<char>>,
)
    requires
        tree.contains_key(path_text(file)),
        scan_file_of(tree, store, file, module, directory, depth).end is Done,
        keys_of(scan_file_of(tree, store, file, module, directory, depth).visits).no_duplicates(),
        outside(keys_of(scan_file_of(tree, store, file, module, directory, depth).visits), open),
    ensures
        !open.contains(path_text(file)),
        untangled_scan(tree, store, file, module, directory, depth, open),
    decreases depth, 0nat,
{
    let key = path_text(file);
    match tree[key].content {
        ContentModel::Items(items) => {
            let found = scan_of(items, module, directory);
            let inner = resolve_of(tree, store, found.modules, (depth - 1) as nat);
            let own = seq![VisitModel { key, scanned: true }];
            lemma_inner_outside(own, inner.visits, key, open);
            lemma_distinct_resolve(tree, store, found.modules, (depth - 1) as nat, open.insert(key));
        },
        _ => {},
    }
}

/// Visits of a fresh entry's files that went well, of no file twice and of no
/// open file, are untangled.
pub proof fn lemma_distinct_replay(
    tree: Map<Seq<char>, FileModel>,
    store: Map<Seq<char>, EntryModel>,
    files: Seq<Seq<Seq<char>>>,
    module: Seq<Seq<char>>,
    depth: nat,
    open: Set<Seq<char>>,
)
    requires
        replay_of(tree, store, files, module, depth).end is Done,
        keys_of(replay_of(tree, store, files, module, depth).visits).no_duplicates(),
        outside(keys_of(replay_of(tree, store, files, module, depth).visits), open),
    ensures
        untangled_replay(tree, store, files, module, depth, open),
    decreases depth, files.len() + 2,
{
    if files.len() > 0 {
        let file = normalized(files[0]);
        let first = visit_of(tree, store, file, module, depth);
        let rest = replay_of(tree, first.store, files.drop_first(), module, depth);
        lemma_each_outside(first.visits, rest.visits, open);
        lemma_distinct_visit(tree, store, file, module, depth, open);
        lemma_distinct_replay(tree, first.store, files.drop_first(), module, depth, open);
    }
}

/// Visits of external modules that went well, of no file twice and of no
/// open file, are untangled.
pub proof fn lemma_distinct_resolve(
    tree: Map<Seq<char>, FileModel>,
    store: Map<Seq<char>, EntryModel>,
    modules: Seq<ModuleReferenceModel>,
    depth: nat,
    open: Set<Seq<char>>,
)
    requires
        resolve_of(tree, store, modules, depth).end is Done,
        keys_of(resolve_of(tree, store, modules, depth).visits).no_duplicates(),
        outside(keys_of(resolve_of(tree, store, modules, depth).visits), open),
    ensures
        untangled_resolve(tree, store, modules, depth, open),
    decreases depth, modules.len() + 2,
{
    if modules.len() > 0 {
        let file = normalized(candidate_of(tree, modules[0]));
        let visit = visit_of(tree, store, file, modules[0].module, depth);
        let first = Outcome { steps: visit.steps + 1, ..visit };
        let rest = resolve_of(tree, first.store, modules.drop_first(), depth);
        lemma_each_outside(first.visits, rest.visits, open);
        lemma_distinct_visit(tree, store, file, modules[0].module, depth, open);
        lemma_distinct_resolve(tree, first.store, modules.drop_first(), depth, open);
    }
}

/// Whether a pass reaches no file while the visit of that file lasts.
pub open spec fn untangled(
    tree: Map<Seq<char>, FileModel>,
    store: Map<Seq<char>, EntryModel>,
    root: Seq<Seq<char>>,
    module: Seq<Seq<char>>,
    depth: nat,
) -> bool {
    untangled_visit(tree, store, normalized(root), module, depth, Set::empty())
}

/// Idempotence, with files shared. A pass that went well and reached no file
/// while the visit of that file lasted is repeated by a second pass over the
/// same files from the cache that the first pass left: the same registrations
/// in the same order, the same cache, and no file scanned.
pub proof fn law_idempotence_with_sharing(
    tree: Map<Seq<char>, FileModel>,
    store: Map<Seq<char>, EntryModel>,
    root: Seq<Seq<char>>,
    module: Seq<Seq<char>>,
    depth: nat,
)
    requires
        module.len() > 0,
        pass_of(tree, store, root, module, depth).end is Done,
        untangled(tree, store, root, module, depth),
    ensures
        ({
            let first = pass_of(tree, store, root, module, depth);
            let second = pass_of(tree, first.store, root, module, depth);
            &&& second.end is Done
            &&& second.emitted == first.emitted
            &&& second.store == first.store
            &&& none_scanned(second.visits)
        }),
{
    let first = pass_of(tree, store, root, module, depth);
    lemma_visit_again(
        tree,
        store,
        normalized(root),
        module,
        depth,
        Set::empty(),
        first.store,
        module,
    );
}

/// Deterministic ordering, with files shared. A pass from an empty cache and
/// the pass that follows it from the cache it left emit the same
/// registrations in the same order, where the first went well and reached no
/// file while the visit of that file lasted.
pub proof fn law_cold_and_warm_agree_with_sharing(
    tree: Map<Seq<char>, FileModel>,
    root: Seq<Seq<char>>,
    module: Seq<Seq<char>>,
    depth: nat,
)
    requires
        module.len() > 0,
        pass_of(tree, Map::empty(), root, module, depth).end is Done,
        untangled(tree, Map::empty(), root, module, depth),
    ensures
        ({
            let cold = pass_of(tree, Map::empty(), root, module, depth);
            let warm = pass_of(tree, cold.store, root, module, depth);
            warm.end is Done && warm.emitted == cold.emitted
        }),
{
    law_idempotence_with_sharing(tree, Map::empty(), root, module, depth);
}

/// A pass that went well and visited no file twice reached no file while the
/// visit of that file lasted.
pub proof fn lemma_distinct_is_untangled(
    tree: Map<Seq<char>, FileModel>,
    store: Map<Seq<char>, EntryModel>,
    root: Seq<Seq<char>>,
    module: Seq<Seq<char>>,
    depth: nat,
)
    requires
        pass_of(tree, store, root, module, depth).end is Done,
        keys_of(pass_of(tree, store, root, module, depth).visits).no_duplicates(),
    ensures
        untangled(tree, store, root, module, depth),
{
    lemma_distinct_visit(tree, store, normalized(root), module, depth, Set::empty());
}

/// A file whose entry is fresh when an untangled visit begins is not scanned
/// in that visit, where the visit goes well.
pub proof fn lemma_visit_passes_by(
    tree: Map<Seq<char>, FileModel>,
    store: Map<Seq<char>, EntryModel>,
    file: Seq<Seq<char>>,
    module: Seq<Seq<char>>,
    depth: nat,
    open: Set<Seq<char>>,
    fresh: Seq<char>,
)
    requires
        fresh_in(tree, store, fresh),
        untangled_visit(tree, store, file, module, depth, open),
        visit_of(tree, store, file, module, depth).end is Done,
    ensures
        spared(visit_of(tree, store, file, module, depth).visits, fresh),
    decreases depth, 1nat,
{
    let key = path_text(file);
    assert(depth > 0 && tree.contains_key(key));
    if store.contains_key(key) {
        let entry = store[key];
        let taken = store.remove(key);
        assert(entry.well_formed());
        if entry.last_modified == tree[key].modified {
            let inner = replay_of(
                tree,
                taken,
                entry.referenced_files,
                entry.module,
                (depth - 1) as nat,
            );
            let own = seq![VisitModel { key, scanned: false }];
            if key == fresh {
                lemma_replay_outside(
                    tree,
                    taken,
                    entry.referenced_files,
                    entry.module,
                    (depth - 1) as nat,
                    open.insert(key),
                );
                lemma_own_outside(own, inner.visits, key, open);
                lemma_spared_outside(inner.visits, fresh);
            } else {
                lemma_replay_passes_by(
                    tree,
                    taken,
                    entry.referenced_files,
                    entry.module,
                    (depth - 1) as nat,
                    open.insert(key),
                    fresh,
                );
            }
            lemma_spared_concat(own, inner.visits, fresh);
        } else {
            lemma_scan_passes_by(
                tree,
                taken,
                file,
                entry.module,
                entry.search_directory,
                depth,
                open,
                fresh,
            );
        }
    } else {
        lemma_scan_passes_by(
            tree,
            store,
            file,
            module,
            search_directory_of(file),
            depth,
            open,
            fresh,
        );
    }
}

/// A file whose entry is fresh when the scan of another file begins is not
/// scanned in the untangled visits that follow from that scan, where they go
/// well.
pub proof fn lemma_scan_passes_by(
    tree: Map<Seq<char>, FileModel>,
    store: Map<Seq<char>, EntryModel>,
    file: Seq<Seq<char>>,
    module: Seq<Seq<char>>,
    directory: Seq<Seq<char>>,
    depth: nat,
    open: Set<Seq<char>>,
    fresh: Seq<char>,
)
    requires
        fresh_in(tree, store, fresh),
        fresh != path_text(file),
        untangled_scan(tree, store, file, module, directory, depth, open),
        tree.contains_key(path_text(file)),
        scan_file_of(tree, store, file, module, directory, depth).end is Done,
    ensures
        spared(scan_file_of(tree, store, file, module, directory, depth).visits, fresh),
    decreases depth, 0nat,
{
    let key = path_text(file);
    match tree[key].content {
        ContentModel::Items(items) => {
            let found = scan_of(items, module, directory);
            let inner = resolve_of(tree, store, found.modules, (depth - 1) as nat);
            let own = seq![VisitModel { key, scanned: true }];
            lemma_resolve_passes_by(
                tree,
                store,
                found.modules,
                (depth - 1) as nat,
                open.insert(key),
                fresh,
            );
            lemma_spared_concat(own, inner.visits, fresh);
        },
        _ => {},
    }
}

/// A file whose entry is fresh when untangled visits of a fresh entry's files
/// begin is not scanned in them, where they go well.
pub proof fn lemma_replay_passes_by(
    tree: Map<Seq<char>, FileModel>,
    store: Map<Seq<char>, EntryModel>,
    files: Seq<Seq<Seq<char>>>,
    module: Seq<Seq<char>>,
    depth: nat,
    open: Set<Seq<char>>,
    fresh: Seq<char>,
)
    requires
        fresh_in(tree, store, fresh),
        untangled_replay(tree, store, files, module, depth, open),
        replay_of(tree, store, files, module, depth).end is Done,
    ensures
        spared(replay_of(tree, store, files, module, depth).visits, fresh),
    decreases depth, files.len() + 2,
{
    if files.len() > 0 {
        let file = normalized(files[0]);
        let first = visit_of(tree, store, file, module, depth);
        let rest = replay_of(tree, first.store, files.drop_first(), module, depth);
        lemma_visit_passes_by(tree, store, file, module, depth, open, fresh);
        lemma_visit_stable(tree, store, file, module, depth, fresh);
        lemma_replay_passes_by(tree, first.store, files.drop_first(), module, depth, open, fresh);
        lemma_spared_concat(first.visits, rest.visits, fresh);
    }
}

/// A file whose entry is fresh when untangled visits of external modules
/// begin is not scanned in them, where they go well.
pub proof fn lemma_resolve_passes_by(
    tree: Map<Seq<char>, FileModel>,
    store: Map<Seq<char>, EntryModel>,
    modules: Seq<ModuleReferenceModel>,
    depth: nat,
    open: Set<Seq<char>>,
    fresh: Seq<char>,
)
    requires
        fresh_in(tree, store, fresh),
        untangled_resolve(tree, store, modules, depth, open),
        resolve_of(tree, store, modules, depth).end is Done,
    ensures
        spared(resolve_of(tree, store, modules, depth).visits, fresh),
    decreases depth, modules.len() + 2,
{
    if modules.len() > 0 {
        let file = normalized(candidate_of(tree, modules[0]));
        let visit = visit_of(tree, store, file, modules[0].module, depth);
        let first = Outcome { steps: visit.steps + 1, ..visit };
        let rest = resolve_of(tree, first.store, modules.drop_first(), depth);
        lemma_visit_passes_by(tree, store, file, modules[0].module, depth, open, fresh);
        lemma_visit_stable(tree, store, file, modules[0].module, depth, fresh);
        lemma_resolve_passes_by(tree, first.store, modules.drop_first(), depth, open, fresh);
        lemma_spared_concat(first.visits, rest.visits, fresh);
    }
}

/// Cache correctness, with files shared. A file of which the cache holds a
/// fresh entry is not scanned by a pass that goes well and reaches no file
/// while the visit of that file lasts, however often the file is visited; and
/// whether or not the pass reaches such files, the entry is in the cache
/// afterwards as it was before.
pub proof fn law_fresh_files_stay_with_sharing(
    tree: Map<Seq<char>, FileModel>,
    store: Map<Seq<char>, EntryModel>,
    root: Seq<Seq<char>>,
    module: Seq<Seq<char>>,
    depth: nat,
    fresh: Seq<char>,
)
    requires
        fresh_in(tree, store, fresh),
        pass_of(tree, store, root, module, depth).end is Done,
    ensures
        pass_of(tree, store, root, module, depth).store.contains_key(fresh),
        pass_of(tree, store, root, module, depth).store[fresh] == store[fresh],
        untangled(tree, store, root, module, depth) ==> spared(
            pass_of(tree, store, root, module, depth).visits,
            fresh,
        ),
{
    lemma_visit_stable(tree, store, normalized(root), module, depth, fresh);
    if untangled(tree, store, root, module, depth) {
        lemma_visit_passes_by(tree, store, normalized(root), module, depth, Set::empty(), fresh);
    }
}

} // verus!
