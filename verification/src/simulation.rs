//! The machine of [`crate::pass`] computes what [`crate::model::pass_of`]
//! states: run against a file tree, it ends after as many requests as the
//! model counts, with the model's registrations and the model's cache.

use vstd::prelude::*;
use crate::cache::EntryModel;
use crate::declaration::{registrations_of, RegistrationModel};
use crate::model::{
    answer, candidate_of, candidates_of, pass_of, replay_of, resolve_of, run_of, scan_file_of,
    visit_of, ContentModel, End, FileModel, Outcome,
};
use crate::sharing::{law_idempotence_with_sharing, untangled};
use crate::pass::{advanced, begin_of, request_of, FrameModel, PassModel, PhaseModel, VisitModel};
use crate::path::{normalized, path_text};
use crate::scan::scan_of;

verus! {

/// A pass that waits for the modification time of a file.
pub open spec fn waiting(
    store: Map<Seq<char>, EntryModel>,
    emitted: Seq<RegistrationModel>,
    visits: Seq<VisitModel>,
    stack: Seq<FrameModel>,
    file: Seq<Seq<char>>,
    module: Seq<Seq<char>>,
) -> PassModel {
    PassModel {
        store,
        emitted,
        visits,
        stack,
        phase: PhaseModel::AwaitModified { file, module },
    }
}

/// Whether a pass ended as an outcome says, after the outcome's registrations
/// and visits and with the frames `stack` still open: a pass that went well has taken up
/// what comes next in those frames, a pass that failed holds the failure.
pub open spec fn ends_as(
    last: PassModel,
    out: Outcome,
    store: Map<Seq<char>, EntryModel>,
    emitted: Seq<RegistrationModel>,
    visits: Seq<VisitModel>,
    stack: Seq<FrameModel>,
) -> bool {
    match out.end {
        End::Done => last == advanced(store, emitted + out.emitted, visits + out.visits, stack),
        End::Failed(error) => last.phase == PhaseModel::Failed(error),
        End::TooDeep => true,
    }
}

/// Running `first + second` requests is running `first` and then `second`.
pub proof fn lemma_run_split(
    tree: Map<Seq<char>, FileModel>,
    pass: PassModel,
    first: nat,
    second: nat,
)
    ensures
        run_of(tree, pass, first + second) == run_of(tree, run_of(tree, pass, first), second),
    decreases first,
{
    if first > 0 {
        lemma_run_split(
            tree,
            pass.stepped(answer(tree, request_of(pass.phase))),
            (first - 1) as nat,
            second,
        );
        assert((first + second - 1) as nat == (first - 1) as nat + second);
    }
}

/// The machine, waiting for the modification time of a file, does what
/// [`visit_of`] states of the visit of that file.
pub proof fn lemma_visit_runs(
    tree: Map<Seq<char>, FileModel>,
    store: Map<Seq<char>, EntryModel>,
    emitted: Seq<RegistrationModel>,
    visits: Seq<VisitModel>,
    stack: Seq<FrameModel>,
    file: Seq<Seq<char>>,
    module: Seq<Seq<char>>,
    depth: nat,
)
    requires
        !(visit_of(tree, store, file, module, depth).end is TooDeep),
    ensures
        ends_as(
            run_of(
                tree,
                waiting(store, emitted, visits, stack, file, module),
                visit_of(tree, store, file, module, depth).steps,
            ),
            visit_of(tree, store, file, module, depth),
            visit_of(tree, store, file, module, depth).store,
            emitted,
            visits,
            stack,
        ),
    decreases depth, 1nat,
{
    let out = visit_of(tree, store, file, module, depth);
    let start = waiting(store, emitted, visits, stack, file, module);
    let key = path_text(file);
    let next = start.stepped(answer(tree, request_of(start.phase)));
    assert(depth > 0);
    assert(out.steps >= 1 ==> run_of(tree, start, out.steps) == run_of(
        tree,
        next,
        (out.steps - 1) as nat,
    ));
    if !tree.contains_key(key) {
        assert(run_of(tree, next, 0) == next);
    } else if store.contains_key(key) {
        let entry = store[key];
        let taken = store.remove(key);
        if !entry.well_formed() {
            assert(run_of(tree, next, 0) == next);
        } else if entry.last_modified == tree[key].modified {
            let frame = FrameModel { key, entry, modules: Seq::empty(), replay: true, next: 0 };
            let registered = emitted + registrations_of(entry.fn_paths);
            let visited = visits.push(VisitModel { key, scanned: false });
            assert(entry.referenced_files.skip(0) =~= entry.referenced_files);
            let inner = replay_of(
                tree,
                taken,
                entry.referenced_files,
                entry.module,
                (depth - 1) as nat,
            );
            lemma_replay_runs(tree, taken, registered, visited, stack, frame, (depth - 1) as nat);
            assert(next == advanced(taken, registered, visited, stack.push(frame)));
            assert(registered + inner.emitted =~= emitted + out.emitted);
            assert(visited + inner.visits =~= visits + out.visits);
        } else {
            lemma_scan_runs(
                tree,
                taken,
                emitted,
                visits,
                stack,
                file,
                entry.module,
                entry.search_directory,
                depth,
            );
        }
    } else {
        lemma_scan_runs(
            tree,
            store,
            emitted,
            visits,
            stack,
            file,
            module,
            crate::path::search_directory_of(file),
            depth,
        );
    }
}

/// The machine, waiting for the content of a file, does what
/// [`scan_file_of`] states of the scan of that file.
pub proof fn lemma_scan_runs(
    tree: Map<Seq<char>, FileModel>,
    store: Map<Seq<char>, EntryModel>,
    emitted: Seq<RegistrationModel>,
    visits: Seq<VisitModel>,
    stack: Seq<FrameModel>,
    file: Seq<Seq<char>>,
    module: Seq<Seq<char>>,
    directory: Seq<Seq<char>>,
    depth: nat,
)
    requires
        tree.contains_key(path_text(file)),
        !(scan_file_of(tree, store, file, module, directory, depth).end is TooDeep),
    ensures
        scan_file_of(tree, store, file, module, directory, depth).steps >= 2,
        ends_as(
            run_of(
                tree,
                PassModel {
                    store,
                    emitted,
                    visits,
                    stack,
                    phase: PhaseModel::AwaitContent {
                        file,
                        module,
                        directory,
                        modified: tree[path_text(file)].modified,
                    },
                },
                (scan_file_of(tree, store, file, module, directory, depth).steps - 1) as nat,
            ),
            scan_file_of(tree, store, file, module, directory, depth),
            scan_file_of(tree, store, file, module, directory, depth).store,
            emitted,
            visits,
            stack,
        ),
    decreases depth, 0nat,
{
    let out = scan_file_of(tree, store, file, module, directory, depth);
    let key = path_text(file);
    let start = PassModel {
        store,
        emitted,
        visits,
        stack,
        phase: PhaseModel::AwaitContent { file, module, directory, modified: tree[key].modified },
    };
    let next = start.stepped(answer(tree, request_of(start.phase)));
    assert(depth > 0);
    assert(out.steps >= 2);
    assert(run_of(tree, start, (out.steps - 1) as nat) == run_of(
        tree,
        next,
        (out.steps - 2) as nat,
    ));
    match tree[key].content {
        ContentModel::Unreadable => {
            assert(run_of(tree, next, 0) == next);
        },
        ContentModel::Unparseable => {
            assert(run_of(tree, next, 0) == next);
        },
        ContentModel::Items(items) => {
            let found = scan_of(items, module, directory);
            let entry = EntryModel {
                last_modified: tree[key].modified,
                module,
                search_directory: directory,
                fn_paths: found.declarations,
                referenced_files: Seq::empty(),
            };
            let frame = FrameModel { key, entry, modules: found.modules, replay: false, next: 0 };
            let registered = emitted + registrations_of(found.declarations);
            let visited = visits.push(VisitModel { key, scanned: true });
            assert(found.modules.skip(0) =~= found.modules);
            let inner = resolve_of(tree, store, found.modules, (depth - 1) as nat);
            lemma_resolve_runs(tree, store, registered, visited, stack, frame, (depth - 1) as nat);
            assert(next == advanced(store, registered, visited, stack.push(frame)));
            assert(registered + inner.emitted =~= emitted + out.emitted);
            assert(visited + inner.visits =~= visits + out.visits);
            assert(entry.referenced_files + candidates_of(tree, found.modules) =~= candidates_of(
                tree,
                found.modules,
            ));
        },
    }
}

/// The machine, with a frame whose entry was found fresh, visits the files
/// that the entry refers to as [`replay_of`] states, and puts the entry back.
pub proof fn lemma_replay_runs(
    tree: Map<Seq<char>, FileModel>,
    store: Map<Seq<char>, EntryModel>,
    emitted: Seq<RegistrationModel>,
    visits: Seq<VisitModel>,
    stack: Seq<FrameModel>,
    frame: FrameModel,
    depth: nat,
)
    requires
        frame.replay,
        frame.next <= frame.entry.referenced_files.len(),
        !(replay_of(
            tree,
            store,
            frame.entry.referenced_files.skip(frame.next as int),
            frame.entry.module,
            depth,
        ).end is TooDeep),
    ensures
        ({
            let out = replay_of(
                tree,
                store,
                frame.entry.referenced_files.skip(frame.next as int),
                frame.entry.module,
                depth,
            );
            ends_as(
                run_of(tree, advanced(store, emitted, visits, stack.push(frame)), out.steps),
                out,
                out.store.insert(frame.key, frame.entry),
                emitted,
                visits,
                stack,
            )
        }),
    decreases depth, frame.entry.referenced_files.len() - frame.next + 2,
{
    let files = frame.entry.referenced_files.skip(frame.next as int);
    let out = replay_of(tree, store, files, frame.entry.module, depth);
    let start = advanced(store, emitted, visits, stack.push(frame));
    assert(stack.push(frame).drop_last() =~= stack);
    if files.len() == 0 {
        assert(emitted + out.emitted =~= emitted);
        assert(visits + out.visits =~= visits);
    } else {
        let taken = FrameModel { next: frame.next + 1, ..frame };
        let file = normalized(files[0]);
        let first = visit_of(tree, store, file, frame.entry.module, depth);
        assert(start == waiting(
            store,
            emitted,
            visits,
            stack.push(taken),
            file,
            frame.entry.module,
        ));
        lemma_visit_runs(
            tree,
            store,
            emitted,
            visits,
            stack.push(taken),
            file,
            frame.entry.module,
            depth,
        );
        assert(files.drop_first() =~= frame.entry.referenced_files.skip(frame.next as int + 1));
        match first.end {
            End::Done => {
                let rest = replay_of(
                    tree,
                    first.store,
                    files.drop_first(),
                    frame.entry.module,
                    depth,
                );
                lemma_replay_runs(
                    tree,
                    first.store,
                    emitted + first.emitted,
                    visits + first.visits,
                    stack,
                    taken,
                    depth,
                );
                lemma_run_split(tree, start, first.steps, rest.steps);
                assert((emitted + first.emitted) + rest.emitted =~= emitted + out.emitted);
                assert((visits + first.visits) + rest.visits =~= visits + out.visits);
            },
            End::Failed(error) => {},
            End::TooDeep => {},
        }
    }
}

/// The machine, with a frame whose file was scanned, finds and visits the
/// files of the external modules as [`resolve_of`] states, and puts the new
/// entry into the cache with those files recorded.
pub proof fn lemma_resolve_runs(
    tree: Map<Seq<char>, FileModel>,
    store: Map<Seq<char>, EntryModel>,
    emitted: Seq<RegistrationModel>,
    visits: Seq<VisitModel>,
    stack: Seq<FrameModel>,
    frame: FrameModel,
    depth: nat,
)
    requires
        !frame.replay,
        frame.next <= frame.modules.len(),
        !(resolve_of(tree, store, frame.modules.skip(frame.next as int), depth).end is TooDeep),
    ensures
        ({
            let out = resolve_of(tree, store, frame.modules.skip(frame.next as int), depth);
            ends_as(
                run_of(tree, advanced(store, emitted, visits, stack.push(frame)), out.steps),
                out,
                out.store.insert(
                    frame.key,
                    EntryModel {
                        referenced_files: frame.entry.referenced_files + candidates_of(
                            tree,
                            frame.modules.skip(frame.next as int),
                        ),
                        ..frame.entry
                    },
                ),
                emitted,
                visits,
                stack,
            )
        }),
    decreases depth, frame.modules.len() - frame.next + 2,
{
    let modules = frame.modules.skip(frame.next as int);
    let out = resolve_of(tree, store, modules, depth);
    let start = advanced(store, emitted, visits, stack.push(frame));
    assert(stack.push(frame).drop_last() =~= stack);
    if modules.len() == 0 {
        assert(emitted + out.emitted =~= emitted);
        assert(visits + out.visits =~= visits);
        assert(frame.entry.referenced_files + candidates_of(tree, modules)
            =~= frame.entry.referenced_files);
    } else {
        let module = modules[0];
        let asked = FrameModel { next: frame.next + 1, ..frame };
        let chosen = candidate_of(tree, module);
        let file = normalized(chosen);
        let taken = FrameModel {
            entry: EntryModel {
                referenced_files: frame.entry.referenced_files.push(chosen),
                ..frame.entry
            },
            ..asked
        };
        let visit = visit_of(tree, store, file, module.module, depth);
        let next = start.stepped(answer(tree, request_of(start.phase)));
        assert(start.stack == stack.push(asked));
        assert(stack.push(asked).drop_last() =~= stack);
        assert(next == waiting(store, emitted, visits, stack.push(taken), file, module.module));
        assert(run_of(tree, start, out.steps) == run_of(tree, next, (out.steps - 1) as nat));
        lemma_visit_runs(
            tree,
            store,
            emitted,
            visits,
            stack.push(taken),
            file,
            module.module,
            depth,
        );
        assert(modules.drop_first() =~= frame.modules.skip(frame.next as int + 1));
        match visit.end {
            End::Done => {
                let rest = resolve_of(tree, visit.store, modules.drop_first(), depth);
                lemma_resolve_runs(
                    tree,
                    visit.store,
                    emitted + visit.emitted,
                    visits + visit.visits,
                    stack,
                    taken,
                    depth,
                );
                lemma_run_split(tree, next, visit.steps, rest.steps);
                assert((emitted + visit.emitted) + rest.emitted =~= emitted + out.emitted);
                assert((visits + visit.visits) + rest.visits =~= visits + out.visits);
                assert(taken.entry.referenced_files + candidates_of(tree, modules.drop_first())
                    =~= frame.entry.referenced_files + candidates_of(tree, modules));
            },
            End::Failed(error) => {},
            End::TooDeep => {},
        }
    }
}

/// The machine computes the pass. Begun on a root file and answered from a
/// file tree, it has, after the number of requests that [`pass_of`] counts,
/// finished with the registrations, the visits and the cache that [`pass_of`]
/// states, or failed with the error that [`pass_of`] states.
pub proof fn lemma_pass_runs(
    tree: Map<Seq<char>, FileModel>,
    store: Map<Seq<char>, EntryModel>,
    root: Seq<Seq<char>>,
    module: Seq<Seq<char>>,
    depth: nat,
)
    requires
        !(pass_of(tree, store, root, module, depth).end is TooDeep),
    ensures
        ({
            let out = pass_of(tree, store, root, module, depth);
            let last = run_of(tree, begin_of(store, root, module), out.steps);
            match out.end {
                End::Done => last == (PassModel {
                    store: out.store,
                    emitted: out.emitted,
                    visits: out.visits,
                    stack: Seq::empty(),
                    phase: PhaseModel::Finished,
                }),
                End::Failed(error) => last.phase == PhaseModel::Failed(error),
                End::TooDeep => true,
            }
        }),
{
    let out = pass_of(tree, store, root, module, depth);
    lemma_visit_runs(
        tree,
        store,
        Seq::empty(),
        Seq::empty(),
        Seq::empty(),
        normalized(root),
        module,
        depth,
    );
    assert(Seq::<RegistrationModel>::empty() + out.emitted =~= out.emitted);
    assert(Seq::<VisitModel>::empty() + out.visits =~= out.visits);
}

/// Idempotence, of the machine. Where a pass goes well and reaches no file
/// while the visit of that file lasts, the machine finishes it, and begun
/// again on the same files with the cache it ended with, finishes with the
/// same registrations and the same cache.
pub proof fn law_machine_repeats(
    tree: Map<Seq<char>, FileModel>,
    store: Map<Seq<char>, EntryModel>,
    root: Seq<Seq<char>>,
    module: Seq<Seq<char>>,
    depth: nat,
)
    requires
        module.len() > 0,
        pass_of(tree, store, root, module, depth).end is Done,
        untangled(tree, store, root, module, depth),
    ensures
        ({
            let first = run_of(
                tree,
                begin_of(store, root, module),
                pass_of(tree, store, root, module, depth).steps,
            );
            let second = run_of(
                tree,
                begin_of(first.store, root, module),
                pass_of(tree, first.store, root, module, depth).steps,
            );
            &&& first.phase == PhaseModel::Finished
            &&& second.phase == PhaseModel::Finished
            &&& second.emitted == first.emitted
            &&& second.store == first.store
        }),
{
    let out = pass_of(tree, store, root, module, depth);
    lemma_pass_runs(tree, store, root, module, depth);
    law_idempotence_with_sharing(tree, store, root, module, depth);
    lemma_pass_runs(tree, out.store, root, module, depth);
}

} // verus!
