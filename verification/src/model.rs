//! What a pass computes, stated over a file tree.
//!
//! A file tree says of each file, by the text of its path, when it was last
//! modified and what it holds. [`pass_of`] is the whole pass as one recursive
//! function of the tree and the cache; [`run_of`] is the pass as the machine of
//! [`crate::pass`] runs it when every request is answered from the tree.

use vstd::prelude::*;
use crate::cache::{EntryModel, Timestamp};
use crate::declaration::{registrations_of, RegistrationModel};
use crate::pass::{request_of, PassError, PassModel, ReplyModel, RequestModel, VisitModel};
use crate::path::{
    module_directory_file_of, module_file_of, normalized, path_text, search_directory_of,
};
use crate::scan::{scan_of, ModuleReferenceModel};
use crate::source::ItemModel;

verus! {

/// What a file holds.
pub enum ContentModel {
    /// The file cannot be read.
    Unreadable,
    /// The file is not valid source.
    Unparseable,
    /// The declarations of the file.
    Items(Seq<ItemModel>),
}

/// A file of the tree.
pub struct FileModel {
    pub modified: Timestamp,
    pub content: ContentModel,
}

/// How a pass, or a part of one, ended.
pub enum End {
    /// It ran to completion.
    Done,
    /// It failed.
    Failed(PassError),
    /// Visits nest deeper than the depth it was given.
    TooDeep,
}

/// What a pass, or a part of one, did.
pub struct Outcome {
    /// The cache afterwards.
    pub store: Map<Seq<char>, EntryModel>,
    /// The registrations emitted, in order.
    pub emitted: Seq<RegistrationModel>,
    /// The visits made, in order.
    pub visits: Seq<VisitModel>,
    /// The number of requests answered.
    pub steps: nat,
    /// How it ended.
    pub end: End,
}

impl Outcome {
    /// Nothing done.
    pub open spec fn nothing(store: Map<Seq<char>, EntryModel>) -> Outcome {
        Outcome { store, emitted: Seq::empty(), visits: Seq::empty(), steps: 0, end: End::Done }
    }

    /// A failure after `steps` requests, with nothing emitted.
    pub open spec fn failure(store: Map<Seq<char>, EntryModel>, steps: nat, error: PassError) -> Outcome {
        Outcome {
            store,
            emitted: Seq::empty(),
            visits: Seq::empty(),
            steps,
            end: End::Failed(error),
        }
    }

    /// This outcome, reached after an earlier one.
    pub open spec fn after(self, earlier: Outcome) -> Outcome {
        Outcome {
            store: self.store,
            emitted: earlier.emitted + self.emitted,
            visits: earlier.visits + self.visits,
            steps: earlier.steps + self.steps,
            end: self.end,
        }
    }

    /// The outcome of a visit of the file `key` that registered `emitted`,
    /// took `steps` requests of its own, had `inner` as the outcome of its
    /// children, and puts `entry` into the cache when all went well.
    pub open spec fn around(
        inner: Outcome,
        key: Seq<char>,
        entry: EntryModel,
        emitted: Seq<RegistrationModel>,
        scanned: bool,
        steps: nat,
    ) -> Outcome {
        Outcome {
            store: if inner.end is Done {
                inner.store.insert(key, entry)
            } else {
                inner.store
            },
            emitted: emitted + inner.emitted,
            visits: seq![VisitModel { key, scanned }] + inner.visits,
            steps: steps + inner.steps,
            end: inner.end,
        }
    }
}

/// The reply that the tree gives to a request.
pub open spec fn answer(tree: Map<Seq<char>, FileModel>, request: RequestModel) -> ReplyModel {
    match request {
        RequestModel::Modified(file) => if tree.contains_key(path_text(file)) {
            ReplyModel::Modified(tree[path_text(file)].modified)
        } else {
            ReplyModel::Unreadable
        },
        RequestModel::Content(file) => if tree.contains_key(path_text(file)) {
            match tree[path_text(file)].content {
                ContentModel::Unreadable => ReplyModel::Unreadable,
                ContentModel::Unparseable => ReplyModel::Unparseable,
                ContentModel::Items(items) => ReplyModel::Items(items),
            }
        } else {
            ReplyModel::Unreadable
        },
        RequestModel::Exists(file) => ReplyModel::Exists(tree.contains_key(path_text(file))),
        RequestModel::Finished => ReplyModel::Unreadable,
    }
}

/// The pass after `steps` requests, each answered from the tree.
pub open spec fn run_of(tree: Map<Seq<char>, FileModel>, pass: PassModel, steps: nat) -> PassModel
    decreases steps,
{
    if steps == 0 {
        pass
    } else {
        run_of(tree, pass.stepped(answer(tree, request_of(pass.phase))), (steps - 1) as nat)
    }
}

/// The file of an external module: the single file where the tree has it, else
/// the file in the module's own directory.
pub open spec fn candidate_of(tree: Map<Seq<char>, FileModel>, module: ModuleReferenceModel) -> Seq<
    Seq<char>,
> {
    if tree.contains_key(path_text(module_file_of(module.directory, module.name))) {
        module_file_of(module.directory, module.name)
    } else {
        module_directory_file_of(module.directory, module.name)
    }
}

/// The files of a list of external modules.
pub open spec fn candidates_of(
    tree: Map<Seq<char>, FileModel>,
    modules: Seq<ModuleReferenceModel>,
) -> Seq<Seq<Seq<char>>> {
    Seq::new(modules.len(), |i: int| candidate_of(tree, modules[i]))
}

/// The visit of one file, whose path is normalized, and of all that it leads
/// to. The file's entry leaves the cache while the visit lasts. A well-formed
/// entry that bears the file's modification time is used again: its
/// declarations are registered, the files it refers to are visited under the
/// entry's module, and the entry goes back unchanged. Otherwise the file is
/// scanned.
pub open spec fn visit_of(
    tree: Map<Seq<char>, FileModel>,
    store: Map<Seq<char>, EntryModel>,
    file: Seq<Seq<char>>,
    module: Seq<Seq<char>>,
    depth: nat,
) -> Outcome
    decreases depth, 1nat,
{
    let key = path_text(file);
    if depth == 0 {
        Outcome { end: End::TooDeep, ..Outcome::nothing(store) }
    } else if !tree.contains_key(key) {
        Outcome::failure(store, 1, PassError::MetadataUnreadable)
    } else if store.contains_key(key) {
        let entry = store[key];
        let taken = store.remove(key);
        if !entry.well_formed() {
            Outcome::failure(taken, 1, PassError::MalformedEntry)
        } else if entry.last_modified == tree[key].modified {
            Outcome::around(
                replay_of(tree, taken, entry.referenced_files, entry.module, (depth - 1) as nat),
                key,
                entry,
                registrations_of(entry.fn_paths),
                false,
                1,
            )
        } else {
            scan_file_of(tree, taken, file, entry.module, entry.search_directory, depth)
        }
    } else {
        scan_file_of(tree, store, file, module, search_directory_of(file), depth)
    }
}

/// The scan of one file of the tree and the visits of its external modules.
/// The marked functions are registered first, in source order; then each
/// external module is visited, in source order, under its own module path. The
/// new entry bears the file's modification time.
pub open spec fn scan_file_of(
    tree: Map<Seq<char>, FileModel>,
    store: Map<Seq<char>, EntryModel>,
    file: Seq<Seq<char>>,
    module: Seq<Seq<char>>,
    directory: Seq<Seq<char>>,
    depth: nat,
) -> Outcome
    recommends
        depth > 0,
        tree.contains_key(path_text(file)),
    decreases depth, 0nat,
{
    let key = path_text(file);
    if depth == 0 {
        Outcome { end: End::TooDeep, ..Outcome::nothing(store) }
    } else {
        match tree[key].content {
            ContentModel::Unreadable => Outcome::failure(store, 2, PassError::ContentUnreadable),
            ContentModel::Unparseable => Outcome::failure(store, 2, PassError::Syntax),
            ContentModel::Items(items) => {
                let found = scan_of(items, module, directory);
                Outcome::around(
                    resolve_of(tree, store, found.modules, (depth - 1) as nat),
                    key,
                    EntryModel {
                        last_modified: tree[key].modified,
                        module,
                        search_directory: directory,
                        fn_paths: found.declarations,
                        referenced_files: candidates_of(tree, found.modules),
                    },
                    registrations_of(found.declarations),
                    true,
                    2,
                )
            },
        }
    }
}

/// The visits of the files that a fresh entry refers to, one after the other.
pub open spec fn replay_of(
    tree: Map<Seq<char>, FileModel>,
    store: Map<Seq<char>, EntryModel>,
    files: Seq<Seq<Seq<char>>>,
    module: Seq<Seq<char>>,
    depth: nat,
) -> Outcome
    decreases depth, files.len() + 2,
{
    if files.len() == 0 {
        Outcome::nothing(store)
    } else {
        let first = visit_of(tree, store, normalized(files[0]), module, depth);
        if first.end is Done {
            replay_of(tree, first.store, files.drop_first(), module, depth).after(first)
        } else {
            first
        }
    }
}

/// The visits of the files of external modules, one after the other. Each
/// takes one request to find the module's file, and then the visit.
pub open spec fn resolve_of(
    tree: Map<Seq<char>, FileModel>,
    store: Map<Seq<char>, EntryModel>,
    modules: Seq<ModuleReferenceModel>,
    depth: nat,
) -> Outcome
    decreases depth, modules.len() + 2,
{
    if modules.len() == 0 {
        Outcome::nothing(store)
    } else {
        let visit = visit_of(
            tree,
            store,
            normalized(candidate_of(tree, modules[0])),
            modules[0].module,
            depth,
        );
        let first = Outcome { steps: visit.steps + 1, ..visit };
        if first.end is Done {
            resolve_of(tree, first.store, modules.drop_first(), depth).after(first)
        } else {
            first
        }
    }
}

/// A whole pass on the root file, with visits nested at most `depth` deep.
pub open spec fn pass_of(
    tree: Map<Seq<char>, FileModel>,
    store: Map<Seq<char>, EntryModel>,
    root: Seq<Seq<char>>,
    module: Seq<Seq<char>>,
    depth: nat,
) -> Outcome {
    visit_of(tree, store, normalized(root), module, depth)
}

} // verus!
