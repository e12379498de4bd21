//! One pass of discovery, as a machine that the caller drives.
//!
//! The pass decides; the caller reads. A [`Pass`] states in a [`Request`] what
//! it needs to know of the file system, the caller finds out and hands the
//! answer back as a [`Reply`], and [`Pass::step`] gives the pass that follows
//! and its next request. The files that are being visited form a stack of
//! frames, innermost last.

use vstd::prelude::*;
use crate::cache::{CacheEntry, CacheStore, EntryModel, Timestamp};
use crate::declaration::{emit, registrations_of, Registration, RegistrationModel};
use crate::path::{
    module_directory_file_of, module_file_of, normalized, path_text, search_directory_of,
    FilePath,
};
use crate::scan::{scan_of, search_contents, ModuleReference, ModuleReferenceModel};
use crate::source::{items_model, ItemModel, SourceItem};
use crate::symbol::SymbolPath;
use crate::syntax::SyntaxError;
use crate::text::lemma_push_view;

verus! {

/// Why a pass failed.
#[derive(Clone, Copy, PartialEq, Eq, Structural, Debug)]
pub enum PassError {
    /// The modification time of a file could not be read.
    MetadataUnreadable,
    /// The content of a file could not be read.
    ContentUnreadable,
    /// The content of a file is not valid source.
    Syntax,
    /// The cache holds an entry that is not well formed.
    MalformedEntry,
    /// The caller answered a question that the pass had not asked.
    UnexpectedReply,
}

/// How far a pass has come.
#[derive(Clone, Copy, PartialEq, Eq, Structural, Debug)]
pub enum Status {
    /// The pass waits for a reply.
    Running,
    /// The pass is complete.
    Finished,
    /// The pass has failed and will go no further.
    Failed(PassError),
}

/// What a pass needs to know next.
pub enum Request {
    /// The modification time of the file.
    Modified(FilePath),
    /// The declarations in the file.
    Content(FilePath),
    /// Whether the file exists.
    Exists(FilePath),
    /// Nothing: the pass is complete or has failed.
    Finished,
}

/// What a [`Request`] stands for.
pub enum RequestModel {
    Modified(Seq<Seq<char>>),
    Content(Seq<Seq<char>>),
    Exists(Seq<Seq<char>>),
    Finished,
}

impl View for Request {
    type V = RequestModel;

    open spec fn view(&self) -> RequestModel {
        match self {
            Request::Modified(file) => RequestModel::Modified(file@),
            Request::Content(file) => RequestModel::Content(file@),
            Request::Exists(file) => RequestModel::Exists(file@),
            Request::Finished => RequestModel::Finished,
        }
    }
}

/// What the caller found out.
pub enum Reply {
    /// The modification time that was asked for.
    Modified(Timestamp),
    /// The file could not be read.
    Unreadable,
    /// The declarations in the file that was asked for.
    Items(Vec<SourceItem>),
    /// The content of the file is not valid source.
    Unparseable,
    /// Whether the file that was asked about exists.
    Exists(bool),
}

/// What a [`Reply`] stands for.
pub enum ReplyModel {
    Modified(Timestamp),
    Unreadable,
    Items(Seq<ItemModel>),
    Unparseable,
    Exists(bool),
}

impl View for Reply {
    type V = ReplyModel;

    open spec fn view(&self) -> ReplyModel {
        match self {
            Reply::Modified(time) => ReplyModel::Modified(*time),
            Reply::Unreadable => ReplyModel::Unreadable,
            Reply::Items(items) => ReplyModel::Items(items_model(items@)),
            Reply::Unparseable => ReplyModel::Unparseable,
            Reply::Exists(found) => ReplyModel::Exists(*found),
        }
    }
}

/// A file whose visit has begun and whose children are not all done.
pub struct Frame {
    /// The key of the file in the cache.
    pub key: String,
    /// The entry that goes into the cache when the visit ends.
    pub entry: CacheEntry,
    /// The external modules of a scanned file.
    pub modules: Vec<ModuleReference>,
    /// Whether the entry was found fresh in the cache: the children are then
    /// the files that the entry refers to, else the files of `modules`.
    pub replay: bool,
    /// How many children have been taken up.
    pub next: usize,
}

/// What a [`Frame`] stands for.
pub struct FrameModel {
    pub key: Seq<char>,
    pub entry: EntryModel,
    pub modules: Seq<ModuleReferenceModel>,
    pub replay: bool,
    pub next: nat,
}

impl View for Frame {
    type V = FrameModel;

    open spec fn view(&self) -> FrameModel {
        FrameModel {
            key: self.key@,
            entry: self.entry@,
            modules: self.modules.deep_view(),
            replay: self.replay,
            next: self.next as nat,
        }
    }
}

impl DeepView for Frame {
    type V = FrameModel;

    open spec fn deep_view(&self) -> FrameModel {
        self.view()
    }
}

/// What a pass waits for.
pub enum Phase {
    /// The modification time of `file`, which is to be visited as `module`.
    AwaitModified { file: FilePath, module: SymbolPath },
    /// The content of `file`, which is to be scanned.
    AwaitContent { file: FilePath, module: SymbolPath, directory: FilePath, modified: Timestamp },
    /// Whether `primary` exists: the file of an external module is `primary`
    /// where it does and `fallback` where it does not.
    AwaitExists { primary: FilePath, fallback: FilePath, module: SymbolPath },
    /// Nothing: the pass is complete.
    Finished,
    /// Nothing: the pass has failed.
    Failed(PassError),
}

/// What a [`Phase`] stands for.
pub enum PhaseModel {
    AwaitModified { file: Seq<Seq<char>>, module: Seq<Seq<char>> },
    AwaitContent {
        file: Seq<Seq<char>>,
        module: Seq<Seq<char>>,
        directory: Seq<Seq<char>>,
        modified: Timestamp,
    },
    AwaitExists { primary: Seq<Seq<char>>, fallback: Seq<Seq<char>>, module: Seq<Seq<char>> },
    Finished,
    Failed(PassError),
}

impl View for Phase {
    type V = PhaseModel;

    open spec fn view(&self) -> PhaseModel {
        match self {
            Phase::AwaitModified { file, module } => PhaseModel::AwaitModified {
                file: file@,
                module: module@,
            },
            Phase::AwaitContent { file, module, directory, modified } => PhaseModel::AwaitContent {
                file: file@,
                module: module@,
                directory: directory@,
                modified: *modified,
            },
            Phase::AwaitExists { primary, fallback, module } => PhaseModel::AwaitExists {
                primary: primary@,
                fallback: fallback@,
                module: module@,
            },
            Phase::Finished => PhaseModel::Finished,
            Phase::Failed(error) => PhaseModel::Failed(*error),
        }
    }
}

/// A visit of a file during a pass.
pub struct Visit {
    /// The key of the file in the cache.
    pub key: String,
    /// Whether the file was scanned, or its entry used again.
    pub scanned: bool,
}

/// What a [`Visit`] stands for.
pub struct VisitModel {
    pub key: Seq<char>,
    pub scanned: bool,
}

impl View for Visit {
    type V = VisitModel;

    open spec fn view(&self) -> VisitModel {
        VisitModel { key: self.key@, scanned: self.scanned }
    }
}

impl DeepView for Visit {
    type V = VisitModel;

    open spec fn deep_view(&self) -> VisitModel {
        self.view()
    }
}

/// A pass under way: the cache as it stands, the registrations emitted and the
/// visits begun so far, the files being visited and what the pass waits for.
pub struct Pass {
    pub store: CacheStore,
    pub emitted: Vec<Registration>,
    pub visits: Vec<Visit>,
    pub stack: Vec<Frame>,
    pub phase: Phase,
}

/// What a [`Pass`] stands for.
pub struct PassModel {
    pub store: Map<Seq<char>, EntryModel>,
    pub emitted: Seq<RegistrationModel>,
    pub visits: Seq<VisitModel>,
    pub stack: Seq<FrameModel>,
    pub phase: PhaseModel,
}

impl View for Pass {
    type V = PassModel;

    open spec fn view(&self) -> PassModel {
        PassModel {
            store: self.store@,
            emitted: self.emitted.deep_view(),
            visits: self.visits.deep_view(),
            stack: self.stack.deep_view(),
            phase: self.phase@,
        }
    }
}

/// The request that a phase makes.
pub open spec fn request_of(phase: PhaseModel) -> RequestModel {
    match phase {
        PhaseModel::AwaitModified { file, module } => RequestModel::Modified(file),
        PhaseModel::AwaitContent { file, module, directory, modified } => RequestModel::Content(
            file,
        ),
        PhaseModel::AwaitExists { primary, fallback, module } => RequestModel::Exists(primary),
        PhaseModel::Finished => RequestModel::Finished,
        PhaseModel::Failed(error) => RequestModel::Finished,
    }
}

/// The status of a phase.
pub open spec fn status_of(phase: PhaseModel) -> Status {
    match phase {
        PhaseModel::Finished => Status::Finished,
        PhaseModel::Failed(error) => Status::Failed(error),
        _ => Status::Running,
    }
}

/// The pass at its start: nothing emitted, nothing being visited, and the root
/// file to be visited first.
pub open spec fn begin_of(
    store: Map<Seq<char>, EntryModel>,
    root: Seq<Seq<char>>,
    module: Seq<Seq<char>>,
) -> PassModel {
    PassModel {
        store,
        emitted: Seq::empty(),
        visits: Seq::empty(),
        stack: Seq::empty(),
        phase: PhaseModel::AwaitModified { file: normalized(root), module },
    }
}

/// The pass after the innermost visit has no more to do of its own: the next
/// child of the innermost frame is taken up; a frame without a next child
/// ends, its entry goes into the cache, and the frame around it is looked at
/// in turn; with no frame left the pass is complete.
pub open spec fn advanced(
    store: Map<Seq<char>, EntryModel>,
    emitted: Seq<RegistrationModel>,
    visits: Seq<VisitModel>,
    stack: Seq<FrameModel>,
) -> PassModel
    decreases stack.len(),
{
    if stack.len() == 0 {
        PassModel { store, emitted, visits, stack, phase: PhaseModel::Finished }
    } else {
        let top = stack.last();
        let below = stack.drop_last();
        let taken = FrameModel { next: top.next + 1, ..top };
        if top.replay && top.next < top.entry.referenced_files.len() {
            PassModel {
                store,
                emitted,
                visits,
                stack: below.push(taken),
                phase: PhaseModel::AwaitModified {
                    file: normalized(top.entry.referenced_files[top.next as int]),
                    module: top.entry.module,
                },
            }
        } else if !top.replay && top.next < top.modules.len() {
            let module = top.modules[top.next as int];
            PassModel {
                store,
                emitted,
                visits,
                stack: below.push(taken),
                phase: PhaseModel::AwaitExists {
                    primary: module_file_of(module.directory, module.name),
                    fallback: module_directory_file_of(module.directory, module.name),
                    module: module.module,
                },
            }
        } else {
            advanced(store.insert(top.key, top.entry), emitted, visits, below)
        }
    }
}

impl PassModel {
    /// The pass, failed.
    pub open spec fn failed(self, error: PassError) -> PassModel {
        PassModel { phase: PhaseModel::Failed(error), ..self }
    }

    /// The pass after the modification time of `file` is known. An entry of
    /// the file is taken out of the cache. A well-formed entry with that time
    /// is fresh: its declarations are registered and the files it refers to
    /// become the children of the visit. With any other entry, or with none,
    /// the file is to be scanned; a stale entry leaves its module path and its
    /// search directory to the scan and nothing else.
    pub open spec fn visited(
        self,
        file: Seq<Seq<char>>,
        module: Seq<Seq<char>>,
        time: Timestamp,
    ) -> PassModel {
        let key = path_text(file);
        if self.store.contains_key(key) {
            let entry = self.store[key];
            let taken = PassModel { store: self.store.remove(key), ..self };
            if !entry.well_formed() {
                taken.failed(PassError::MalformedEntry)
            } else if entry.last_modified == time {
                advanced(
                    self.store.remove(key),
                    self.emitted + registrations_of(entry.fn_paths),
                    self.visits.push(VisitModel { key, scanned: false }),
                    self.stack.push(
                        FrameModel { key, entry, modules: Seq::empty(), replay: true, next: 0 },
                    ),
                )
            } else {
                PassModel {
                    phase: PhaseModel::AwaitContent {
                        file,
                        module: entry.module,
                        directory: entry.search_directory,
                        modified: time,
                    },
                    ..taken
                }
            }
        } else {
            PassModel {
                phase: PhaseModel::AwaitContent {
                    file,
                    module,
                    directory: search_directory_of(file),
                    modified: time,
                },
                ..self
            }
        }
    }

    /// The pass after the declarations of `file` are known: the marked
    /// functions are registered and the external modules become the children
    /// of the visit.
    pub open spec fn scanned(
        self,
        file: Seq<Seq<char>>,
        module: Seq<Seq<char>>,
        directory: Seq<Seq<char>>,
        modified: Timestamp,
        items: Seq<ItemModel>,
    ) -> PassModel {
        let found = scan_of(items, module, directory);
        advanced(
            self.store,
            self.emitted + registrations_of(found.declarations),
            self.visits.push(VisitModel { key: path_text(file), scanned: true }),
            self.stack.push(
                FrameModel {
                    key: path_text(file),
                    entry: EntryModel {
                        last_modified: modified,
                        module,
                        search_directory: directory,
                        fn_paths: found.declarations,
                        referenced_files: Seq::empty(),
                    },
                    modules: found.modules,
                    replay: false,
                    next: 0,
                },
            ),
        )
    }

    /// The pass after the file of an external module is known: the file is
    /// recorded in the entry of the innermost frame and is visited next.
    pub open spec fn chosen(self, file: Seq<Seq<char>>, module: Seq<Seq<char>>) -> PassModel {
        if self.stack.len() == 0 {
            self.failed(PassError::UnexpectedReply)
        } else {
            let top = self.stack.last();
            let entry = EntryModel {
                referenced_files: top.entry.referenced_files.push(file),
                ..top.entry
            };
            PassModel {
                stack: self.stack.drop_last().push(FrameModel { entry, ..top }),
                phase: PhaseModel::AwaitModified { file: normalized(file), module },
                ..self
            }
        }
    }

    /// The pass after a reply.
    pub open spec fn stepped(self, reply: ReplyModel) -> PassModel {
        match self.phase {
            PhaseModel::AwaitModified { file, module } => match reply {
                ReplyModel::Modified(time) => self.visited(file, module, time),
                ReplyModel::Unreadable => self.failed(PassError::MetadataUnreadable),
                _ => self.failed(PassError::UnexpectedReply),
            },
            PhaseModel::AwaitContent { file, module, directory, modified } => match reply {
                ReplyModel::Items(items) => self.scanned(file, module, directory, modified, items),
                ReplyModel::Unreadable => self.failed(PassError::ContentUnreadable),
                ReplyModel::Unparseable => self.failed(PassError::Syntax),
                _ => self.failed(PassError::UnexpectedReply),
            },
            PhaseModel::AwaitExists { primary, fallback, module } => match reply {
                ReplyModel::Exists(found) => self.chosen(
                    if found {
                        primary
                    } else {
                        fallback
                    },
                    module,
                ),
                _ => self.failed(PassError::UnexpectedReply),
            },
            PhaseModel::Finished => self,
            PhaseModel::Failed(error) => self,
        }
    }
}

/// No partial success. A pass that has failed, and one that is complete, asks
/// for nothing more and stays as it is whatever it is told.
pub proof fn lemma_ended_pass_stays(pass: PassModel, reply: ReplyModel)
    requires
        status_of(pass.phase) != Status::Running,
    ensures
        request_of(pass.phase) == RequestModel::Finished,
        pass.stepped(reply) == pass,
{
}

/// What a list stands for shrinks with the list.
pub proof fn lemma_pop_view<T: DeepView>(before: Vec<T>, after: Vec<T>, last: T)
    requires
        before@.len() > 0,
        after@ == before@.drop_last(),
        last == before@.last(),
    ensures
        after.deep_view() == before.deep_view().drop_last(),
        last.deep_view() == before.deep_view().last(),
{
    assert(after.deep_view() =~= before.deep_view().drop_last());
}

impl Phase {
    /// The request that the phase makes.
    pub fn request(&self) -> (request: Request)
        ensures
            request@ == request_of(self@),
    {
        match self {
            Phase::AwaitModified { file, module } => Request::Modified(file.copy()),
            Phase::AwaitContent { file, module, directory, modified } => Request::Content(
                file.copy(),
            ),
            Phase::AwaitExists { primary, fallback, module } => Request::Exists(primary.copy()),
            Phase::Finished => Request::Finished,
            Phase::Failed(error) => Request::Finished,
        }
    }
}

/// Takes up the next child of the innermost frame, ending every frame that has
/// none left.
fn advance(
    store: CacheStore,
    emitted: Vec<Registration>,
    visits: Vec<Visit>,
    stack: Vec<Frame>,
) -> (pass: Pass)
    ensures
        pass@ == advanced(store@, emitted.deep_view(), visits.deep_view(), stack.deep_view()),
{
    let mut cache = store;
    let mut frames = stack;
    loop
        invariant
            advanced(cache@, emitted.deep_view(), visits.deep_view(), frames.deep_view())
                == advanced(
                store@,
                emitted.deep_view(),
                visits.deep_view(),
                stack.deep_view(),
            ),
        decreases frames.len(),
    {
        let ghost before = frames;
        match frames.pop() {
            None => {
                assert(frames.deep_view() =~= Seq::empty());
                return Pass { store: cache, emitted, visits, stack: frames, phase: Phase::Finished };
            },
            Some(top) => {
                proof {
                    lemma_pop_view(before, frames, top);
                }
                let ghost below = frames;
                if top.replay && top.next < top.entry.referenced_files.len() {
                    let file = top.entry.referenced_files[top.next].normalize();
                    let module = top.entry.module.copy();
                    let taken = Frame {
                        key: top.key,
                        entry: top.entry,
                        modules: top.modules,
                        replay: top.replay,
                        next: top.next + 1,
                    };
                    frames.push(taken);
                    proof {
                        lemma_push_view(below, frames, taken);
                    }
                    return Pass {
                        store: cache,
                        emitted,
                        visits,
                        stack: frames,
                        phase: Phase::AwaitModified { file, module },
                    };
                } else if !top.replay && top.next < top.modules.len() {
                    let reference = &top.modules[top.next];
                    let primary = reference.directory.module_file(reference.name.as_str());
                    let fallback = reference.directory.module_directory_file(
                        reference.name.as_str(),
                    );
                    let module = reference.module.copy();
                    let taken = Frame {
                        key: top.key,
                        entry: top.entry,
                        modules: top.modules,
                        replay: top.replay,
                        next: top.next + 1,
                    };
                    frames.push(taken);
                    proof {
                        lemma_push_view(below, frames, taken);
                    }
                    return Pass {
                        store: cache,
                        emitted,
                        visits,
                        stack: frames,
                        phase: Phase::AwaitExists { primary, fallback, module },
                    };
                } else {
                    cache.insert(top.key, top.entry);
                }
            },
        }
    }
}

/// Decides, once the modification time of a file is known, whether its entry
/// can be used again.
fn search_file_cache(
    store: CacheStore,
    emitted: Vec<Registration>,
    visits: Vec<Visit>,
    stack: Vec<Frame>,
    file: FilePath,
    module: SymbolPath,
    time: Timestamp,
) -> (pass: Pass)
    ensures
        pass@ == (PassModel {
            store: store@,
            emitted: emitted.deep_view(),
            visits: visits.deep_view(),
            stack: stack.deep_view(),
            phase: PhaseModel::AwaitModified { file: file@, module: module@ },
        }).visited(file@, module@, time),
{
    let mut store = store;
    let mut emitted = emitted;
    let mut visits = visits;
    let mut stack = stack;
    let ghost old_store = store@;
    let key = file.to_text();
    match store.remove(key.as_str()) {
        Some(entry) => {
            if !entry.is_well_formed() {
                Pass { store, emitted, visits, stack, phase: Phase::Failed(PassError::MalformedEntry) }
            } else if entry.last_modified == time {
                emit(&mut emitted, &entry.fn_paths);
                let ghost before = visits;
                let made = Visit { key: key.clone(), scanned: false };
                visits.push(made);
                proof {
                    lemma_push_view(before, visits, made);
                }
                let ghost below = stack;
                let frame = Frame { key, entry, modules: Vec::new(), replay: true, next: 0 };
                assert(frame@.modules =~= Seq::empty());
                stack.push(frame);
                proof {
                    lemma_push_view(below, stack, frame);
                }
                advance(store, emitted, visits, stack)
            } else {
                Pass {
                    store,
                    emitted,
                    visits,
                    stack,
                    phase: Phase::AwaitContent {
                        file,
                        module: entry.module,
                        directory: entry.search_directory,
                        modified: time,
                    },
                }
            }
        },
        None => {
            assert(store@ =~= old_store);
            let directory = file.search_directory();
            Pass {
                store,
                emitted,
                visits,
                stack,
                phase: Phase::AwaitContent { file, module, directory, modified: time },
            }
        },
    }
}

/// Scans the declarations of a file and opens the frame of its visit.
fn search_file(
    store: CacheStore,
    emitted: Vec<Registration>,
    visits: Vec<Visit>,
    stack: Vec<Frame>,
    file: FilePath,
    module: SymbolPath,
    directory: FilePath,
    modified: Timestamp,
    items: Vec<SourceItem>,
) -> (pass: Pass)
    ensures
        pass@ == (PassModel {
            store: store@,
            emitted: emitted.deep_view(),
            visits: visits.deep_view(),
            stack: stack.deep_view(),
            phase: PhaseModel::Finished,
        }).scanned(file@, module@, directory@, modified, items_model(items@)),
{
    let mut emitted = emitted;
    let mut visits = visits;
    let mut stack = stack;
    let found = search_contents(&items, &module, &directory);
    emit(&mut emitted, &found.declarations);
    let key = file.to_text();
    let ghost before = visits;
    let made = Visit { key: key.clone(), scanned: true };
    visits.push(made);
    proof {
        lemma_push_view(before, visits, made);
    }
    let ghost below = stack;
    let frame = Frame {
        key,
        entry: CacheEntry {
            last_modified: modified,
            module,
            search_directory: directory,
            fn_paths: found.declarations,
            referenced_files: Vec::new(),
        },
        modules: found.modules,
        replay: false,
        next: 0,
    };
    assert(frame@.entry.referenced_files =~= Seq::empty());
    stack.push(frame);
    proof {
        lemma_push_view(below, stack, frame);
    }
    advance(store, emitted, visits, stack)
}

/// Records the file of an external module in the innermost frame and turns to
/// that file.
fn settle(
    store: CacheStore,
    emitted: Vec<Registration>,
    visits: Vec<Visit>,
    stack: Vec<Frame>,
    file: FilePath,
    module: SymbolPath,
) -> (pass: Pass)
    ensures
        pass@ == (PassModel {
            store: store@,
            emitted: emitted.deep_view(),
            visits: visits.deep_view(),
            stack: stack.deep_view(),
            phase: PhaseModel::Finished,
        }).chosen(file@, module@),
{
    let mut stack = stack;
    let ghost before = stack;
    match stack.pop() {
        None => {
            assert(stack.deep_view() =~= before.deep_view());
            Pass { store, emitted, visits, stack, phase: Phase::Failed(PassError::UnexpectedReply) }
        },
        Some(top) => {
            proof {
                lemma_pop_view(before, stack, top);
            }
            let ghost below = stack;
            let target = file.normalize();
            let mut entry = top.entry;
            let ghost files = entry.referenced_files;
            entry.referenced_files.push(file);
            proof {
                lemma_push_view(files, entry.referenced_files, file);
            }
            let frame = Frame {
                key: top.key,
                entry,
                modules: top.modules,
                replay: top.replay,
                next: top.next,
            };
            stack.push(frame);
            proof {
                lemma_push_view(below, stack, frame);
            }
            Pass { store, emitted, visits, stack, phase: Phase::AwaitModified { file: target, module } }
        },
    }
}

/// The reply that what was read of a file makes: its declarations, or that
/// the file is not valid source.
pub fn content_reply(parsed: Result<Vec<SourceItem>, SyntaxError>) -> (reply: Reply)
    ensures
        reply@ == match parsed {
            Ok(items) => ReplyModel::Items(items_model(items@)),
            Err(_) => ReplyModel::Unparseable,
        },
{
    match parsed {
        Ok(items) => Reply::Items(items),
        Err(_) => Reply::Unparseable,
    }
}

impl Pass {
    /// Begins a pass on the root file, whose declarations stand in `module`,
    /// with the cache that the last pass left. The first request asks for the
    /// modification time of the root file.
    pub fn begin(store: CacheStore, root: &FilePath, module: SymbolPath) -> (start: (Pass, Request))
        ensures
            start.0@ == begin_of(store@, root@, module@),
            start.1@ == request_of(start.0@.phase),
    {
        let file = root.normalize();
        let request = Request::Modified(file.copy());
        let emitted: Vec<Registration> = Vec::new();
        let visits: Vec<Visit> = Vec::new();
        let stack: Vec<Frame> = Vec::new();
        assert(emitted.deep_view() =~= Seq::empty());
        assert(visits.deep_view() =~= Seq::empty());
        assert(stack.deep_view() =~= Seq::empty());
        (Pass { store, emitted, visits, stack, phase: Phase::AwaitModified { file, module } }, request)
    }

    /// Takes the reply to the last request and gives the pass that follows,
    /// with its request. A pass that is complete or has failed stays as it is.
    pub fn step(self, reply: Reply) -> (next: (Pass, Request))
        ensures
            next.0@ == self@.stepped(reply@),
            next.1@ == request_of(next.0@.phase),
    {
        let Pass { store, emitted, visits, stack, phase } = self;
        let pass = match phase {
            Phase::AwaitModified { file, module } => match reply {
                Reply::Modified(time) => search_file_cache(
                    store,
                    emitted,
                    visits,
                    stack,
                    file,
                    module,
                    time,
                ),
                Reply::Unreadable => Pass {
                    store,
                    emitted,
                    visits,
                    stack,
                    phase: Phase::Failed(PassError::MetadataUnreadable),
                },
                _ => Pass {
                    store,
                    emitted,
                    visits,
                    stack,
                    phase: Phase::Failed(PassError::UnexpectedReply),
                },
            },
            Phase::AwaitContent { file, module, directory, modified } => match reply {
                Reply::Items(items) => search_file(
                    store,
                    emitted,
                    visits,
                    stack,
                    file,
                    module,
                    directory,
                    modified,
                    items,
                ),
                Reply::Unreadable => Pass {
                    store,
                    emitted,
                    visits,
                    stack,
                    phase: Phase::Failed(PassError::ContentUnreadable),
                },
                Reply::Unparseable => Pass {
                    store,
                    emitted,
                    visits,
                    stack,
                    phase: Phase::Failed(PassError::Syntax),
                },
                _ => Pass {
                    store,
                    emitted,
                    visits,
                    stack,
                    phase: Phase::Failed(PassError::UnexpectedReply),
                },
            },
            Phase::AwaitExists { primary, fallback, module } => match reply {
                Reply::Exists(found) => {
                    if found {
                        settle(store, emitted, visits, stack, primary, module)
                    } else {
                        settle(store, emitted, visits, stack, fallback, module)
                    }
                },
                _ => Pass {
                    store,
                    emitted,
                    visits,
                    stack,
                    phase: Phase::Failed(PassError::UnexpectedReply),
                },
            },
            Phase::Finished => Pass { store, emitted, visits, stack, phase: Phase::Finished },
            Phase::Failed(error) => Pass { store, emitted, visits, stack, phase: Phase::Failed(error) },
        };
        let request = pass.phase.request();
        (pass, request)
    }

    /// How far the pass has come.
    pub fn status(&self) -> (status: Status)
        ensures
            status == status_of(self@.phase),
    {
        match &self.phase {
            Phase::Finished => Status::Finished,
            Phase::Failed(error) => Status::Failed(*error),
            _ => Status::Running,
        }
    }

    /// The registrations emitted so far, the cache as it stands and the visits
    /// begun so far.
    pub fn into_parts(self) -> (parts: (Vec<Registration>, CacheStore, Vec<Visit>))
        ensures
            parts.0.deep_view() == self@.emitted,
            parts.1@ == self@.store,
            parts.2.deep_view() == self@.visits,
    {
        (self.emitted, self.store, self.visits)
    }
}

} // verus!
