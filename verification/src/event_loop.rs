//! The event loop: the state machine that scans the startup directory once,
//! then takes one action at a time and writes what comes of it to the store.
//!
//! The loop does no reading and no waiting of its own. It says what it waits
//! for (`Request`); the caller does that and hands the result back
//! (`Event`). An event that does not answer the request is handed back
//! untouched, so one action is always finished before the next is taken.

use crate::failure::ReadFailure;
use crate::failure::ScanFailure;
use crate::store::StoreView;
use crate::store::WorkspaceStore;
use crate::tree::EntryView;
use crate::tree::FileTree;
use std::path::PathBuf;
use vstd::prelude::*;

verus! {

/// What the user asks the editor to do.
#[derive(Debug, PartialEq, Eq)]
pub enum Action {
    /// Open the file at this path as the current document.
    OpenFile(PathBuf),
}

/// What the loop waits for.
#[derive(Debug, PartialEq, Eq)]
pub enum Request {
    /// The scan of the startup directory.
    Scan(PathBuf),
    /// The next action from the queue.
    NextAction,
    /// The text of the file at this path.
    Read(PathBuf),
}

/// What the caller hands to the loop.
#[derive(Debug, PartialEq, Eq)]
pub enum Event {
    /// The scan of the startup directory has ended.
    ScanCompleted(Result<FileTree, ScanFailure>),
    /// An action was taken from the queue.
    ActionReceived(Action),
    /// The attempt to read the file has ended.
    ReadCompleted(Result<String, ReadFailure>),
}

/// The model of an `Event`.
pub enum EventView {
    ScanCompleted(Result<Seq<EntryView>, ScanFailure>),
    ActionReceived(Action),
    ReadCompleted(Result<Seq<char>, ReadFailure>),
}

impl View for Event {
    type V = EventView;

    open spec fn view(&self) -> EventView {
        match self {
            Event::ScanCompleted(Ok(tree)) => EventView::ScanCompleted(Ok(tree@)),
            Event::ScanCompleted(Err(failure)) => EventView::ScanCompleted(Err(*failure)),
            Event::ActionReceived(action) => EventView::ActionReceived(*action),
            Event::ReadCompleted(Ok(text)) => EventView::ReadCompleted(Ok(text@)),
            Event::ReadCompleted(Err(failure)) => EventView::ReadCompleted(Err(*failure)),
        }
    }
}

/// A failure that the user has to be told of.
#[derive(Clone, Copy, Debug, PartialEq, Eq)]
pub enum Notification {
    ScanFailed(ScanFailure),
    ReadFailed(ReadFailure),
}

/// Which cell of the store a step has written.
#[derive(Clone, Copy, Debug, PartialEq, Eq)]
pub enum Published {
    Nothing,
    Tree,
    Document,
}

/// What a step of the loop has done, besides moving on.
#[derive(Clone, Copy, Debug, PartialEq, Eq)]
pub struct Outcome {
    /// The cell that was written, for those who watch the store.
    pub published: Published,
    /// The failure to report to the user, if the step met one.
    pub notification: Option<Notification>,
}

/// Where the loop stands.
#[derive(Clone, Copy, Debug, PartialEq, Eq)]
pub enum Phase {
    /// The startup scan is running.
    Initializing,
    /// The loop waits for an action.
    Idle,
    /// An action is being carried out.
    Processing,
}

/// The model of the event loop.
pub struct LoopView {
    pub store: StoreView,
    pub pending: Request,
}

impl LoopView {
    /// The loop at startup. With a directory it waits for the scan of that
    /// directory; without one it is idle at once. The store is empty.
    pub open spec fn start(init_dir: Option<PathBuf>) -> LoopView {
        LoopView {
            store: StoreView { tree: Seq::empty(), document: None },
            pending: match init_dir {
                Some(dir) => Request::Scan(dir),
                None => Request::NextAction,
            },
        }
    }

    /// Where the loop stands.
    pub open spec fn phase(self) -> Phase {
        match self.pending {
            Request::Scan(_) => Phase::Initializing,
            Request::NextAction => Phase::Idle,
            Request::Read(_) => Phase::Processing,
        }
    }

    /// Whether the event answers what the loop waits for.
    pub open spec fn accepts(self, event: EventView) -> bool {
        match (self.pending, event) {
            (Request::Scan(_), EventView::ScanCompleted(_)) => true,
            (Request::NextAction, EventView::ActionReceived(_)) => true,
            (Request::Read(_), EventView::ReadCompleted(_)) => true,
            _ => false,
        }
    }

    /// The loop after the event.
    ///
    /// The end of the startup scan publishes the tree if there is one, and
    /// leaves the loop idle either way. An action to open a file starts the
    /// read of that file. The end of a read publishes the text if there is
    /// one, and leaves the loop idle either way. A failure writes nothing. An
    /// event that the loop does not wait for changes nothing.
    pub open spec fn step(self, event: EventView) -> LoopView {
        match (self.pending, event) {
            (Request::Scan(_), EventView::ScanCompleted(Ok(tree))) => LoopView {
                store: StoreView { tree, ..self.store },
                pending: Request::NextAction,
            },
            (Request::Scan(_), EventView::ScanCompleted(Err(_))) => LoopView {
                pending: Request::NextAction,
                ..self
            },
            (Request::NextAction, EventView::ActionReceived(Action::OpenFile(path))) => LoopView {
                pending: Request::Read(path),
                ..self
            },
            (Request::Read(_), EventView::ReadCompleted(Ok(text))) => LoopView {
                store: StoreView { document: Some(text), ..self.store },
                pending: Request::NextAction,
            },
            (Request::Read(_), EventView::ReadCompleted(Err(_))) => LoopView {
                pending: Request::NextAction,
                ..self
            },
            _ => self,
        }
    }

    /// What the step on this event writes and reports: a tree or a text that
    /// arrived is published; a failure is reported, once; nothing else is.
    pub open spec fn outcome(self, event: EventView) -> Outcome {
        match (self.pending, event) {
            (Request::Scan(_), EventView::ScanCompleted(Ok(_))) => Outcome {
                published: Published::Tree,
                notification: None,
            },
            (Request::Scan(_), EventView::ScanCompleted(Err(failure))) => Outcome {
                published: Published::Nothing,
                notification: Some(Notification::ScanFailed(failure)),
            },
            (Request::Read(_), EventView::ReadCompleted(Ok(_))) => Outcome {
                published: Published::Document,
                notification: None,
            },
            (Request::Read(_), EventView::ReadCompleted(Err(failure))) => Outcome {
                published: Published::Nothing,
                notification: Some(Notification::ReadFailed(failure)),
            },
            _ => Outcome { published: Published::Nothing, notification: None },
        }
    }

    /// The loop after one action to open a file, from the moment it is taken
    /// from the queue to the end of the read.
    pub open spec fn open_file(self, path: PathBuf, read: Result<Seq<char>, ReadFailure>) -> LoopView {
        self.step(EventView::ActionReceived(Action::OpenFile(path))).step(
            EventView::ReadCompleted(read),
        )
    }

    /// The loop after the given actions to open files, taken in the order of
    /// the queue, each with the end of its read.
    pub open spec fn open_files(
        self,
        opens: Seq<(PathBuf, Result<Seq<char>, ReadFailure>)>,
    ) -> LoopView
        decreases opens.len(),
    {
        if opens.len() == 0 {
            self
        } else {
            self.open_files(opens.drop_last()).open_file(opens.last().0, opens.last().1)
        }
    }
}

/// The text that the document holds after the given reads, in order: that of
/// the last read that gave one; the text from before if none did.
pub open spec fn last_text(
    before: Option<Seq<char>>,
    reads: Seq<(PathBuf, Result<Seq<char>, ReadFailure>)>,
) -> Option<Seq<char>>
    decreases reads.len(),
{
    if reads.len() == 0 {
        before
    } else {
        match reads.last().1 {
            Ok(text) => Some(text),
            Err(_) => last_text(before, reads.drop_last()),
        }
    }
}

/// The event loop.
#[derive(Debug, PartialEq, Eq)]
pub struct EventLoop {
    store: WorkspaceStore,
    pending: Request,
}

impl View for EventLoop {
    type V = LoopView;

    closed spec fn view(&self) -> LoopView {
        LoopView { store: self.store@, pending: self.pending }
    }
}

impl EventLoop {
    /// The loop at startup, with the directory to scan if there is one.
    pub fn new(init_dir: Option<PathBuf>) -> (r: EventLoop)
        ensures
            r@ == LoopView::start(init_dir),
    {
        let pending = match init_dir {
            Some(dir) => Request::Scan(dir),
            None => Request::NextAction,
        };
        EventLoop { store: WorkspaceStore::new(), pending }
    }

    /// What the loop waits for.
    pub fn pending(&self) -> (r: &Request)
        ensures
            *r == self@.pending,
    {
        &self.pending
    }

    /// Where the loop stands.
    pub fn phase(&self) -> (r: Phase)
        ensures
            r == self@.phase(),
    {
        match &self.pending {
            Request::Scan(_) => Phase::Initializing,
            Request::NextAction => Phase::Idle,
            Request::Read(_) => Phase::Processing,
        }
    }

    /// The store, to read.
    pub fn store(&self) -> (r: &WorkspaceStore)
        ensures
            r@ == self@.store,
    {
        &self.store
    }

    /// Takes one event. If it answers what the loop waits for, the loop moves
    /// on, writes to the store what the event brought, and says what it wrote
    /// and what is to be reported. If it does not, the event comes back and
    /// nothing has changed.
    pub fn step(&mut self, event: Event) -> (r: Result<Outcome, Event>)
        ensures
            old(self)@.accepts(event@) ==> r == Ok::<Outcome, Event>(old(self)@.outcome(event@))
                && final(self)@ == old(self)@.step(event@),
            !old(self)@.accepts(event@) ==> r == Err::<Outcome, Event>(event) && *final(self) == *old(
                self,
            ),
    {
        match event {
            Event::ScanCompleted(result) => {
                if let Request::Scan(_) = &self.pending {
                    self.pending = Request::NextAction;
                    match result {
                        Ok(tree) => {
                            self.store.publish_tree(tree);
                            Ok(Outcome { published: Published::Tree, notification: None })
                        },
                        Err(failure) => Ok(
                            Outcome {
                                published: Published::Nothing,
                                notification: Some(Notification::ScanFailed(failure)),
                            },
                        ),
                    }
                } else {
                    Err(Event::ScanCompleted(result))
                }
            },
            Event::ActionReceived(action) => {
                if let Request::NextAction = &self.pending {
                    match action {
                        Action::OpenFile(path) => {
                            self.pending = Request::Read(path);
                        },
                    }
                    Ok(Outcome { published: Published::Nothing, notification: None })
                } else {
                    Err(Event::ActionReceived(action))
                }
            },
            Event::ReadCompleted(result) => {
                if let Request::Read(_) = &self.pending {
                    self.pending = Request::NextAction;
                    match result {
                        Ok(text) => {
                            self.store.publish_document(text);
                            Ok(Outcome { published: Published::Document, notification: None })
                        },
                        Err(failure) => Ok(
                            Outcome {
                                published: Published::Nothing,
                                notification: Some(Notification::ReadFailed(failure)),
                            },
                        ),
                    }
                } else {
                    Err(Event::ReadCompleted(result))
                }
            },
        }
    }
}

/// Whatever happens, the loop waits for something afterwards: it has no last
/// state. It is idle after the startup scan and after every read, whether
/// they succeeded or not, and it is busy with one action after taking one.
pub proof fn lemma_loop_goes_on(state: LoopView, event: EventView)
    requires
        state.accepts(event),
    ensures
        state.phase() == Phase::Initializing ==> state.step(event).phase() == Phase::Idle,
        state.phase() == Phase::Idle ==> state.step(event).phase() == Phase::Processing,
        state.phase() == Phase::Processing ==> state.step(event).phase() == Phase::Idle,
{
}

/// While one action is being carried out, no other is taken: the loop accepts
/// an action only when it is idle, and then only an action.
pub proof fn lemma_one_action_at_a_time(state: LoopView, event: EventView)
    ensures
        state.accepts(event) && event is ActionReceived ==> state.phase() == Phase::Idle,
        state.phase() == Phase::Idle && state.accepts(event) ==> event is ActionReceived,
        !state.accepts(event) ==> state.step(event) == state && state.outcome(event) == (Outcome {
            published: Published::Nothing,
            notification: None,
        }),
{
}

/// The tree is written by a scan that succeeded and by nothing else; the
/// document by a read that succeeded and by nothing else.
pub proof fn lemma_cells_written_on_success_only(state: LoopView, event: EventView)
    ensures
        state.step(event).store.tree != state.store.tree ==> state.outcome(event).published
            == Published::Tree,
        state.step(event).store.document != state.store.document ==> state.outcome(event).published
            == Published::Document,
        state.outcome(event).published == Published::Tree ==> state.phase() == Phase::Initializing
            && event == EventView::ScanCompleted(Ok(state.step(event).store.tree)),
        state.outcome(event).published == Published::Document ==> state.phase()
            == Phase::Processing && state.step(event).store.document is Some && event
            == EventView::ReadCompleted(Ok(state.step(event).store.document->0)),
{
}

/// A failure is reported exactly when a scan or a read that the loop waited
/// for has failed, and then the store is left as it was.
pub proof fn lemma_failure_reported_once(state: LoopView, event: EventView)
    ensures
        forall|failure: ScanFailure|
            state.outcome(event).notification == Some(Notification::ScanFailed(failure)) <==> (
            state.phase() == Phase::Initializing && event == EventView::ScanCompleted(
                Err(failure),
            )),
        forall|failure: ReadFailure|
            state.outcome(event).notification == Some(Notification::ReadFailed(failure)) <==> (
            state.phase() == Phase::Processing && event == EventView::ReadCompleted(Err(failure))),
        state.outcome(event).notification is Some ==> state.step(event).store == state.store,
{
}

/// A startup scan that fails leaves the tree empty, reports the failure, and
/// leaves the loop ready for actions.
pub proof fn lemma_failed_startup_scan(dir: PathBuf, failure: ScanFailure)
    ensures
        ({
            let state = LoopView::start(Some(dir));
            let event = EventView::ScanCompleted(Err(failure));
            &&& state.accepts(event)
            &&& state.step(event).store.tree == Seq::<EntryView>::empty()
            &&& state.step(event).store.document is None
            &&& state.step(event).phase() == Phase::Idle
            &&& state.outcome(event) == (Outcome {
                published: Published::Nothing,
                notification: Some(Notification::ScanFailed(failure)),
            })
            &&& forall|action: Action| state.step(event).accepts(EventView::ActionReceived(action))
        }),
{
}

/// Opening a file that can be read makes its text the document.
pub proof fn lemma_open_readable_file(state: LoopView, path: PathBuf, text: Seq<char>)
    requires
        state.phase() == Phase::Idle,
    ensures
        state.open_file(path, Ok(text)).store.document == Some(text),
        state.open_file(path, Ok(text)).store.tree == state.store.tree,
        state.open_file(path, Ok(text)).phase() == Phase::Idle,
{
}

/// Opening a file that cannot be read leaves the document as it was and
/// reports that one failure.
pub proof fn lemma_open_unreadable_file(state: LoopView, path: PathBuf, failure: ReadFailure)
    requires
        state.phase() == Phase::Idle,
    ensures
        state.open_file(path, Err(failure)).store == state.store,
        state.open_file(path, Err(failure)).phase() == Phase::Idle,
        ({
            let taken = state.step(EventView::ActionReceived(Action::OpenFile(path)));
            &&& state.outcome(EventView::ActionReceived(Action::OpenFile(path))).notification is None
            &&& taken.outcome(EventView::ReadCompleted(Err(failure))).notification == Some(
                Notification::ReadFailed(failure),
            )
        }),
{
}

/// Actions are carried out in the order of the queue, so the document ends as
/// the text of the last file that could be read; if none could, it is what it
/// was before. The tree is not touched.
pub proof fn lemma_last_opened_file_decides(
    state: LoopView,
    opens: Seq<(PathBuf, Result<Seq<char>, ReadFailure>)>,
)
    requires
        state.phase() == Phase::Idle,
    ensures
        state.open_files(opens).store.document == last_text(state.store.document, opens),
        state.open_files(opens).store.tree == state.store.tree,
        state.open_files(opens).phase() == Phase::Idle,
    decreases opens.len(),
{
    if opens.len() > 0 {
        lemma_last_opened_file_decides(state, opens.drop_last());
    }
}

/// Of two files opened one after the other, both readable, the second is the
/// document at the end.
pub proof fn lemma_second_of_two_files(
    state: LoopView,
    first: PathBuf,
    first_text: Seq<char>,
    second: PathBuf,
    second_text: Seq<char>,
)
    requires
        state.phase() == Phase::Idle,
    ensures
        state.open_file(first, Ok(first_text)).open_file(second, Ok(second_text)).store.document
            == Some(second_text),
{
}

} // verus!
