//! What the engine's threads leave for the editor: the latest indexing event, and the
//! search messages in the order in which they came.

use std::collections::VecDeque;

use vstd::prelude::*;

use crate::search::result_views;
use crate::types::{optional_text, ResultView, SearchResult};

verus! {

/// How far an index build or update has come.
#[derive(Debug, Clone)]
pub struct IndexingEvent {
    /// `progress`, `done` or `error`.
    pub status: &'static str,
    pub total: u64,
    pub done: u64,
    pub error: Option<String>,
    pub message: Option<String>,
}

/// An indexing event with its strings taken as texts.
pub struct IndexingEventView {
    pub status: Seq<char>,
    pub total: u64,
    pub done: u64,
    pub error: Option<Seq<char>>,
    pub message: Option<Seq<char>>,
}

impl View for IndexingEvent {
    type V = IndexingEventView;

    open spec fn view(&self) -> IndexingEventView {
        IndexingEventView {
            status: self.status@,
            total: self.total,
            done: self.done,
            error: optional_text(self.error),
            message: optional_text(self.message),
        }
    }
}

/// Room for one indexing event. A newer event replaces one that was not taken.
pub struct IndexingSlot {
    pub event: Option<IndexingEvent>,
}

impl IndexingSlot {
    /// An empty slot.
    pub fn new() -> (r: IndexingSlot)
        ensures
            r.event is None,
    {
        IndexingSlot { event: None }
    }
}

/// Take the event out of the slot.
pub fn indexing_take_event(slot: &mut IndexingSlot) -> (r: Option<IndexingEvent>)
    ensures
        r == old(slot).event,
        final(slot).event is None,
{
    slot.event.take()
}

/// Put an event into the slot. An event that is still there is lost.
pub fn push_indexing_event(slot: &mut IndexingSlot, event: IndexingEvent)
    ensures
        final(slot).event == Some(event),
{
    slot.event = Some(event);
}

/// A message of the search thread. Every search that was submitted ends with one `Done` or
/// `Error`.
#[derive(Debug)]
pub enum SearchResultMessage {
    /// Some results, and how many there were with them.
    Batch { generation: u64, results: Vec<SearchResult>, total_so_far: u64 },
    /// The search is over.
    Done { generation: u64, total: u64 },
    /// The search failed.
    Error { generation: u64, error: String },
}

/// A search message with its strings taken as texts.
pub enum MessageView {
    Batch { generation: u64, results: Seq<ResultView>, total_so_far: u64 },
    Done { generation: u64, total: u64 },
    Error { generation: u64, error: Seq<char> },
}

impl View for SearchResultMessage {
    type V = MessageView;

    open spec fn view(&self) -> MessageView {
        match self {
            SearchResultMessage::Batch { generation, results, total_so_far } => MessageView::Batch {
                generation: *generation,
                results: result_views(results@),
                total_so_far: *total_so_far,
            },
            SearchResultMessage::Done { generation, total } => MessageView::Done {
                generation: *generation,
                total: *total,
            },
            SearchResultMessage::Error { generation, error } => MessageView::Error {
                generation: *generation,
                error: error@,
            },
        }
    }
}

impl MessageView {
    /// The search that the message belongs to.
    pub open spec fn generation(self) -> u64 {
        match self {
            MessageView::Batch { generation, .. } => generation,
            MessageView::Done { generation, .. } => generation,
            MessageView::Error { generation, .. } => generation,
        }
    }

    /// The message is the last one of its search.
    pub open spec fn is_terminal(self) -> bool {
        !(self is Batch)
    }
}

/// The messages that wait for the editor.
pub struct ResultQueue {
    messages: VecDeque<SearchResultMessage>,
}

/// Messages with their strings taken as texts.
pub open spec fn message_views(m: Seq<SearchResultMessage>) -> Seq<MessageView> {
    Seq::new(m.len(), |i: int| m[i]@)
}

impl View for ResultQueue {
    type V = Seq<MessageView>;

    closed spec fn view(&self) -> Seq<MessageView> {
        message_views(self.messages@)
    }
}

impl ResultQueue {
    /// A queue without messages.
    pub fn new() -> (r: ResultQueue)
        ensures
            r@.len() == 0,
    {
        ResultQueue { messages: VecDeque::new() }
    }

    /// Append a message.
    pub fn push(&mut self, message: SearchResultMessage)
        ensures
            final(self)@ == old(self)@.push(message@),
    {
        let ghost before = self@;
        self.messages.push_back(message);
        assert(self@ =~= before.push(message@));
    }
}

/// Take the oldest message.
pub fn search_take_result(queue: &mut ResultQueue) -> (r: Option<SearchResultMessage>)
    ensures
        match r {
            Some(m) => old(queue)@.len() > 0 && m@ == old(queue)@[0] && final(queue)@
                == old(queue)@.drop_first(),
            None => old(queue)@.len() == 0 && final(queue)@ == old(queue)@,
        },
{
    let ghost before = queue.messages@;
    let r = queue.messages.pop_front();
    proof {
        if before.len() > 0 {
            assert(queue@ =~= message_views(before).drop_first());
        } else {
            assert(queue@ =~= message_views(before));
        }
    }
    r
}

/// Messages are told apart by their search, and only a batch is not the last of its search.
pub proof fn messages_name_their_search(generation: u64, results: Seq<ResultView>, n: u64)
    ensures
        (MessageView::Batch { generation, results, total_so_far: n }).generation() == generation,
        !(MessageView::Batch { generation, results, total_so_far: n }).is_terminal(),
        (MessageView::Done { generation, total: n }).generation() == generation,
        (MessageView::Done { generation, total: n }).is_terminal(),
        forall|error: Seq<char>|
            (#[trigger] (MessageView::Error { generation, error }).generation()) == generation
                && (MessageView::Error { generation, error }).is_terminal(),
{
}

/// The queue of messages is read one by one.
pub proof fn messages_are_read_one_by_one(m: Seq<SearchResultMessage>, i: int)
    requires
        0 <= i < m.len(),
    ensures
        message_views(m).len() == m.len(),
        message_views(m)[i] == m[i]@,
{
}

/// Messages and events are read field by field.
pub proof fn messages_are_read_as_they_are(
    generation: u64,
    results: Vec<SearchResult>,
    n: u64,
    error: String,
    event: IndexingEvent,
)
    ensures
        (SearchResultMessage::Batch { generation, results, total_so_far: n })@ == (
        MessageView::Batch {
            generation,
            results: results@.map_values(|r: SearchResult| r@),
            total_so_far: n,
        }),
        (SearchResultMessage::Done { generation, total: n })@ == (MessageView::Done {
            generation,
            total: n,
        }),
        (SearchResultMessage::Error { generation, error })@ == (MessageView::Error {
            generation,
            error: error@,
        }),
        event@.status == event.status@,
        event@.total == event.total,
        event@.done == event.done,
        event.error is Some == event@.error is Some,
        event.error is Some ==> event@.error->0 == event.error->0@,
        event.message is Some == event@.message is Some,
        event.message is Some ==> event@.message->0 == event.message->0@,
{
    assert(result_views(results@) =~= results@.map_values(|r: SearchResult| r@));
}

} // verus!
