//! The search thread: it runs the latest search, and ends every search that was submitted
//! with one message.
//!
//! A new search cancels the one that runs. A search that was overtaken before it ran is
//! ended without results, so that nobody waits for it.

use vstd::prelude::*;

use crate::bridge::{MessageView, ResultQueue, SearchResultMessage};
use crate::search::{result_views, total_len};
use crate::state::{not_initialized, Engine};
use crate::types::{ResultView, SearchResult};

verus! {

/// A search that was submitted. The generation tells its messages from those of others.
#[derive(Debug, Clone)]
pub struct SearchRequest {
    pub query: String,
    pub generation: u64,
    pub limit: usize,
}

/// A search that was submitted, with its query taken as a text.
pub struct RequestView {
    pub query: Seq<char>,
    pub generation: u64,
    pub limit: usize,
}

impl View for SearchRequest {
    type V = RequestView;

    open spec fn view(&self) -> RequestView {
        RequestView { query: self.query@, generation: self.generation, limit: self.limit }
    }
}

/// How a search came to its end.
#[derive(Debug, Clone)]
pub enum SearchOutcome {
    Completed,
    Failed(String),
    Panicked,
}

/// The search that runs.
#[derive(Debug, Clone, Copy, PartialEq, Eq, Structural)]
pub struct RunningSearch {
    pub generation: u64,
    /// How many results were handed out.
    pub total: u64,
}

/// The state of the search thread.
pub struct SearchWorker {
    pending: Vec<SearchRequest>,
    current: Option<RunningSearch>,
    cancel: bool,
    closed: bool,
}

/// The state of the search thread with its texts.
#[verifier::ext_equal]
pub struct WorkerView {
    /// Searches that wait, oldest first.
    pub pending: Seq<RequestView>,
    /// The search that runs.
    pub current: Option<RunningSearch>,
    /// Whether the search that runs is to stop.
    pub cancel: bool,
    /// Whether the thread takes no more searches.
    pub closed: bool,
}

/// Requests with their queries taken as texts.
pub open spec fn request_views(v: Seq<SearchRequest>) -> Seq<RequestView> {
    Seq::new(v.len(), |i: int| v[i]@)
}

impl View for SearchWorker {
    type V = WorkerView;

    closed spec fn view(&self) -> WorkerView {
        WorkerView {
            pending: request_views(self.pending@),
            current: self.current,
            cancel: self.cancel,
            closed: self.closed,
        }
    }
}

/// The generations of some requests.
pub open spec fn generations(v: Seq<RequestView>) -> Seq<u64> {
    Seq::new(v.len(), |i: int| v[i].generation)
}

/// The messages that end overtaken searches.
pub open spec fn overtaken(v: Seq<RequestView>) -> Seq<MessageView> {
    Seq::new(v.len(), |i: int| MessageView::Done { generation: v[i].generation, total: 0 })
}

/// The message that ends a search.
pub open spec fn terminal(
    run: RunningSearch,
    cancelled: bool,
    outcome: SearchOutcome,
) -> MessageView {
    if cancelled {
        MessageView::Done { generation: run.generation, total: run.total }
    } else {
        match outcome {
            SearchOutcome::Completed => MessageView::Done {
                generation: run.generation,
                total: run.total,
            },
            SearchOutcome::Failed(e) => MessageView::Error { generation: run.generation, error: e@ },
            SearchOutcome::Panicked => MessageView::Error {
                generation: run.generation,
                error: "Panic during search"@,
            },
        }
    }
}

impl WorkerView {
    /// No search was submitted.
    pub open spec fn idle() -> WorkerView {
        WorkerView { pending: Seq::empty(), current: None, cancel: false, closed: false }
    }

    /// One more search waits, and the one that runs is to stop.
    pub open spec fn submitted(self, request: RequestView) -> WorkerView {
        WorkerView { pending: self.pending.push(request), cancel: true, ..self }
    }

    /// The latest waiting search runs; no other waits.
    pub open spec fn taken(self) -> WorkerView {
        WorkerView {
            pending: Seq::empty(),
            current: Some(
                RunningSearch { generation: self.pending.last().generation, total: 0 },
            ),
            cancel: false,
            ..self
        }
    }

    /// `count` more results of the search that runs were handed out.
    pub open spec fn counted(self, count: nat) -> WorkerView {
        match self.current {
            Some(run) => WorkerView {
                current: Some(
                    RunningSearch {
                        generation: run.generation,
                        total: (run.total + count) as u64,
                    },
                ),
                ..self
            },
            None => self,
        }
    }

    /// No search runs.
    pub open spec fn ended(self) -> WorkerView {
        WorkerView { current: None, ..self }
    }

    /// The search that runs is to stop.
    pub open spec fn cancelled(self) -> WorkerView {
        WorkerView { cancel: true, ..self }
    }

    /// The search that runs is to stop, and no other is taken.
    pub open spec fn shut(self) -> WorkerView {
        WorkerView { cancel: true, closed: true, ..self }
    }

    /// The searches that have not ended: the one that runs, then those that wait.
    pub open spec fn outstanding(self) -> Seq<u64> {
        match self.current {
            Some(run) => seq![run.generation] + generations(self.pending),
            None => generations(self.pending),
        }
    }
}

impl SearchWorker {
    /// The search thread, idle.
    pub fn new() -> (r: SearchWorker)
        ensures
            r@ == WorkerView::idle(),
    {
        let r = SearchWorker { pending: Vec::new(), current: None, cancel: false, closed: false };
        assert(r@ =~= WorkerView::idle());
        r
    }

    /// Whether the search that runs is to stop.
    pub fn is_cancelled(&self) -> (r: bool)
        ensures
            r == self@.cancel,
    {
        self.cancel
    }

    /// Whether the thread takes no more searches.
    pub fn is_closed(&self) -> (r: bool)
        ensures
            r == self@.closed,
    {
        self.closed
    }

    /// Start the latest waiting search, and end those that it overtook.
    pub fn take_request(&mut self, queue: &mut ResultQueue) -> (r: Option<SearchRequest>)
        requires
            old(self)@.current is None,
        ensures
            match r {
                Some(request) => {
                    &&& old(self)@.pending.len() > 0
                    &&& request@ == old(self)@.pending.last()
                    &&& final(self)@ == old(self)@.taken()
                    &&& final(queue)@ == old(queue)@ + overtaken(old(self)@.pending.drop_last())
                },
                None => {
                    &&& old(self)@.pending.len() == 0
                    &&& final(self)@ == old(self)@
                    &&& final(queue)@ == old(queue)@
                },
            },
    {
        let ghost all = self@.pending;
        let ghost start = queue@;
        let latest = match self.pending.pop() {
            Some(l) => l,
            None => {
                assert(self@.pending =~= all);
                return None;
            },
        };
        assert(self@.pending =~= all.drop_last());
        let ghost skipped = all.drop_last();
        let mut i: usize = 0;
        assert(start + overtaken(skipped.take(0)) =~= start);
        while i < self.pending.len()
            invariant
                i <= self.pending@.len() == skipped.len(),
                request_views(self.pending@) == skipped,
                queue@ == start + overtaken(skipped.take(i as int)),
                self.closed == old(self).closed,
            decreases self.pending@.len() - i,
        {
            assert(request_views(self.pending@)[i as int] == self.pending@[i as int]@);
            queue.push(
                SearchResultMessage::Done { generation: self.pending[i].generation, total: 0 },
            );
            assert(overtaken(skipped.take(i + 1)) =~= overtaken(skipped.take(i as int)).push(
                overtaken(skipped)[i as int],
            ));
            assert(queue@ =~= start + overtaken(skipped.take(i + 1)));
            i += 1;
        }
        assert(skipped.take(i as int) =~= skipped);
        self.pending = Vec::new();
        self.cancel = false;
        self.current = Some(RunningSearch { generation: latest.generation, total: 0 });
        assert(self@ =~= old(self)@.taken());
        Some(latest)
    }

    /// Whether a search runs that can count `count` more results.
    pub fn can_push(&self, count: usize) -> (r: bool)
        ensures
            r == (self@.current matches Some(run) && run.total + count <= u64::MAX),
    {
        match self.current {
            Some(run) => count as u64 <= u64::MAX - run.total,
            None => false,
        }
    }

    /// Hand out some results of the search that runs.
    pub fn push_batch(&mut self, results: Vec<SearchResult>, queue: &mut ResultQueue)
        requires
            old(self)@.current matches Some(run) && run.total + results@.len() <= u64::MAX,
        ensures
            final(self)@ == old(self)@.counted(results@.len()),
            final(queue)@ == old(queue)@.push(
                MessageView::Batch {
                    generation: old(self)@.current->0.generation,
                    results: result_views(results@),
                    total_so_far: (old(self)@.current->0.total + results@.len()) as u64,
                },
            ),
    {
        let run = match self.current {
            Some(run) => run,
            None => {
                return;
            },
        };
        let total: u64 = run.total + results.len() as u64;
        self.current = Some(RunningSearch { generation: run.generation, total });
        queue.push(
            SearchResultMessage::Batch { generation: run.generation, results, total_so_far: total },
        );
    }

    /// End the search that runs.
    pub fn finish(&mut self, outcome: SearchOutcome, queue: &mut ResultQueue)
        requires
            old(self)@.current is Some,
        ensures
            final(self)@ == old(self)@.ended(),
            final(queue)@ == old(queue)@.push(
                terminal(old(self)@.current->0, old(self)@.cancel, outcome),
            ),
    {
        let run = match self.current {
            Some(run) => run,
            None => {
                return;
            },
        };
        let done = SearchResultMessage::Done { generation: run.generation, total: run.total };
        let message = if self.cancel {
            done
        } else {
            match outcome {
                SearchOutcome::Completed => done,
                SearchOutcome::Failed(e) => SearchResultMessage::Error {
                    generation: run.generation,
                    error: e,
                },
                SearchOutcome::Panicked => SearchResultMessage::Error {
                    generation: run.generation,
                    error: "Panic during search".to_owned(),
                },
            }
        };
        self.current = None;
        queue.push(message);
    }
}

/// Submit a search. The search that runs is cancelled.
pub fn search_submit(
    engine: &Engine,
    worker: &mut SearchWorker,
    query: &str,
    generation: u64,
    limit: usize,
) -> (r: Result<(), String>)
    ensures
        match r {
            Ok(_) => {
                &&& engine.state is Some
                &&& !old(worker)@.closed
                &&& final(worker)@ == old(worker)@.submitted(
                    RequestView { query: query@, generation, limit },
                )
            },
            Err(e) => final(worker)@ == old(worker)@ && (if engine.state is None {
                e@ == "sakuin not initialized"@
            } else {
                old(worker)@.closed && e@ == "search worker not running"@
            }),
        },
{
    match engine.state {
        Some(_) => {},
        None => {
            return Err(not_initialized());
        },
    }
    if worker.closed {
        return Err("search worker not running".to_owned());
    }
    let ghost before = worker@.pending;
    worker.cancel = true;
    let request = SearchRequest { query: query.to_owned(), generation, limit };
    worker.pending.push(request);
    assert(worker@.pending =~= before.push(request@));
    Ok(())
}

/// Cancel the search that runs.
pub fn search_cancel(worker: &mut SearchWorker)
    ensures
        final(worker)@ == old(worker)@.cancelled(),
{
    worker.cancel = true;
}

/// Cancel the search that runs and take no more. Searches that wait still come to their end.
pub fn shutdown(worker: &mut SearchWorker)
    ensures
        final(worker)@ == old(worker)@.shut(),
{
    worker.cancel = true;
    worker.closed = true;
}

/// Something that happens to the search thread.
pub enum WorkerStep {
    Submit(RequestView),
    Take,
    Batch(Seq<ResultView>),
    Finish(SearchOutcome),
    Cancel,
    Shutdown,
}

/// The search thread, all messages that it ever sent, and all generations that it accepted.
pub struct History {
    pub worker: WorkerView,
    pub messages: Seq<MessageView>,
    pub accepted: Seq<u64>,
}

impl History {
    /// Nothing has happened.
    pub open spec fn start() -> History {
        History {
            worker: WorkerView::idle(),
            messages: Seq::empty(),
            accepted: Seq::empty(),
        }
    }

    /// What a step leads to. A step that cannot be made changes nothing: a closed thread
    /// accepts no search, a search is taken only when none runs, and results and ends come
    /// only of a search that runs.
    pub open spec fn after(self, step: WorkerStep) -> History {
        let w = self.worker;
        match step {
            WorkerStep::Submit(request) => if w.closed {
                self
            } else {
                History {
                    worker: w.submitted(request),
                    accepted: self.accepted.push(request.generation),
                    ..self
                }
            },
            WorkerStep::Take => if w.current is None && w.pending.len() > 0 {
                History {
                    worker: w.taken(),
                    messages: self.messages + overtaken(w.pending.drop_last()),
                    ..self
                }
            } else {
                self
            },
            WorkerStep::Batch(results) => match w.current {
                Some(run) => History {
                    worker: w.counted(results.len()),
                    messages: self.messages.push(
                        MessageView::Batch {
                            generation: run.generation,
                            results,
                            total_so_far: (run.total + results.len()) as u64,
                        },
                    ),
                    ..self
                },
                None => self,
            },
            WorkerStep::Finish(outcome) => match w.current {
                Some(run) => History {
                    worker: w.ended(),
                    messages: self.messages.push(terminal(run, w.cancel, outcome)),
                    ..self
                },
                None => self,
            },
            WorkerStep::Cancel => History { worker: w.cancelled(), ..self },
            WorkerStep::Shutdown => History { worker: w.shut(), ..self },
        }
    }

    /// What some steps lead to.
    pub open spec fn run(self, steps: Seq<WorkerStep>) -> History
        decreases steps.len(),
    {
        if steps.len() == 0 {
            self
        } else {
            self.run(steps.drop_last()).after(steps.last())
        }
    }
}

/// The generations that some messages end, in order.
pub open spec fn ends(messages: Seq<MessageView>) -> Seq<u64>
    decreases messages.len(),
{
    if messages.len() == 0 {
        Seq::empty()
    } else if messages.last().is_terminal() {
        ends(messages.drop_last()).push(messages.last().generation())
    } else {
        ends(messages.drop_last())
    }
}

proof fn lemma_ends_push(messages: Seq<MessageView>, m: MessageView)
    ensures
        ends(messages.push(m)) == (if m.is_terminal() {
            ends(messages).push(m.generation())
        } else {
            ends(messages)
        }),
{
    assert(messages.push(m).drop_last() =~= messages);
}

proof fn lemma_ends_overtaken(messages: Seq<MessageView>, v: Seq<RequestView>)
    ensures
        ends(messages + overtaken(v)) == ends(messages) + generations(v),
    decreases v.len(),
{
    if v.len() == 0 {
        assert(messages + overtaken(v) =~= messages);
        assert(ends(messages) + generations(v) =~= ends(messages));
    } else {
        let d = v.drop_last();
        lemma_ends_overtaken(messages, d);
        let m = overtaken(v).last();
        assert(messages + overtaken(v) =~= (messages + overtaken(d)).push(m));
        lemma_ends_push(messages + overtaken(d), m);
        assert(ends(messages) + generations(v) =~= (ends(messages) + generations(d)).push(
            v.last().generation,
        ));
    }
}

/// The searches that were accepted are those that ended followed by those that have not.
spec fn balanced(h: History) -> bool {
    ends(h.messages) + h.worker.outstanding() == h.accepted
}

proof fn lemma_step_balances(h: History, step: WorkerStep)
    requires
        balanced(h),
    ensures
        balanced(h.after(step)),
{
    let n = h.after(step);
    let w = h.worker;
    match step {
        WorkerStep::Submit(request) => {
            if !w.closed {
                assert(generations(w.pending.push(request)) =~= generations(w.pending).push(
                    request.generation,
                ));
                assert(n.worker.outstanding() =~= w.outstanding().push(request.generation));
                assert(ends(n.messages) + n.worker.outstanding() =~= n.accepted);
            }
        },
        WorkerStep::Take => {
            if w.current is None && w.pending.len() > 0 {
                lemma_ends_overtaken(h.messages, w.pending.drop_last());
                assert(generations(Seq::<RequestView>::empty()) =~= Seq::<u64>::empty());
                assert(n.worker.outstanding() =~= seq![w.pending.last().generation]);
                assert(ends(n.messages) + n.worker.outstanding() =~= ends(h.messages)
                    + generations(w.pending));
            }
        },
        WorkerStep::Batch(results) => {
            match w.current {
                Some(run) => {
                    lemma_ends_push(h.messages, n.messages.last());
                },
                None => {},
            }
        },
        WorkerStep::Finish(outcome) => {
            match w.current {
                Some(run) => {
                    let m = terminal(run, w.cancel, outcome);
                    lemma_ends_push(h.messages, m);
                    assert(m.generation() == run.generation);
                    assert(ends(n.messages) + n.worker.outstanding() =~= ends(h.messages)
                        + w.outstanding());
                },
                None => {},
            }
        },
        WorkerStep::Cancel => {},
        WorkerStep::Shutdown => {},
    }
}

/// Whatever happens, and in whatever order, every search that was accepted ends with exactly
/// one message, and searches end in the order in which they were accepted: those that have
/// ended are a beginning of those that were accepted, and the rest runs or waits.
pub proof fn every_search_ends_once(steps: Seq<WorkerStep>)
    ensures
        ({
            let h = History::start().run(steps);
            ends(h.messages) + h.worker.outstanding() == h.accepted
        }),
    decreases steps.len(),
{
    if steps.len() == 0 {
        let h = History::start();
        assert(ends(h.messages) + h.worker.outstanding() =~= h.accepted);
    } else {
        every_search_ends_once(steps.drop_last());
        lemma_step_balances(History::start().run(steps.drop_last()), steps.last());
    }
}

/// A thread that is idle has ended every search that it accepted.
pub proof fn idle_owes_nothing(steps: Seq<WorkerStep>)
    ensures
        ({
            let h = History::start().run(steps);
            h.worker.current is None && h.worker.pending.len() == 0 ==> ends(h.messages)
                == h.accepted
        }),
{
    every_search_ends_once(steps);
    let h = History::start().run(steps);
    if h.worker.current is None && h.worker.pending.len() == 0 {
        assert(ends(h.messages) + h.worker.outstanding() =~= ends(h.messages));
    }
}

/// How many results the batches of a search hold among some messages.
pub open spec fn count_of(messages: Seq<MessageView>, generation: u64) -> nat
    decreases messages.len(),
{
    if messages.len() == 0 {
        0
    } else {
        count_of(messages.drop_last(), generation) + (match messages.last() {
            MessageView::Batch { generation: g, results, .. } => if g == generation {
                results.len()
            } else {
                0
            },
            _ => 0,
        })
    }
}

/// The total that message `i` states is right: in a batch it counts the results of its
/// search up to and with that batch, at the end of a search all that came before.
pub open spec fn total_is_right(messages: Seq<MessageView>, i: int) -> bool {
    match messages[i] {
        MessageView::Batch { generation, total_so_far, .. } => total_so_far == count_of(
            messages.take(i + 1),
            generation,
        ),
        MessageView::Done { generation, total } => total == count_of(messages.take(i), generation),
        MessageView::Error { .. } => true,
    }
}

/// Every total is right, and behind the end of a search comes no message of it.
pub open spec fn orderly(messages: Seq<MessageView>) -> bool {
    &&& forall|i: int| 0 <= i < messages.len() ==> #[trigger] total_is_right(messages, i)
    &&& forall|i: int, j: int|
        0 <= i < j < messages.len() && (#[trigger] messages[i]).is_terminal() ==> (
        #[trigger] messages[j]).generation() != messages[i].generation()
}

proof fn lemma_count_push(messages: Seq<MessageView>, m: MessageView, generation: u64)
    ensures
        count_of(messages.push(m), generation) == count_of(messages, generation) + (match m {
            MessageView::Batch { generation: g, results, .. } => if g == generation {
                results.len()
            } else {
                0
            },
            _ => 0,
        }),
{
    assert(messages.push(m).drop_last() =~= messages);
}

proof fn lemma_count_overtaken(messages: Seq<MessageView>, v: Seq<RequestView>, generation: u64)
    ensures
        count_of(messages + overtaken(v), generation) == count_of(messages, generation),
    decreases v.len(),
{
    if v.len() == 0 {
        assert(messages + overtaken(v) =~= messages);
    } else {
        let d = v.drop_last();
        let m = overtaken(v).last();
        lemma_count_overtaken(messages, d, generation);
        assert(messages + overtaken(v) =~= (messages + overtaken(d)).push(m));
        lemma_count_push(messages + overtaken(d), m, generation);
    }
}

/// A search without messages has no results.
proof fn lemma_count_none(messages: Seq<MessageView>, generation: u64)
    requires
        forall|i: int|
            0 <= i < messages.len() && messages[i] is Batch ==> (
            #[trigger] messages[i]).generation() != generation,
    ensures
        count_of(messages, generation) == 0,
    decreases messages.len(),
{
    if messages.len() > 0 {
        let d = messages.drop_last();
        assert forall|i: int| 0 <= i < d.len() && d[i] is Batch implies (
        #[trigger] d[i]).generation() != generation by {
            assert(messages[i] == d[i]);
        }
        lemma_count_none(d, generation);
        assert(messages[messages.len() - 1] == messages.last());
    }
}

/// Messages behind the last batch of a search do not change how many results it has.
proof fn lemma_count_from(messages: Seq<MessageView>, n: int, generation: u64)
    requires
        0 <= n <= messages.len(),
        forall|i: int|
            n <= i < messages.len() && messages[i] is Batch ==> (
            #[trigger] messages[i]).generation() != generation,
    ensures
        count_of(messages, generation) == count_of(messages.take(n), generation),
    decreases messages.len() - n,
{
    if n == messages.len() {
        assert(messages.take(n) =~= messages);
    } else {
        lemma_count_from(messages, n + 1, generation);
        assert(messages.take(n + 1) =~= messages.take(n).push(messages[n]));
        lemma_count_push(messages.take(n), messages[n], generation);
    }
}

/// The end of a search is among the ends.
proof fn lemma_end_listed(messages: Seq<MessageView>, i: int)
    requires
        0 <= i < messages.len(),
        messages[i].is_terminal(),
    ensures
        ends(messages).contains(messages[i].generation()),
    decreases messages.len(),
{
    let d = messages.drop_last();
    let e = ends(messages);
    if i == messages.len() - 1 {
        assert(e[e.len() - 1] == messages[i].generation());
    } else {
        assert(d[i] == messages[i]);
        lemma_end_listed(d, i);
        let k = choose|k: int| 0 <= k < ends(d).len() && ends(d)[k] == messages[i].generation();
        assert(e[k] == messages[i].generation());
    }
}

/// Each of the ends is the end of a search.
proof fn lemma_listed_end(messages: Seq<MessageView>, generation: u64)
    requires
        ends(messages).contains(generation),
    ensures
        exists|i: int|
            0 <= i < messages.len() && (#[trigger] messages[i]).is_terminal()
                && messages[i].generation() == generation,
    decreases messages.len(),
{
    if messages.len() > 0 {
        let d = messages.drop_last();
        let last = messages.len() - 1;
        if messages.last().is_terminal() && messages.last().generation() == generation {
            assert(messages[last].is_terminal());
        } else {
            let k = choose|k: int| 0 <= k < ends(messages).len() && ends(messages)[k] == generation;
            assert(ends(d)[k] == generation);
            lemma_listed_end(d, generation);
            let i = choose|i: int|
                0 <= i < d.len() && (#[trigger] d[i]).is_terminal() && d[i].generation()
                    == generation;
            assert(messages[i] == d[i]);
        }
    }
}

proof fn lemma_push_orderly(messages: Seq<MessageView>, m: MessageView)
    requires
        orderly(messages),
        !ends(messages).contains(m.generation()),
        m matches MessageView::Batch { generation, results, total_so_far } ==> total_so_far
            == count_of(messages, generation) + results.len(),
        m matches MessageView::Done { generation, total } ==> total == count_of(
            messages,
            generation,
        ),
    ensures
        orderly(messages.push(m)),
{
    let n = messages.push(m);
    let last = messages.len() as int;
    assert forall|i: int| 0 <= i < n.len() implies #[trigger] total_is_right(n, i) by {
        if i < last {
            assert(total_is_right(messages, i));
            assert(n.take(i + 1) =~= messages.take(i + 1));
            assert(n.take(i) =~= messages.take(i));
        } else {
            assert(n.take(last + 1) =~= n);
            assert(n.take(last) =~= messages);
            lemma_count_push(messages, m, m.generation());
        }
    }
    assert forall|i: int, j: int|
        0 <= i < j < n.len() && (#[trigger] n[i]).is_terminal() implies (
    #[trigger] n[j]).generation() != n[i].generation() by {
        assert(n[i] == messages[i]);
        if j < last {
            assert(n[j] == messages[j]);
        } else {
            lemma_end_listed(messages, i);
        }
    }
}

proof fn lemma_overtaken_orderly(messages: Seq<MessageView>, v: Seq<RequestView>)
    requires
        orderly(messages),
        generations(v).no_duplicates(),
        forall|k: int|
            0 <= k < v.len() ==> !ends(messages).contains((#[trigger] v[k]).generation) && count_of(
                messages,
                v[k].generation,
            ) == 0,
    ensures
        orderly(messages + overtaken(v)),
    decreases v.len(),
{
    if v.len() == 0 {
        assert(messages + overtaken(v) =~= messages);
    } else {
        let d = v.drop_last();
        let n = v.len() - 1;
        let m = overtaken(v).last();
        let g = v[n].generation;
        assert forall|i: int, j: int|
            0 <= i < generations(d).len() && 0 <= j < generations(d).len() && i
                != j implies generations(d)[i] != generations(d)[j] by {
            assert(generations(v)[i] == generations(d)[i]);
            assert(generations(v)[j] == generations(d)[j]);
        }
        lemma_overtaken_orderly(messages, d);
        let before = messages + overtaken(d);
        assert(messages + overtaken(v) =~= before.push(m));
        lemma_ends_overtaken(messages, d);
        lemma_count_overtaken(messages, d, g);
        if ends(before).contains(g) {
            let all = ends(messages) + generations(d);
            let k = choose|k: int| 0 <= k < all.len() && all[k] == g;
            if k < ends(messages).len() {
                assert(ends(messages)[k] == g);
            } else {
                let x = k - ends(messages).len();
                assert(generations(v)[x] == g);
                assert(generations(v)[n] == g);
            }
        }
        lemma_push_orderly(before, m);
    }
}

/// What holds of the messages at any time: they are orderly, each belongs to a search that
/// ended or runs, and the search that runs knows how many results it has handed out.
spec fn accounted(h: History) -> bool {
    &&& balanced(h)
    &&& orderly(h.messages)
    &&& forall|i: int|
        0 <= i < h.messages.len() ==> belongs(h, (#[trigger] h.messages[i]).generation())
    &&& h.worker.current matches Some(run) ==> run.total == count_of(h.messages, run.generation)
}

/// The search ended or runs.
spec fn belongs(h: History, generation: u64) -> bool {
    ends(h.messages).contains(generation) || (h.worker.current matches Some(run)
        && run.generation == generation)
}

/// No two accepted searches have the same generation, and the results of each can be counted.
pub open spec fn countable(h: History) -> bool {
    &&& h.accepted.no_duplicates()
    &&& forall|generation: u64| #[trigger] count_of(h.messages, generation) <= u64::MAX
}

proof fn lemma_countable_before(h: History, step: WorkerStep)
    requires
        countable(h.after(step)),
    ensures
        countable(h),
{
    let n = h.after(step);
    assert forall|i: int, j: int|
        0 <= i < h.accepted.len() && 0 <= j < h.accepted.len() && i != j implies h.accepted[i]
        != h.accepted[j] by {
        assert(n.accepted[i] == h.accepted[i]);
        assert(n.accepted[j] == h.accepted[j]);
    }
    assert forall|generation: u64| #[trigger] count_of(h.messages, generation) <= u64::MAX by {
        assert(count_of(n.messages, generation) <= u64::MAX);
        if n.messages != h.messages {
            match step {
                WorkerStep::Take => {
                    lemma_count_overtaken(h.messages, h.worker.pending.drop_last(), generation);
                },
                _ => {
                    lemma_count_push(h.messages, n.messages.last(), generation);
                    assert(n.messages =~= h.messages.push(n.messages.last()));
                },
            }
        }
    }
}

/// A search that has not ended is not among the ends.
proof fn lemma_outstanding_not_ended(h: History, k: int)
    requires
        balanced(h),
        h.accepted.no_duplicates(),
        0 <= k < h.worker.outstanding().len(),
    ensures
        !ends(h.messages).contains(h.worker.outstanding()[k]),
{
    let e = ends(h.messages);
    let o = h.worker.outstanding();
    if e.contains(o[k]) {
        let i = choose|i: int| 0 <= i < e.len() && e[i] == o[k];
        assert(h.accepted[i] == (e + o)[i]);
        assert(h.accepted[e.len() + k] == (e + o)[e.len() + k]);
    }
}

proof fn lemma_step_accounts(h: History, step: WorkerStep)
    requires
        accounted(h),
        countable(h.after(step)),
    ensures
        accounted(h.after(step)),
{
    let n = h.after(step);
    let w = h.worker;
    lemma_step_balances(h, step);
    lemma_countable_before(h, step);
    match step {
        WorkerStep::Submit(_) => {
            assert forall|i: int| 0 <= i < n.messages.len() implies belongs(
                n,
                (#[trigger] n.messages[i]).generation(),
            ) by {
                assert(belongs(h, h.messages[i].generation()));
            }
        },
        WorkerStep::Take => {
            if w.current is None && w.pending.len() > 0 {
                lemma_take_accounts(h);
            }
        },
        WorkerStep::Batch(results) => {
            match w.current {
                Some(run) => {
                    let g = run.generation;
                    let m = n.messages.last();
                    assert(w.outstanding()[0] == g);
                    lemma_outstanding_not_ended(h, 0);
                    lemma_count_push(h.messages, m, g);
                    assert(count_of(n.messages, g) <= u64::MAX);
                    lemma_push_orderly(h.messages, m);
                    lemma_ends_push(h.messages, m);
                    assert forall|i: int| 0 <= i < n.messages.len() implies belongs(
                        n,
                        (#[trigger] n.messages[i]).generation(),
                    ) by {
                        if i < h.messages.len() {
                            assert(belongs(h, h.messages[i].generation()));
                        }
                    }
                },
                None => {},
            }
        },
        WorkerStep::Finish(outcome) => {
            match w.current {
                Some(run) => {
                    let g = run.generation;
                    let m = terminal(run, w.cancel, outcome);
                    assert(w.outstanding()[0] == g);
                    lemma_outstanding_not_ended(h, 0);
                    lemma_push_orderly(h.messages, m);
                    lemma_ends_push(h.messages, m);
                    let e = ends(h.messages);
                    assert(e.push(g)[e.len() as int] == g);
                    assert forall|i: int| 0 <= i < n.messages.len() implies belongs(
                        n,
                        (#[trigger] n.messages[i]).generation(),
                    ) by {
                        if i < h.messages.len() {
                            let x = h.messages[i].generation();
                            assert(belongs(h, x));
                            if e.contains(x) {
                                let k = choose|k: int| 0 <= k < e.len() && e[k] == x;
                                assert(e.push(g)[k] == x);
                            }
                        }
                    }
                },
                None => {},
            }
        },
        WorkerStep::Cancel | WorkerStep::Shutdown => {
            assert forall|i: int| 0 <= i < n.messages.len() implies belongs(
                n,
                (#[trigger] n.messages[i]).generation(),
            ) by {
                assert(belongs(h, h.messages[i].generation()));
            }
        },
    }
}

proof fn lemma_take_accounts(h: History)
    requires
        accounted(h),
        countable(h),
        balanced(h.after(WorkerStep::Take)),
        h.worker.current is None,
        h.worker.pending.len() > 0,
    ensures
        accounted(h.after(WorkerStep::Take)),
{
    let n = h.after(WorkerStep::Take);
    let p = h.worker.pending;
    let d = p.drop_last();
    let e = ends(h.messages);
    assert forall|k: int| 0 <= k < p.len() implies !e.contains((#[trigger] p[k]).generation)
        && count_of(h.messages, p[k].generation) == 0 by {
        let g = p[k].generation;
        assert(h.worker.outstanding()[k] == g);
        lemma_outstanding_not_ended(h, k);
        assert forall|i: int| 0 <= i < h.messages.len() && h.messages[i] is Batch implies (
        #[trigger] h.messages[i]).generation() != g by {
            assert(belongs(h, h.messages[i].generation()));
        }
        lemma_count_none(h.messages, g);
    }
    assert forall|i: int, j: int|
        0 <= i < generations(d).len() && 0 <= j < generations(d).len() && i != j implies generations(
        d,
    )[i] != generations(d)[j] by {
        let all = e + h.worker.outstanding();
        assert(h.accepted[e.len() + i] == all[e.len() + i]);
        assert(h.accepted[e.len() + j] == all[e.len() + j]);
        assert(h.worker.outstanding()[i] == generations(d)[i]);
        assert(h.worker.outstanding()[j] == generations(d)[j]);
    }
    assert forall|k: int| 0 <= k < d.len() implies !e.contains((#[trigger] d[k]).generation)
        && count_of(h.messages, d[k].generation) == 0 by {
        assert(d[k] == p[k]);
    }
    lemma_overtaken_orderly(h.messages, d);
    lemma_ends_overtaken(h.messages, d);
    let g = p[p.len() - 1].generation;
    lemma_count_overtaken(h.messages, d, g);
    assert forall|i: int| 0 <= i < n.messages.len() implies belongs(
        n,
        (#[trigger] n.messages[i]).generation(),
    ) by {
        let x = n.messages[i].generation();
        let all = e + generations(d);
        if i < h.messages.len() {
            assert(n.messages[i] == h.messages[i]);
            assert(belongs(h, x));
            let k = choose|k: int| 0 <= k < e.len() && e[k] == x;
            assert(all[k] == x);
        } else {
            let k = i - h.messages.len();
            assert(n.messages[i] == overtaken(d)[k]);
            assert(all[e.len() + k] == x);
        }
    }
}

proof fn lemma_run_accounts(steps: Seq<WorkerStep>)
    requires
        countable(History::start().run(steps)),
    ensures
        accounted(History::start().run(steps)),
    decreases steps.len(),
{
    if steps.len() == 0 {
        every_search_ends_once(steps);
    } else {
        let h = History::start().run(steps.drop_last());
        lemma_countable_before(h, steps.last());
        lemma_run_accounts(steps.drop_last());
        lemma_step_accounts(h, steps.last());
    }
}

/// Whatever happens to searches with different generations, and in whatever order: each
/// batch states how many results its search has handed out so far, all batches of a search
/// come before its end, nothing of it comes behind, and where the end states a total it is
/// the number of results in all batches of the search: none where it was overtaken.
pub proof fn batches_come_before_the_end(steps: Seq<WorkerStep>)
    requires
        countable(History::start().run(steps)),
    ensures
        ({
            let m = History::start().run(steps).messages;
            &&& orderly(m)
            &&& forall|i: int|
                0 <= i < m.len() ==> (#[trigger] m[i] matches MessageView::Done {
                    generation,
                    total,
                } ==> total == count_of(m, generation))
        }),
{
    lemma_run_accounts(steps);
    let m = History::start().run(steps).messages;
    assert forall|i: int| 0 <= i < m.len() implies (#[trigger] m[i] matches MessageView::Done {
        generation,
        total,
    } ==> total == count_of(m, generation)) by {
        if let MessageView::Done { generation, total } = m[i] {
            assert(total_is_right(m, i));
            assert forall|j: int| i <= j < m.len() && m[j] is Batch implies (
            #[trigger] m[j]).generation() != generation by {
                if j > i {
                    assert(m[i].is_terminal());
                }
            }
            lemma_count_from(m, i, generation);
        }
    }
}

/// Message `i` is the end of a search, and the only one: every other message of the search
/// is a batch that comes before.
pub open spec fn is_the_end(messages: Seq<MessageView>, generation: u64, i: int) -> bool {
    &&& 0 <= i < messages.len()
    &&& messages[i].is_terminal()
    &&& messages[i].generation() == generation
    &&& forall|j: int|
        0 <= j < messages.len() && j != i && (#[trigger] messages[j]).generation() == generation
            ==> messages[j] is Batch && j < i
}

/// A search has got its one end, behind all its batches.
pub open spec fn has_its_end(messages: Seq<MessageView>, generation: u64) -> bool {
    exists|i: int| is_the_end(messages, generation, i)
}

/// When the thread is idle again, each of the searches it accepted, if they have different
/// generations, has got its one end, behind all its batches.
pub proof fn idle_has_ended_each(steps: Seq<WorkerStep>, k: int)
    requires
        countable(History::start().run(steps)),
        History::start().run(steps).worker.current is None,
        History::start().run(steps).worker.pending.len() == 0,
        0 <= k < History::start().run(steps).accepted.len(),
    ensures
        has_its_end(
            History::start().run(steps).messages,
            History::start().run(steps).accepted[k],
        ),
{
    let h = History::start().run(steps);
    let m = h.messages;
    let g = h.accepted[k];
    idle_owes_nothing(steps);
    batches_come_before_the_end(steps);
    assert(ends(m)[k] == g);
    lemma_listed_end(m, g);
    let i = choose|i: int|
        0 <= i < m.len() && (#[trigger] m[i]).is_terminal() && m[i].generation() == g;
    assert(is_the_end(m, g, i));
}

/// A thread that is shut down comes to rest: once the search that runs has ended, and the
/// latest of those that wait was taken and has ended too, none is left, and none comes.
pub proof fn shut_down_thread_comes_to_rest(
    steps: Seq<WorkerStep>,
    first: SearchOutcome,
    second: SearchOutcome,
)
    ensures
        ({
            let h = History::start().run(steps);
            let end = History::start().run(run_out(steps, first, second));
            &&& end.worker.closed
            &&& end.worker.current is None
            &&& end.worker.pending.len() == 0
            &&& end.accepted == h.accepted
        }),
{
    let s1 = steps.push(WorkerStep::Shutdown);
    let s2 = s1.push(WorkerStep::Finish(first));
    let s3 = s2.push(WorkerStep::Take);
    let s4 = s3.push(WorkerStep::Finish(second));
    assert(s1.drop_last() =~= steps);
    assert(s2.drop_last() =~= s1);
    assert(s3.drop_last() =~= s2);
    assert(s4.drop_last() =~= s3);
    reveal_with_fuel(History::run, 6);
}

/// Some steps, and then those by which a thread is shut down and runs out.
pub open spec fn run_out(
    steps: Seq<WorkerStep>,
    first: SearchOutcome,
    second: SearchOutcome,
) -> Seq<WorkerStep> {
    steps.push(WorkerStep::Shutdown).push(WorkerStep::Finish(first)).push(WorkerStep::Take).push(
        WorkerStep::Finish(second),
    )
}

/// Whatever happened, when a thread is shut down and runs out, each of the searches that it
/// accepted, if they have different generations, has got exactly one end, behind all its
/// batches. Each batch states how many results its search had handed out so far, and an end
/// that states a total states the number of results in all batches of the search.
pub proof fn every_search_ends_after_its_batches(
    steps: Seq<WorkerStep>,
    first: SearchOutcome,
    second: SearchOutcome,
)
    requires
        countable(History::start().run(run_out(steps, first, second))),
    ensures
        ({
            let accepted = History::start().run(steps).accepted;
            let m = History::start().run(run_out(steps, first, second)).messages;
            &&& forall|k: int|
                0 <= k < accepted.len() ==> has_its_end(m, #[trigger] accepted[k])
            &&& forall|i: int| 0 <= i < m.len() ==> #[trigger] total_is_right(m, i)
            &&& forall|i: int|
                0 <= i < m.len() ==> (#[trigger] m[i] matches MessageView::Done {
                    generation,
                    total,
                } ==> total == count_of(m, generation))
        }),
{
    let all = run_out(steps, first, second);
    let accepted = History::start().run(steps).accepted;
    let m = History::start().run(all).messages;
    shut_down_thread_comes_to_rest(steps, first, second);
    batches_come_before_the_end(all);
    assert(orderly(m));
    assert forall|k: int| 0 <= k < accepted.len() implies has_its_end(
        m,
        #[trigger] accepted[k],
    ) by {
        idle_has_ended_each(all, k);
    }
}

/// The state of a thread that handed out some batches.
pub open spec fn counted_all(w: WorkerView, batches: Seq<Seq<ResultView>>) -> WorkerView
    decreases batches.len(),
{
    if batches.len() == 0 {
        w
    } else {
        counted_all(w.counted(batches[0].len()), batches.drop_first())
    }
}

/// The total that a search ends with is the number of results in its batches.
pub proof fn total_counts_results(w: WorkerView, batches: Seq<Seq<ResultView>>)
    requires
        w.current matches Some(run) && run.total + total_len(batches) <= u64::MAX,
    ensures
        counted_all(w, batches).current == Some(
            RunningSearch {
                generation: w.current->0.generation,
                total: (w.current->0.total + total_len(batches)) as u64,
            },
        ),
    decreases batches.len(),
{
    if batches.len() > 0 {
        total_counts_results(w.counted(batches[0].len()), batches.drop_first());
    }
}

/// A new search waits behind the others and stops the one that runs; nothing else changes.
pub proof fn new_search_stops_the_running_one(w: WorkerView, request: RequestView)
    ensures
        w.submitted(request).pending == w.pending.push(request),
        w.submitted(request).cancel,
        w.submitted(request).current == w.current,
        w.submitted(request).closed == w.closed,
        WorkerView::idle().pending.len() == 0,
        WorkerView::idle().current is None,
        !WorkerView::idle().cancel,
        !WorkerView::idle().closed,
{
}

/// Of the searches that wait the latest runs, from zero results and not stopped; each other
/// one is ended without results, in their order.
pub proof fn latest_search_runs(w: WorkerView, i: int)
    requires
        w.pending.len() > 0,
    ensures
        w.taken().pending.len() == 0,
        w.taken().current matches Some(run) && run.generation == w.pending[w.pending.len()
            - 1].generation && run.total == 0,
        !w.taken().cancel,
        w.taken().closed == w.closed,
        overtaken(w.pending.drop_last()).len() == w.pending.len() - 1,
        0 <= i < w.pending.len() - 1 ==> overtaken(w.pending.drop_last())[i] == (
        MessageView::Done { generation: w.pending[i].generation, total: 0 }),
{
}

/// A batch adds its results to the total of the search that runs. A search ends with its
/// total where it was stopped or completed, with the reason where it failed, and is over then.
pub proof fn searches_end_by_their_outcome(w: WorkerView, run: RunningSearch, count: nat)
    requires
        w.current == Some(run),
        run.total + count <= u64::MAX,
    ensures
        w.counted(count).current matches Some(r) && r.generation == run.generation && r.total
            == run.total + count,
        w.counted(count).pending == w.pending,
        w.counted(count).cancel == w.cancel,
        w.counted(count).closed == w.closed,
        w.ended().current is None,
        w.ended().pending == w.pending,
        w.ended().cancel == w.cancel,
        w.ended().closed == w.closed,
        forall|o: SearchOutcome|
            #[trigger] terminal(run, true, o) == (MessageView::Done {
                generation: run.generation,
                total: run.total,
            }),
        terminal(run, false, SearchOutcome::Completed) == (MessageView::Done {
            generation: run.generation,
            total: run.total,
        }),
        forall|e: String|
            #[trigger] terminal(run, false, SearchOutcome::Failed(e)) == (MessageView::Error {
                generation: run.generation,
                error: e@,
            }),
        terminal(run, false, SearchOutcome::Panicked) == (MessageView::Error {
            generation: run.generation,
            error: "Panic during search"@,
        }),
{
}

/// Cancelling stops the search that runs, shutting down also takes no more; neither drops a
/// search that waits.
pub proof fn stopping_keeps_what_waits(w: WorkerView)
    ensures
        w.cancelled().cancel,
        w.cancelled().closed == w.closed,
        w.cancelled().pending == w.pending,
        w.cancelled().current == w.current,
        w.shut().cancel,
        w.shut().closed,
        w.shut().pending == w.pending,
        w.shut().current == w.current,
{
}

/// A request is read field by field, and requests one by one.
pub proof fn requests_are_read_as_they_are(v: Seq<SearchRequest>, i: int)
    requires
        0 <= i < v.len(),
    ensures
        request_views(v).len() == v.len(),
        request_views(v)[i].query == v[i].query@,
        request_views(v)[i].generation == v[i].generation,
        request_views(v)[i].limit == v[i].limit,
{
}

} // verus!
