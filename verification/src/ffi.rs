//! What crosses the boundary to the editor: status codes, the last error, and messages
//! whose strings hold no zero character.

use vstd::prelude::*;
use vstd::utf8::{encode_utf8, valid_utf8};

use crate::bridge::{IndexingEvent, SearchResultMessage};
use crate::text::{append_str, chars_of, same_text};
use crate::types::{IndexStats, ResultView, Score, SearchResult};

verus! {

/// Room for the message of the last error.
pub struct LastError {
    pub message: Option<String>,
}

impl LastError {
    /// No error.
    pub fn new() -> (r: LastError)
        ensures
            r.message is None,
    {
        LastError { message: None }
    }
}

/// Note an error. An earlier one is lost.
pub fn set_last_error(slot: &mut LastError, msg: String)
    ensures
        final(slot).message == Some(msg),
{
    slot.message = Some(msg);
}

/// Take the message of the last error.
pub fn take_last_error(slot: &mut LastError) -> (r: Option<String>)
    ensures
        r == old(slot).message,
        final(slot).message is None,
{
    slot.message.take()
}

/// How a call from the editor went.
#[derive(Debug)]
pub enum CallOutcome {
    Succeeded,
    Failed(String),
    Panicked,
}

/// The status code of a call: 0 if it succeeded, else -1 with the reason noted as the last
/// error.
pub fn ffi_try(slot: &mut LastError, outcome: CallOutcome) -> (r: i32)
    ensures
        match outcome {
            CallOutcome::Succeeded => r == 0 && *final(slot) == *old(slot),
            CallOutcome::Failed(e) => r == -1 && final(slot).message == Some(e),
            CallOutcome::Panicked => r == -1 && (final(slot).message matches Some(m) && m@
                == "Rust panic caught at FFI boundary"@),
        },
{
    match outcome {
        CallOutcome::Succeeded => 0,
        CallOutcome::Failed(e) => {
            set_last_error(slot, e);
            -1
        },
        CallOutcome::Panicked => {
            set_last_error(slot, "Rust panic caught at FFI boundary".to_owned());
            -1
        },
    }
}

/// How `Utf8Error` describes why these bytes are no UTF-8.
pub uninterp spec fn utf8_error_description(bytes: Seq<u8>) -> Seq<char>;

/// The error of `std::str::from_utf8`, as it describes itself: what it says depends on the
/// bytes alone.
#[verifier::external_body]
fn utf8_error_text(bytes: &[u8]) -> (r: String)
    requires
        !valid_utf8(bytes@),
    ensures
        r@ == utf8_error_description(bytes@),
{
    std::str::from_utf8(bytes).unwrap_err().to_string()
}

/// The text that the editor passes as bytes up to the closing zero, or `None` for a null
/// pointer.
pub fn cstr_to_str<'a>(bytes: Option<&'a [u8]>) -> (r: Result<&'a str, String>)
    ensures
        match bytes {
            None => r matches Err(m) && m@ == "null pointer passed to cstr_to_str"@,
            Some(b) => {
                &&& r is Ok <==> valid_utf8(b@)
                &&& r matches Ok(s) ==> encode_utf8(s@) == b@
                &&& r matches Err(m) ==> m@ == "Invalid UTF-8 in C string: "@
                    + utf8_error_description(b@)
            },
        },
{
    match bytes {
        None => Err("null pointer passed to cstr_to_str".to_owned()),
        Some(b) => match std::str::from_utf8(b) {
            Ok(s) => Ok(s),
            Err(_) => {
                let mut m = "Invalid UTF-8 in C string: ".to_owned();
                append_str(&mut m, utf8_error_text(b).as_str());
                Err(m)
            },
        },
    }
}

/// A text without its zero characters.
pub open spec fn without_zeros(s: Seq<char>) -> Seq<char>
    decreases s.len(),
{
    if s.len() == 0 {
        Seq::empty()
    } else if s.last() == '\0' {
        without_zeros(s.drop_last())
    } else {
        without_zeros(s.drop_last()).push(s.last())
    }
}

/// The string as it is handed to the editor: a zero character would end it early.
pub fn str_to_c(s: &str) -> (r: String)
    ensures
        r@ == without_zeros(s@),
{
    let v = chars_of(s);
    let mut out = String::new();
    let mut i: usize = 0;
    assert(out@ =~= without_zeros(v@.take(0)));
    while i < v.len()
        invariant
            i <= v@.len(),
            out@ == without_zeros(v@.take(i as int)),
        decreases v@.len() - i,
    {
        assert(v@.take(i + 1).drop_last() =~= v@.take(i as int));
        if v[i] != '\0' {
            out.push(v[i]);
        }
        i += 1;
    }
    assert(v@.take(i as int) =~= v@);
    out
}

/// What is handed to the editor holds no zero character, and a text that holds none is
/// handed over as it is.
pub proof fn no_zeros_are_left(s: Seq<char>)
    ensures
        !without_zeros(s).contains('\0'),
        !s.contains('\0') ==> without_zeros(s) == s,
    decreases s.len(),
{
    if s.len() > 0 {
        let d = s.drop_last();
        no_zeros_are_left(d);
        let w = without_zeros(d);
        if !s.contains('\0') {
            assert(s[s.len() - 1] == s.last());
            assert forall|i: int| 0 <= i < d.len() implies d[i] != '\0' by {
                assert(s[i] == d[i]);
            }
            assert(d.push(s.last()) =~= s);
        }
        if without_zeros(s).contains('\0') {
            let i = choose|i: int| 0 <= i < without_zeros(s).len() && without_zeros(s)[i] == '\0';
            if i < w.len() {
                assert(w[i] == '\0');
            }
        }
    }
}

/// A search result as it is handed over.
#[derive(Debug, Clone)]
pub struct CSearchResult {
    pub path: String,
    pub snippet: String,
    pub line: u32,
    pub col: u32,
    pub score: Score,
}

/// The kind of a search message.
#[derive(Debug, Clone, Copy, PartialEq, Eq, Structural)]
pub enum CSearchMessageType {
    Batch,
    Done,
    Error,
}

/// A search message as it is handed over. A batch has results and no error, the message that
/// a search is over has neither, and one of a failure has only the error.
#[derive(Debug)]
pub struct CSearchMessage {
    pub msg_type: CSearchMessageType,
    pub generation: u64,
    pub total: u64,
    pub results: Vec<CSearchResult>,
    pub results_len: u32,
    pub error: Option<String>,
}

/// How far an index job is.
#[derive(Debug, Clone, Copy, PartialEq, Eq, Structural)]
pub enum CIndexingStatus {
    Done,
    Error,
    Progress,
}

/// An indexing event as it is handed over.
#[derive(Debug)]
pub struct CIndexingEvent {
    pub status: CIndexingStatus,
    pub total: u64,
    pub done: u64,
    pub error: Option<String>,
    pub message: Option<String>,
}

/// The numbers of an index as they are handed over.
#[derive(Debug)]
pub struct CIndexStats {
    pub num_docs: u64,
    pub num_segments: u32,
    pub index_size_bytes: u64,
    pub project_root: String,
}

/// A result was handed over as `c`.
pub open spec fn hands_over(r: ResultView, c: CSearchResult) -> bool {
    &&& c.path@ == without_zeros(r.path)
    &&& c.snippet@ == without_zeros(r.snippet)
    &&& c.line == r.line
    &&& c.col == r.col
    &&& c.score == r.score
}

/// Hand over results.
fn convert_results(results: &Vec<SearchResult>) -> (r: Vec<CSearchResult>)
    ensures
        r@.len() == results@.len(),
        forall|i: int| 0 <= i < r@.len() ==> hands_over(results@[i]@, #[trigger] r@[i]),
{
    let mut out: Vec<CSearchResult> = Vec::new();
    let mut i: usize = 0;
    while i < results.len()
        invariant
            i <= results@.len(),
            out@.len() == i,
            forall|k: int| 0 <= k < i ==> hands_over(results@[k]@, #[trigger] out@[k]),
        decreases results@.len() - i,
    {
        let x = &results[i];
        out.push(
            CSearchResult {
                path: str_to_c(x.path.as_str()),
                snippet: str_to_c(x.snippet.as_str()),
                line: x.line,
                col: x.col,
                score: x.score,
            },
        );
        i += 1;
    }
    out
}

impl CSearchMessage {
    /// Hand over a search message.
    pub fn from_internal(msg: SearchResultMessage) -> (r: CSearchMessage)
        ensures
            match msg {
                SearchResultMessage::Batch { generation, results, total_so_far } => {
                    &&& r.msg_type == CSearchMessageType::Batch
                    &&& r.generation == generation
                    &&& r.total == total_so_far
                    &&& r.results@.len() == results@.len()
                    &&& r.results_len == results@.len() as u32
                    &&& r.error is None
                    &&& forall|i: int|
                        0 <= i < r.results@.len() ==> hands_over(
                            results@[i]@,
                            #[trigger] r.results@[i],
                        )
                },
                SearchResultMessage::Done { generation, total } => {
                    &&& r.msg_type == CSearchMessageType::Done
                    &&& r.generation == generation
                    &&& r.total == total
                    &&& r.results@.len() == 0
                    &&& r.results_len == 0
                    &&& r.error is None
                },
                SearchResultMessage::Error { generation, error } => {
                    &&& r.msg_type == CSearchMessageType::Error
                    &&& r.generation == generation
                    &&& r.total == 0
                    &&& r.results@.len() == 0
                    &&& r.results_len == 0
                    &&& r.error matches Some(e) && e@ == without_zeros(error@)
                },
            },
    {
        match msg {
            SearchResultMessage::Batch { generation, results, total_so_far } => {
                let converted = convert_results(&results);
                #[verifier::truncate]
                let results_len: u32 = (results.len()) as u32;
                CSearchMessage {
                    msg_type: CSearchMessageType::Batch,
                    generation,
                    total: total_so_far,
                    results: converted,
                    results_len,
                    error: None,
                }
            },
            SearchResultMessage::Done { generation, total } => CSearchMessage {
                msg_type: CSearchMessageType::Done,
                generation,
                total,
                results: Vec::new(),
                results_len: 0,
                error: None,
            },
            SearchResultMessage::Error { generation, error } => CSearchMessage {
                msg_type: CSearchMessageType::Error,
                generation,
                total: 0,
                results: Vec::new(),
                results_len: 0,
                error: Some(str_to_c(error.as_str())),
            },
        }
    }
}

/// The status that an event's name stands for. Any other name reports progress.
pub open spec fn status_of(name: Seq<char>) -> CIndexingStatus {
    if name == "done"@ {
        CIndexingStatus::Done
    } else if name == "error"@ {
        CIndexingStatus::Error
    } else {
        CIndexingStatus::Progress
    }
}

/// A string that may be missing was handed over.
pub open spec fn hands_over_text(s: Option<String>, c: Option<String>) -> bool {
    match s {
        Some(t) => c matches Some(u) && u@ == without_zeros(t@),
        None => c is None,
    }
}

/// Hand over a string that may be missing.
fn optional_to_c(s: &Option<String>) -> (r: Option<String>)
    ensures
        hands_over_text(*s, r),
{
    match s {
        Some(t) => Some(str_to_c(t.as_str())),
        None => None,
    }
}

impl CIndexingEvent {
    /// Hand over an indexing event.
    pub fn from_internal(ev: IndexingEvent) -> (r: CIndexingEvent)
        ensures
            r.status == status_of(ev.status@),
            r.total == ev.total,
            r.done == ev.done,
            hands_over_text(ev.error, r.error),
            hands_over_text(ev.message, r.message),
    {
        let status = if same_text(ev.status, "done") {
            CIndexingStatus::Done
        } else if same_text(ev.status, "error") {
            CIndexingStatus::Error
        } else {
            CIndexingStatus::Progress
        };
        CIndexingEvent {
            status,
            total: ev.total,
            done: ev.done,
            error: optional_to_c(&ev.error),
            message: optional_to_c(&ev.message),
        }
    }
}

impl CIndexStats {
    /// Hand over the numbers of an index.
    pub fn from_internal(stats: IndexStats) -> (r: CIndexStats)
        ensures
            r.num_docs == stats.num_docs,
            r.num_segments == stats.num_segments as u32,
            r.index_size_bytes == stats.index_size_bytes,
            r.project_root@ == without_zeros(stats.project_root@),
    {
        #[verifier::truncate]
        let num_segments: u32 = (stats.num_segments) as u32;
        CIndexStats {
            num_docs: stats.num_docs,
            num_segments,
            index_size_bytes: stats.index_size_bytes,
            project_root: str_to_c(stats.project_root.as_str()),
        }
    }
}

/// The limit of a search as the editor gives it: zero stands for no limit.
pub fn search_limit(limit: u64) -> (r: usize)
    ensures
        r == (if limit == 0 {
            usize::MAX
        } else {
            limit as usize
        }),
{
    if limit == 0 {
        usize::MAX
    } else {
        #[verifier::truncate]
        let n: usize = (limit) as usize;
        n
    }
}

/// A text is handed over as it is but for its zero characters, in its order.
pub proof fn only_zeros_are_dropped(s: Seq<char>)
    ensures
        without_zeros(s) == s.filter(|c: char| c != '\0'),
    decreases s.len(),
{
    reveal(Seq::filter);
    if s.len() > 0 {
        only_zeros_are_dropped(s.drop_last());
    } else {
        assert(without_zeros(s) =~= s.filter(|c: char| c != '\0'));
    }
}

/// A result is handed over field by field, a text that may be missing as it is there or not.
pub proof fn results_are_handed_over_whole(
    r: ResultView,
    c: CSearchResult,
    s: Option<String>,
    t: Option<String>,
)
    ensures
        hands_over(r, c) <==> {
            &&& c.path@ == r.path.filter(|x: char| x != '\0')
            &&& c.snippet@ == r.snippet.filter(|x: char| x != '\0')
            &&& c.line == r.line
            &&& c.col == r.col
            &&& c.score == r.score
        },
        hands_over_text(s, t) ==> s is Some == t is Some,
        hands_over_text(s, t) && s is Some ==> t->0@ == s->0@.filter(|x: char| x != '\0'),
{
    only_zeros_are_dropped(r.path);
    only_zeros_are_dropped(r.snippet);
    if s is Some {
        only_zeros_are_dropped(s->0@);
    }
}

/// The names `done` and `error` stand for the end of a job and for its failure, any other for
/// progress.
pub proof fn status_is_told_by_name(name: Seq<char>)
    ensures
        status_of(name) == CIndexingStatus::Done <==> name == "done"@,
        status_of(name) == CIndexingStatus::Error <==> name == "error"@,
        status_of(name) == CIndexingStatus::Progress <==> name != "done"@ && name != "error"@,
{
    reveal_strlit("done");
    reveal_strlit("error");
    assert("done"@.len() == 4 && "error"@.len() == 5);
}

} // verus!
