//! What the endpoints answer: whether a posted body is taken in, the job that is made
//! of it, and the answer to each request that is turned down.

use axum::http::header::{HeaderMap, HeaderValue};
use bytes::Bytes;
use std::sync::Arc;
use tokio::sync::mpsc::Sender;
use vstd::prelude::*;
use vstd::string::*;

use crate::budget;
use crate::budget::{ByteBudget, ByteBudgetError, ByteReservation};
use crate::ledger;
use crate::outside;
use crate::outside::{Sent, Slot, SlotError};
use crate::path;
use crate::path::PathError;
use crate::text;
use crate::writer::WriteJob;

verus! {

/// How much of a file is read at a time to be sent.
pub const GET_STREAM_CAPACITY: usize = 256 * 1024;

/// What all requests share.
#[derive(Clone)]
pub struct AppState {
    pub storage_root: Arc<String>,
    pub tx: Sender<WriteJob>,
    pub queue_byte_budget: Arc<ByteBudget>,
}

/// An answer without a file: a status and, maybe, a line of text.
#[derive(Debug, PartialEq, Eq)]
pub struct Reply {
    pub status: u16,
    pub text: Option<String>,
}

/// The view of a [`Reply`].
pub struct ReplyView {
    pub status: u16,
    pub text: Option<Seq<char>>,
}

impl View for Reply {
    type V = ReplyView;

    open spec fn view(&self) -> ReplyView {
        ReplyView {
            status: self.status,
            text: match self.text {
                Some(s) => Some(s@),
                None => None,
            },
        }
    }
}

/// What is wrong with the declared length of a body.
#[derive(Debug, Clone, Copy, PartialEq, Eq, Structural)]
pub enum ContentLengthError {
    /// No length is declared.
    Missing,
    /// What is declared is not a length.
    Invalid,
}

/// Why a request is turned down.
#[derive(Debug, Clone, Copy, PartialEq, Eq, Structural)]
pub enum Refusal {
    /// Its path is not allowed.
    Path(PathError),
    /// Its body has no proper length.
    Length(ContentLengthError),
    /// There is no slot for it in the queue.
    Queue(SlotError),
    /// Its body does not fit into the budget of this many bytes.
    Budget(ByteBudgetError, usize),
}

/// A request that may send its body: where the body is to be stored, a slot for it in
/// the queue, and room for as many bytes as it has declared.
pub struct Admission {
    pub path: String,
    pub permit: Slot<WriteJob>,
    pub reservation: ByteReservation,
}

/// Why a file cannot be opened.
#[derive(Debug, Clone, Copy, PartialEq, Eq, Structural)]
pub enum OpenError {
    /// There is none.
    NotFound,
    /// Some other reason.
    Other,
}

/// What goes before a file that is sent.
#[derive(Debug, PartialEq, Eq)]
pub struct BlobHead {
    pub status: u16,
    pub content_type: &'static str,
    pub content_length: Option<u64>,
}

/// The length that the bytes of a `content-length` header declare.
pub open spec fn length_value(value: Seq<u8>) -> Result<usize, ContentLengthError> {
    if forall|i: int| 0 <= i < value.len() ==> outside::visible(#[trigger] value[i]) {
        length_text(value.map_values(|b: u8| b as char))
    } else {
        Err(ContentLengthError::Invalid)
    }
}

/// The length that the text of a `content-length` header declares.
pub open spec fn length_text(s: Seq<char>) -> Result<usize, ContentLengthError> {
    match text::count_value(s) {
        Ok(n) => Ok(n),
        Err(_) => Err(ContentLengthError::Invalid),
    }
}

/// The length that headers declare.
pub open spec fn length_of(headers: HeaderMap<HeaderValue>) -> Result<usize, ContentLengthError> {
    if outside::first_values(headers).dom().contains("content-length"@) {
        length_value(outside::first_values(headers)["content-length"@])
    } else {
        Err(ContentLengthError::Missing)
    }
}

/// What a request to post comes to by itself: where its body goes and how long it is,
/// or why it is turned down whatever the state of the queue.
pub open spec fn post_check(
    root: Seq<char>,
    user_path: Seq<char>,
    headers: HeaderMap<HeaderValue>,
) -> Result<(Seq<char>, usize), Refusal> {
    match path::resolved(root, user_path) {
        Err(e) => Err(Refusal::Path(e)),
        Ok(target) => match length_of(headers) {
            Err(e) => Err(Refusal::Length(e)),
            Ok(len) => Ok((target, len)),
        },
    }
}

/// The text of the answer to a body that is larger than the whole budget.
pub open spec fn too_large_text(max_bytes: usize) -> Seq<char> {
    "body exceeds write queue byte limit of "@ + text::decimal_text(max_bytes as nat) + " bytes"@
}

/// The answer to a request that is turned down.
pub open spec fn refusal_reply(refusal: Refusal) -> ReplyView {
    match refusal {
        Refusal::Path(e) => ReplyView {
            status: 400,
            text: Some("invalid path: "@ + path::path_error_text(e)),
        },
        Refusal::Length(ContentLengthError::Missing) => ReplyView {
            status: 411,
            text: Some("content-length required"@),
        },
        Refusal::Length(ContentLengthError::Invalid) => ReplyView {
            status: 400,
            text: Some("invalid content-length"@),
        },
        Refusal::Queue(SlotError::Full) => ReplyView {
            status: 503,
            text: Some("write queue full, retry"@),
        },
        Refusal::Queue(SlotError::Closed) => ReplyView {
            status: 500,
            text: Some("writer shut down"@),
        },
        Refusal::Budget(ByteBudgetError::Full, max_bytes) => ReplyView {
            status: 503,
            text: Some("write queue byte limit reached, retry"@),
        },
        Refusal::Budget(ByteBudgetError::TooLarge, max_bytes) => ReplyView {
            status: 413,
            text: Some(too_large_text(max_bytes)),
        },
    }
}

/// The answer that the service is up.
pub fn healthz() -> (s: &'static str)
    ensures
        s@ == "ok"@,
{
    "ok"
}

fn reply_with(status: u16, text: &str) -> (r: Reply)
    ensures
        r@ == (ReplyView { status, text: Some(text@) }),
{
    Reply { status, text: Some(text.to_owned()) }
}

/// The length that the text of a `content-length` header declares; without a text the
/// header was not readable.
pub fn declared_length(text: Option<&str>) -> (r: Result<usize, ContentLengthError>)
    ensures
        match text {
            Some(s) => r == length_text(s@),
            None => r == Err::<usize, ContentLengthError>(ContentLengthError::Invalid),
        },
{
    match text {
        Some(s) => match text::parse_count(s) {
            Ok(n) => Ok(n),
            Err(_) => Err(ContentLengthError::Invalid),
        },
        None => Err(ContentLengthError::Invalid),
    }
}

/// The length that the headers of a request declare for its body.
pub fn content_length(headers: &HeaderMap) -> (r: Result<usize, ContentLengthError>)
    ensures
        r == length_of(*headers),
{
    proof {
        reveal_strlit("content-length");
    }
    match outside::find_header(headers, "content-length") {
        Some(value) => match value.to_str() {
            Ok(s) => declared_length(Some(s)),
            Err(_) => declared_length(None),
        },
        None => Err(ContentLengthError::Missing),
    }
}

/// The answer to a body without a proper length.
pub fn content_length_error(error: ContentLengthError) -> (r: Reply)
    ensures
        r@ == refusal_reply(Refusal::Length(error)),
{
    match error {
        ContentLengthError::Missing => reply_with(411, "content-length required"),
        ContentLengthError::Invalid => reply_with(400, "invalid content-length"),
    }
}

/// The answer to a body that does not fit into the budget.
pub fn queue_byte_budget_error(error: ByteBudgetError, max_bytes: usize) -> (r: Reply)
    ensures
        r@ == refusal_reply(Refusal::Budget(error, max_bytes)),
{
    match error {
        ByteBudgetError::Full => reply_with(503, "write queue byte limit reached, retry"),
        ByteBudgetError::TooLarge => {
            let mut s: String = "body exceeds write queue byte limit of ".to_owned();
            s.append(text::decimal(max_bytes as u128).as_str());
            s.append(" bytes");
            Reply { status: 413, text: Some(s) }
        },
    }
}

impl Refusal {
    /// The answer to the request.
    pub fn reply(self) -> (r: Reply)
        ensures
            r@ == refusal_reply(self),
    {
        match self {
            Refusal::Path(e) => {
                let mut s: String = "invalid path: ".to_owned();
                s.append(e.message());
                Reply { status: 400, text: Some(s) }
            },
            Refusal::Length(e) => content_length_error(e),
            Refusal::Queue(SlotError::Full) => reply_with(503, "write queue full, retry"),
            Refusal::Queue(SlotError::Closed) => reply_with(500, "writer shut down"),
            Refusal::Budget(e, max_bytes) => queue_byte_budget_error(e, max_bytes),
        }
    }
}

/// Lets a request send its body if there was a slot for it and there is room for its
/// bytes.
pub fn let_in(
    target: String,
    len: usize,
    slot: Result<Slot<WriteJob>, SlotError>,
    queue_byte_budget: &Arc<ByteBudget>,
) -> (r: Result<Admission, Refusal>)
    ensures
        match (slot, r) {
            (Err(e), _) => r == Err::<Admission, Refusal>(Refusal::Queue(e)),
            (Ok(permit), Ok(admission)) => {
                &&& len <= queue_byte_budget.limit()
                &&& budget::can_meet(
                    None,
                    queue_byte_budget.counter(),
                    len,
                    queue_byte_budget.limit(),
                )
                &&& admission.path == target
                &&& admission.permit == permit
                &&& admission.reservation.wf()
                &&& admission.reservation.size() == len
                &&& admission.reservation.budget() == *queue_byte_budget
            },
            (Ok(permit), Err(refusal)) => {
                &&& refusal matches Refusal::Budget(e, max_bytes)
                &&& max_bytes == queue_byte_budget.limit()
                &&& budget::can_meet(Some(e), queue_byte_budget.counter(), len, max_bytes)
            },
        },
        len == 0 && slot is Ok ==> r is Ok,
{
    match slot {
        Err(e) => Err(Refusal::Queue(e)),
        Ok(permit) => match queue_byte_budget.try_reserve(len) {
            Ok(reservation) => Ok(Admission { path: target, permit, reservation }),
            Err(e) => Err(Refusal::Budget(e, queue_byte_budget.max_bytes())),
        },
    }
}

/// Whether `r` is an answer that the queue behind `tx` gives to someone who asks for a
/// slot.
pub closed spec fn slot_answer(
    tx: Sender<WriteJob>,
    r: Result<Slot<WriteJob>, SlotError>,
) -> bool {
    call_ensures(outside::reserve_slot::<WriteJob>, (&tx,), r)
}

/// Decides, before its body is read, whether a request to post may send it.
pub fn begin_post(state: &AppState, user_path: &str, headers: &HeaderMap) -> (r: Result<
    Admission,
    Refusal,
>)
    ensures
        match post_check(state.storage_root@, user_path@, *headers) {
            Err(refusal) => r == Err::<Admission, Refusal>(refusal),
            Ok((target, len)) => match r {
                Ok(admission) => {
                    &&& len <= state.queue_byte_budget.limit()
                    &&& budget::can_meet(
                        None,
                        state.queue_byte_budget.counter(),
                        len,
                        state.queue_byte_budget.limit(),
                    )
                    &&& admission.path@ == target
                    &&& admission.permit.through() == state.tx
                    &&& slot_answer(state.tx, Ok(admission.permit))
                    &&& admission.reservation.wf()
                    &&& admission.reservation.size() == len
                    &&& admission.reservation.budget() == state.queue_byte_budget
                },
                Err(Refusal::Queue(e)) => slot_answer(state.tx, Err(e)),
                Err(Refusal::Budget(e, max_bytes)) => {
                    &&& exists|slot: Slot<WriteJob>| #[trigger] slot_answer(state.tx, Ok(slot))
                    &&& len > 0
                    &&& max_bytes == state.queue_byte_budget.limit()
                    &&& budget::can_meet(
                        Some(e),
                        state.queue_byte_budget.counter(),
                        len,
                        max_bytes,
                    )
                },
                Err(_) => false,
            },
        },
{
    let target: String = match path::resolve_safe(state.storage_root.as_str(), user_path) {
        Ok(target) => target,
        Err(e) => return Err(Refusal::Path(e)),
    };
    let len: usize = match content_length(headers) {
        Ok(len) => len,
        Err(e) => return Err(Refusal::Length(e)),
    };
    let slot: Result<Slot<WriteJob>, SlotError> = outside::reserve_slot(&state.tx);
    assert(slot_answer(state.tx, slot));
    let_in(target, len, slot, &state.queue_byte_budget)
}

/// Whether `job` is what becomes of an admitted request and the body that it sent: the
/// body goes where the request was let in for, and the bytes in the count are those of
/// the body.
pub open spec fn is_job_of(job: WriteJob, admission: Admission, body: Bytes) -> bool {
    &&& job.path == admission.path
    &&& job.bytes == body
    &&& job._byte_reservation.size() == outside::body_bytes(body).len()
    &&& job._byte_reservation.budget() == admission.reservation.budget()
    &&& job._byte_reservation.counted() == admission.reservation.counted() + (
    outside::body_bytes(body).len() - admission.reservation.size())
    &&& admission.reservation.wf() ==> job._byte_reservation.wf()
}

/// Makes a job of a request and the body that it sent, which may be shorter or longer
/// than declared.
pub fn take_body(admission: Admission, body: Bytes) -> (r: Result<
    (Slot<WriteJob>, WriteJob),
    Refusal,
>)
    ensures
        outside::body_bytes(body).len() <= usize::MAX,
        outside::body_bytes(body).len() <= admission.reservation.size() ==> r is Ok,
        match r {
            Ok((permit, job)) => {
                &&& outside::body_bytes(body).len() <= admission.reservation.size()
                    + admission.reservation.budget().limit()
                &&& outside::body_bytes(body).len() > admission.reservation.size()
                    ==> budget::can_meet(
                    None,
                    admission.reservation.budget().counter(),
                    (outside::body_bytes(body).len() - admission.reservation.size()) as usize,
                    admission.reservation.budget().limit(),
                )
                &&& permit == admission.permit
                &&& is_job_of(job, admission, body)
            },
            Err(refusal) => {
                &&& refusal matches Refusal::Budget(e, max_bytes)
                &&& max_bytes == admission.reservation.budget().limit()
                &&& budget::can_meet(
                    Some(e),
                    admission.reservation.budget().counter(),
                    (outside::body_bytes(body).len() - admission.reservation.size()) as usize,
                    max_bytes,
                )
            },
        },
{
    let Admission { path, permit, mut reservation } = admission;
    let max_bytes: usize = reservation.max_bytes();
    match reservation.resize(body.len()) {
        Ok(()) => Ok(
            (permit, WriteJob { path, bytes: body, _byte_reservation: reservation }),
        ),
        Err(e) => Err(Refusal::Budget(e, max_bytes)),
    }
}

/// The answer to a body that was taken in.
pub open spec fn accepted_reply() -> ReplyView {
    ReplyView { status: 202, text: None }
}

/// Puts the job that is made of a request and its body into the slot of the queue that
/// is kept for it, and says that it was taken in.
pub fn finish_post(admission: Admission, body: Bytes) -> (r: Result<
    (Reply, Sent<WriteJob>),
    Refusal,
>)
    ensures
        outside::body_bytes(body).len() <= usize::MAX,
        outside::body_bytes(body).len() <= admission.reservation.size() ==> r is Ok,
        match r {
            Ok((reply, sent)) => {
                &&& outside::body_bytes(body).len() <= admission.reservation.size()
                    + admission.reservation.budget().limit()
                &&& outside::body_bytes(body).len() > admission.reservation.size()
                    ==> budget::can_meet(
                    None,
                    admission.reservation.budget().counter(),
                    (outside::body_bytes(body).len() - admission.reservation.size()) as usize,
                    admission.reservation.budget().limit(),
                )
                &&& reply@ == accepted_reply()
                &&& sent.slot() == admission.permit
                &&& is_job_of(sent.value(), admission, body)
            },
            Err(refusal) => {
                &&& refusal matches Refusal::Budget(e, max_bytes)
                &&& max_bytes == admission.reservation.budget().limit()
                &&& budget::can_meet(
                    Some(e),
                    admission.reservation.budget().counter(),
                    (outside::body_bytes(body).len() - admission.reservation.size()) as usize,
                    max_bytes,
                )
            },
        },
{
    match take_body(admission, body) {
        Ok((permit, job)) => {
            let sent: Sent<WriteJob> = Sent::put(permit, job);
            Ok((Reply { status: 202, text: None }, sent))
        },
        Err(refusal) => Err(refusal),
    }
}

/// Which file a request to read is about.
pub fn begin_get(state: &AppState, user_path: &str) -> (r: Result<String, Refusal>)
    ensures
        match path::resolved(state.storage_root@, user_path@) {
            Ok(target) => r matches Ok(s) && s@ == target,
            Err(e) => r == Err::<String, Refusal>(Refusal::Path(e)),
        },
{
    match path::resolve_safe(state.storage_root.as_str(), user_path) {
        Ok(target) => Ok(target),
        Err(e) => Err(Refusal::Path(e)),
    }
}

/// The answer when a file cannot be opened.
pub fn open_error(error: OpenError) -> (r: Reply)
    ensures
        r@ == (ReplyView {
            status: match error {
                OpenError::NotFound => 404,
                OpenError::Other => 500,
            },
            text: None,
        }),
{
    match error {
        OpenError::NotFound => Reply { status: 404, text: None },
        OpenError::Other => Reply { status: 500, text: None },
    }
}

/// What goes before a file that is sent. Its length is left out if it is not known.
pub fn blob_head(len: Option<u64>) -> (head: BlobHead)
    ensures
        head.status == 200,
        head.content_type@ == "application/octet-stream"@,
        head.content_length == len,
{
    BlobHead { status: 200, content_type: "application/octet-stream", content_length: len }
}

/// An answer of the queue is one that was got by asking it.
pub(crate) proof fn slot_answers_are_got_by_asking(
    tx: Sender<WriteJob>,
    r: Result<Slot<WriteJob>, SlotError>,
)
    requires
        slot_answer(tx, r),
    ensures
        call_ensures(outside::reserve_slot::<WriteJob>, (&tx,), r),
{
}

/// A request to post is turned down for the queue only if the queue gave that answer, and
/// for the budget only if the queue had a slot for it.
pub proof fn the_queue_is_asked(
    state: &AppState,
    user_path: &str,
    headers: &HeaderMap,
    r: Result<Admission, Refusal>,
)
    requires
        call_ensures(begin_post, (state, user_path, headers), r),
    ensures
        r matches Err(Refusal::Queue(e)) ==> slot_answer(state.tx, Err(e)),
        r matches Err(Refusal::Budget(_, _)) ==> exists|slot: Slot<WriteJob>| #[trigger]
            slot_answer(state.tx, Ok(slot)),
        r matches Ok(admission) ==> slot_answer(state.tx, Ok(admission.permit)),
{
}

/// The text of a `content-length` header declares what its digits are worth, with or
/// without a `+` before them, up to the largest count. Anything else is no length.
pub proof fn declared_length_is_what_its_digits_are_worth(
    text: Option<&str>,
    r: Result<usize, ContentLengthError>,
)
    requires
        call_ensures(declared_length, (text,), r),
    ensures
        match text {
            Some(s) => {
                let digits = text::unsigned(s@);
                &&& r is Ok <==> digits.len() > 0 && text::all_digits(digits) && text::worth(
                    digits,
                ) <= usize::MAX
                &&& r matches Ok(n) ==> n == text::worth(digits)
            },
            None => r is Err,
        },
        r matches Err(e) ==> e == ContentLengthError::Invalid,
{
    if let Some(s) = text {
        text::lemma_count_worth(s@);
    }
}

/// Whether the first `content-length` header is a row of digits that is worth `n`, with or
/// without a `+` before it.
pub open spec fn declares(headers: HeaderMap<HeaderValue>, n: int) -> bool {
    let values = outside::first_values(headers);
    let digits = text::unsigned(values["content-length"@].map_values(|b: u8| b as char));
    &&& values.dom().contains("content-length"@)
    &&& digits.len() > 0
    &&& text::all_digits(digits)
    &&& text::worth(digits) == n
}

/// The headers of a request declare the length that the digits of their first
/// `content-length` are worth, for every count that there is. Without that header the
/// length is missing, and with any other value of it there is no proper length.
pub proof fn content_length_is_what_is_declared(
    headers: &HeaderMap,
    r: Result<usize, ContentLengthError>,
)
    requires
        call_ensures(content_length, (headers,), r),
    ensures
        forall|n: usize|
            #![trigger declares(*headers, n as int)]
            r == Ok::<usize, ContentLengthError>(n) <==> declares(*headers, n as int),
        r == Err::<usize, ContentLengthError>(ContentLengthError::Missing)
            <==> !outside::first_values(*headers).dom().contains("content-length"@),
{
    lemma_length_exactly(*headers);
}

proof fn lemma_length_exactly(headers: HeaderMap<HeaderValue>)
    ensures
        forall|n: usize|
            #![trigger declares(headers, n as int)]
            length_of(headers) == Ok::<usize, ContentLengthError>(n) <==> declares(
                headers,
                n as int,
            ),
        length_of(headers) == Err::<usize, ContentLengthError>(ContentLengthError::Missing)
            <==> !outside::first_values(headers).dom().contains("content-length"@),
{
    let value = outside::first_values(headers)["content-length"@];
    let chars = value.map_values(|b: u8| b as char);
    text::lemma_count_worth(chars);
    let digits = text::unsigned(chars);
    if digits.len() > 0 && text::all_digits(digits) {
        assert forall|i: int| 0 <= i < value.len() implies outside::visible(
            #[trigger] value[i],
        ) by {
            assert(chars[i] == value[i] as char);
            if digits == chars {
                assert('0' <= digits[i] && digits[i] <= '9');
            } else if i > 0 {
                assert(digits[i - 1] == chars[i]);
                assert('0' <= digits[i - 1] && digits[i - 1] <= '9');
            } else {
                assert(chars[0] == '+');
            }
        }
    }
}

/// A length in decimal is read as that length, for every length that there is.
pub proof fn every_length_can_be_declared(
    headers: HeaderMap<HeaderValue>,
    n: usize,
)
    requires
        outside::first_values(headers).dom().contains("content-length"@),
        outside::first_values(headers)["content-length"@].map_values(|b: u8| b as char)
            == text::decimal_text(n as nat),
    ensures
        declares(headers, n as int),
        length_text(text::decimal_text(n as nat)) == Ok::<usize, ContentLengthError>(n),
        length_of(headers) == Ok::<usize, ContentLengthError>(n),
{
    let s = text::decimal_text(n as nat);
    text::lemma_decimal_worth(n as nat);
    assert('0' <= s[0] && s[0] <= '9');
    assert(text::unsigned(s) == s);
    text::lemma_count_worth(s);
    assert(declares(headers, n as int));
    lemma_length_exactly(headers);
}

/// Whether a client's path is one that is allowed.
pub open spec fn safe(user_path: Seq<char>) -> bool {
    &&& user_path.len() > 0
    &&& !user_path.contains('\0')
    &&& user_path[0] != '/'
    &&& !path::goes_up(user_path)
}

/// A request to post that names a safe path and declares its length is let in if the queue
/// never turns anyone away and the budget always has room for that many bytes, whatever
/// the path and the length are. It is let in for that path under the root, with that many
/// bytes reserved and a slot of that queue.
pub proof fn proper_post_is_let_in(
    state: &AppState,
    user_path: &str,
    headers: &HeaderMap,
    n: usize,
    r: Result<Admission, Refusal>,
)
    requires
        call_ensures(begin_post, (state, user_path, headers), r),
        safe(user_path@),
        declares(*headers, n as int),
        forall|e: SlotError| !#[trigger] slot_answer(state.tx, Err(e)),
        forall|k: nat|
            (#[trigger] state.queue_byte_budget.counter().at(k)) + n
                <= state.queue_byte_budget.limit(),
    ensures
        r is Ok,
        r matches Ok(admission) ==> {
            let root = state.storage_root@;
            &&& admission.path@ == root + (if root.len() == 0 || root.last() == '/' {
                Seq::<char>::empty()
            } else {
                seq!['/']
            }) + user_path@
            &&& admission.reservation.size() == n
            &&& admission.reservation.counted() == n
            &&& admission.reservation.budget() == state.queue_byte_budget
            &&& admission.permit.through() == state.tx
        },
{
    path::lemma_resolved_exactly(state.storage_root@, user_path@);
    lemma_length_exactly(*headers);
    assert(length_of(*headers) == Ok::<usize, ContentLengthError>(n));
    if let Err(Refusal::Budget(e, max_bytes)) = r {
        ledger::answers_have_their_reasons(
            Some(e),
            state.queue_byte_budget.counter(),
            n,
            max_bytes,
        );
        assert(state.queue_byte_budget.counter().at(0) + n <= state.queue_byte_budget.limit());
    }
}

/// What is wrong with a request to post is said in order: first its path, then its length,
/// then the queue, and then that it does not fit into the budget; and a request that is let
/// in has nothing wrong with it.
pub proof fn post_is_refused_in_order(
    state: &AppState,
    user_path: &str,
    headers: &HeaderMap,
    r: Result<Admission, Refusal>,
)
    requires
        call_ensures(begin_post, (state, user_path, headers), r),
    ensures
        r matches Err(Refusal::Path(_)) <==> !safe(user_path@),
        r == Err::<Admission, Refusal>(Refusal::Length(ContentLengthError::Missing)) <==> safe(
            user_path@,
        ) && !outside::first_values(*headers).dom().contains("content-length"@),
        r == Err::<Admission, Refusal>(Refusal::Length(ContentLengthError::Invalid)) <==> safe(
            user_path@,
        ) && outside::first_values(*headers).dom().contains("content-length"@) && forall|n: usize|
            !#[trigger] declares(*headers, n as int),
        r matches Err(Refusal::Budget(ByteBudgetError::TooLarge, _)) ==> exists|n: usize|
            #[trigger] declares(*headers, n as int) && n > state.queue_byte_budget.limit(),
        r matches Ok(admission) ==> declares(*headers, admission.reservation.size() as int)
            && admission.reservation.size() <= state.queue_byte_budget.limit(),
{
    path::lemma_resolved_exactly(state.storage_root@, user_path@);
    lemma_length_exactly(*headers);
    match length_of(*headers) {
        Ok(n) => {
            assert(declares(*headers, n as int));
            if let Err(Refusal::Budget(e, max_bytes)) = r {
                if safe(user_path@) {
                    ledger::answers_have_their_reasons(
                        Some(e),
                        state.queue_byte_budget.counter(),
                        n,
                        max_bytes,
                    );
                }
            }
        },
        Err(_) => {},
    }
}

/// A body that is no longer than was declared is always taken in and answered 202, and so
/// is a longer one if the budget always has room for what it is longer. The job that is put
/// into the slot has the body as it is and the path that the request was let in for, and
/// as many bytes reserved as the body has.
pub proof fn body_is_taken_in(
    admission: Admission,
    body: Bytes,
    r: Result<(Reply, Sent<WriteJob>), Refusal>,
)
    requires
        call_ensures(finish_post, (admission, body), r),
    ensures
        ({
            let len = outside::body_bytes(body).len();
            let declared = admission.reservation.size();
            let limit = admission.reservation.budget().limit();
            &&& len <= declared ==> r is Ok
            &&& (forall|k: nat|
                (#[trigger] admission.reservation.budget().counter().at(k)) + (len - declared)
                    <= limit) ==> r is Ok
            &&& len - declared > limit ==> r == Err::<(Reply, Sent<WriteJob>), Refusal>(
                Refusal::Budget(ByteBudgetError::TooLarge, limit),
            )
            &&& r matches Err(refusal) ==> len > declared && (refusal == Refusal::Budget(
                ByteBudgetError::TooLarge,
                limit,
            ) || refusal == Refusal::Budget(ByteBudgetError::Full, limit))
            &&& r matches Ok((reply, sent)) ==> {
                &&& reply.status == 202
                &&& reply.text is None
                &&& sent.slot() == admission.permit
                &&& sent.value().path@ == admission.path@
                &&& sent.value().bytes == body
                &&& sent.value()._byte_reservation.size() == len
                &&& sent.value()._byte_reservation.budget() == admission.reservation.budget()
                &&& admission.reservation.wf() ==> sent.value()._byte_reservation.wf()
            }
        }),
{
    let len = outside::body_bytes(body).len();
    let counter = admission.reservation.budget().counter();
    if let Err(Refusal::Budget(e, max_bytes)) = r {
        let more = (len - admission.reservation.size()) as usize;
        ledger::answers_have_their_reasons(Some(e), counter, more, max_bytes);
        assert(counter.at(0) == counter.at(0));
    }
}

/// A request that is turned down is answered by what is wrong with it: 400 for a path or a
/// length that is none, 411 for no length, 413 for a body larger than the whole budget, 500
/// if nobody writes any more, and 503 if it may be tried again. The answer to a body that is
/// too large tells the size of the budget.
pub proof fn refusals_have_their_answers(refusal: Refusal, r: Reply)
    requires
        call_ensures(Refusal::reply, (refusal,), r),
    ensures
        r.text is Some,
        match refusal {
            Refusal::Path(_) => r.status == 400 && "invalid path: "@.is_prefix_of(r.text->Some_0@),
            Refusal::Length(ContentLengthError::Missing) => r.status == 411,
            Refusal::Length(ContentLengthError::Invalid) => r.status == 400,
            Refusal::Queue(SlotError::Full) => r.status == 503,
            Refusal::Queue(SlotError::Closed) => r.status == 500,
            Refusal::Budget(ByteBudgetError::Full, _) => r.status == 503,
            Refusal::Budget(ByteBudgetError::TooLarge, max_bytes) => {
                &&& r.status == 413
                &&& exists|digits: Seq<char>| #[trigger]
                    text::worth(digits) == max_bytes && text::all_digits(digits)
                        && r.text->Some_0@ == "body exceeds write queue byte limit of "@ + digits
                        + " bytes"@
            },
        },
{
    match refusal {
        Refusal::Path(e) => {
            assert(r.text->Some_0@.take("invalid path: "@.len() as int) == "invalid path: "@);
        },
        Refusal::Budget(ByteBudgetError::TooLarge, max_bytes) => {
            text::lemma_decimal_worth(max_bytes as nat);
            let digits = text::decimal_text(max_bytes as nat);
            assert(text::worth(digits) == max_bytes);
        },
        _ => {},
    }
}

/// A request to read is about the file under the root that a post to the same path is
/// stored as, and is turned down exactly if the path is not safe.
pub proof fn get_is_about_the_posted_path(
    state: &AppState,
    user_path: &str,
    r: Result<String, Refusal>,
)
    requires
        call_ensures(begin_get, (state, user_path), r),
    ensures
        r is Ok <==> safe(user_path@),
        r matches Err(refusal) ==> refusal is Path,
        r matches Ok(target) ==> {
            let root = state.storage_root@;
            target@ == root + (if root.len() == 0 || root.last() == '/' {
                Seq::<char>::empty()
            } else {
                seq!['/']
            }) + user_path@
        },
{
    path::lemma_resolved_exactly(state.storage_root@, user_path@);
}

/// A file that is there is answered 200 with its length, whatever that is, and one that is
/// not is answered 404.
pub proof fn reads_are_answered(
    len: Option<u64>,
    head: BlobHead,
    error: OpenError,
    reply: Reply,
)
    requires
        call_ensures(blob_head, (len,), head),
        call_ensures(open_error, (error,), reply),
    ensures
        head.status == 200,
        head.content_length == len,
        head.content_type@ == "application/octet-stream"@,
        reply.status == (if error == OpenError::NotFound {
            404u16
        } else {
            500u16
        }),
        reply.text is None,
{
}

/// A body that is taken in is stored under the root, whatever path its request names.
pub proof fn posted_body_stays_under_root(
    root: Seq<char>,
    user_path: Seq<char>,
    headers: HeaderMap<HeaderValue>,
)
    requires
        post_check(root, user_path, headers) is Ok,
    ensures
        path::components_of(root).is_prefix_of(
            path::components_of(post_check(root, user_path, headers)->Ok_0.0),
        ),
        !path::components_of(post_check(root, user_path, headers)->Ok_0.0).skip(
            path::components_of(root).len() as int,
        ).contains(path::Part::ParentDir),
{
    path::resolved_stays_under_root(root, user_path);
}

} // verus!
