use std::sync::Arc;

use axum::http::header::{HeaderMap, HeaderValue, CONTENT_LENGTH};
use bytes::Bytes;
use rs_blobstore::budget::{ByteBudget, ByteBudgetError};
use rs_blobstore::outside::SlotError;
use rs_blobstore::path::PathError;
use rs_blobstore::routes::{
    begin_get, begin_post, blob_head, content_length, content_length_error, declared_length,
    finish_post, healthz, let_in, open_error, queue_byte_budget_error, take_body, AppState,
    ContentLengthError, OpenError, Refusal, Reply,
};
use rs_blobstore::writer::WriteJob;
use tokio::sync::mpsc::{channel, Receiver};

fn state(slots: usize, max_bytes: usize) -> (AppState, Receiver<WriteJob>) {
    let (tx, rx) = channel(slots);
    let state = AppState {
        storage_root: Arc::new(String::from("/data")),
        tx,
        queue_byte_budget: Arc::new(ByteBudget::new(max_bytes)),
    };
    (state, rx)
}

fn length(s: &'static str) -> HeaderMap {
    let mut headers = HeaderMap::new();
    headers.insert(CONTENT_LENGTH, HeaderValue::from_static(s));
    headers
}

fn reply(status: u16, text: &str) -> Reply {
    Reply { status, text: Some(String::from(text)) }
}

#[test]
fn content_length_is_read() {
    assert_eq!(content_length(&length("12")), Ok(12));
    assert_eq!(content_length(&length("+7")), Ok(7));
    assert_eq!(content_length(&length("0")), Ok(0));
    assert_eq!(content_length(&HeaderMap::new()), Err(ContentLengthError::Missing));
    assert_eq!(content_length(&length("")), Err(ContentLengthError::Invalid));
    assert_eq!(content_length(&length("-1")), Err(ContentLengthError::Invalid));
    assert_eq!(content_length(&length("12 ")), Err(ContentLengthError::Invalid));
    assert_eq!(
        content_length(&length("99999999999999999999999999")),
        Err(ContentLengthError::Invalid)
    );
}

#[test]
fn content_length_that_is_not_text_is_invalid() {
    let mut headers = HeaderMap::new();
    headers.insert(CONTENT_LENGTH, HeaderValue::from_bytes(b"1\xff").unwrap());
    assert_eq!(content_length(&headers), Err(ContentLengthError::Invalid));
}

#[test]
fn first_content_length_counts() {
    let mut headers = HeaderMap::new();
    headers.append("Content-Length", HeaderValue::from_static("5"));
    headers.append("content-length", HeaderValue::from_static("6"));
    headers.append("content-type", HeaderValue::from_static("7"));
    assert_eq!(content_length(&headers), Ok(5));
}

#[test]
fn declared_length_needs_a_readable_text() {
    assert_eq!(declared_length(Some("44")), Ok(44));
    assert_eq!(declared_length(Some("x")), Err(ContentLengthError::Invalid));
    assert_eq!(declared_length(None), Err(ContentLengthError::Invalid));
}

#[test]
fn every_refusal_has_its_answer() {
    assert_eq!(
        Refusal::Path(PathError::ParentDir).reply(),
        reply(400, "invalid path: path component not allowed: ParentDir")
    );
    assert_eq!(
        content_length_error(ContentLengthError::Missing),
        reply(411, "content-length required")
    );
    assert_eq!(
        Refusal::Length(ContentLengthError::Invalid).reply(),
        reply(400, "invalid content-length")
    );
    assert_eq!(Refusal::Queue(SlotError::Full).reply(), reply(503, "write queue full, retry"));
    assert_eq!(Refusal::Queue(SlotError::Closed).reply(), reply(500, "writer shut down"));
    assert_eq!(
        Refusal::Budget(ByteBudgetError::Full, 9).reply(),
        reply(503, "write queue byte limit reached, retry")
    );
    assert_eq!(
        queue_byte_budget_error(ByteBudgetError::TooLarge, 1024),
        reply(413, "body exceeds write queue byte limit of 1024 bytes")
    );
}

#[test]
fn post_is_queued_as_it_came() {
    let (state, mut rx) = state(1, 10);
    let admission = begin_post(&state, "foo/bar", &length("5")).ok().unwrap();
    assert_eq!(admission.path, "/data/foo/bar");
    assert_eq!(state.queue_byte_budget.used_bytes(), 5);
    let (answer, _sent) = finish_post(admission, Bytes::from_static(b"hello")).ok().unwrap();
    assert_eq!(answer, Reply { status: 202, text: None });

    let job = rx.try_recv().unwrap();
    assert_eq!(job.path, "/data/foo/bar");
    assert_eq!(&job.bytes[..], b"hello");
    assert_eq!(state.queue_byte_budget.used_bytes(), 5);
    drop(job);
    assert_eq!(state.queue_byte_budget.used_bytes(), 0);
}

#[test]
fn queued_job_has_the_bytes_of_its_body() {
    let (state, mut rx) = state(1, 10);
    let admission = begin_post(&state, "foo/bar.bin", &length("8")).ok().unwrap();
    let (answer, _sent) = finish_post(admission, Bytes::from_static(b"abc")).ok().unwrap();
    assert_eq!(answer.status, 202);
    assert_eq!(state.queue_byte_budget.used_bytes(), 3);
    let job = rx.try_recv().unwrap();
    assert_eq!(job.path, "/data/foo/bar.bin");
    assert_eq!(&job.bytes[..], b"abc");
    assert!(rx.try_recv().is_err());
}

#[test]
fn get_is_about_the_file_of_the_post() {
    let (state, mut rx) = state(1, 10);
    let admission = begin_post(&state, "./foo//bar", &length("2")).ok().unwrap();
    assert!(finish_post(admission, Bytes::from_static(b"hi")).is_ok());
    let job = rx.try_recv().unwrap();
    assert_eq!(begin_get(&state, "./foo//bar"), Ok(job.path.clone()));
    assert_eq!(begin_get(&state, "../x"), Err(Refusal::Path(PathError::ParentDir)));
}

#[test]
fn shorter_body_gives_bytes_back() {
    let (state, _rx) = state(1, 10);
    let admission = begin_post(&state, "a", &length("8")).ok().unwrap();
    let (_permit, job) = take_body(admission, Bytes::from_static(b"abc")).ok().unwrap();
    assert_eq!(state.queue_byte_budget.used_bytes(), 3);
    assert_eq!(job.path, "/data/a");
    assert_eq!(&job.bytes[..], b"abc");
}

#[test]
fn longer_body_needs_more_bytes() {
    let (state, _rx) = state(2, 10);
    let admission = begin_post(&state, "a", &length("1")).ok().unwrap();
    let (permit, job) = take_body(admission, Bytes::from_static(b"abcde")).ok().unwrap();
    assert_eq!(state.queue_byte_budget.used_bytes(), 5);
    drop(job);
    drop(permit);
    let admission = begin_post(&state, "a", &length("1")).ok().unwrap();
    let refusal = finish_post(admission, Bytes::from_static(b"0123456789a")).err().unwrap();
    assert_eq!(refusal, Refusal::Budget(ByteBudgetError::Full, 10));
    let admission = begin_post(&state, "a", &length("0")).ok().unwrap();
    let refusal = finish_post(admission, Bytes::from_static(b"0123456789a")).err().unwrap();
    assert_eq!(refusal, Refusal::Budget(ByteBudgetError::TooLarge, 10));
    assert_eq!(state.queue_byte_budget.used_bytes(), 0);
}

#[test]
fn post_is_turned_down_in_order() {
    let (state, rx) = state(1, 10);
    let none = HeaderMap::new();
    assert_eq!(
        begin_post(&state, "/x", &none).err(),
        Some(Refusal::Path(PathError::Absolute))
    );
    assert_eq!(
        begin_post(&state, "x", &none).err(),
        Some(Refusal::Length(ContentLengthError::Missing))
    );
    assert_eq!(
        begin_post(&state, "x", &length("11")).err(),
        Some(Refusal::Budget(ByteBudgetError::TooLarge, 10))
    );
    let kept = begin_post(&state, "x", &length("6")).ok().unwrap();
    assert_eq!(
        begin_post(&state, "y", &length("11")).err(),
        Some(Refusal::Queue(SlotError::Full))
    );
    drop(kept);
    drop(rx);
    assert_eq!(
        begin_post(&state, "y", &length("1")).err(),
        Some(Refusal::Queue(SlotError::Closed))
    );
    assert_eq!(state.queue_byte_budget.used_bytes(), 0);
}

#[test]
fn post_waits_for_bytes_in_use() {
    let (state, _rx) = state(2, 10);
    let _kept = begin_post(&state, "x", &length("6")).ok().unwrap();
    assert_eq!(
        begin_post(&state, "y", &length("5")).err(),
        Some(Refusal::Budget(ByteBudgetError::Full, 10))
    );
    assert!(begin_post(&state, "y", &length("4")).is_ok());
}

#[test]
fn no_slot_no_reservation() {
    let budget = Arc::new(ByteBudget::new(10));
    let r = let_in(String::from("/data/a"), 4, Err(SlotError::Full), &budget);
    assert_eq!(r.err(), Some(Refusal::Queue(SlotError::Full)));
    assert_eq!(budget.used_bytes(), 0);
}

#[test]
fn reads_answer_by_what_happened() {
    assert_eq!(open_error(OpenError::NotFound), Reply { status: 404, text: None });
    assert_eq!(open_error(OpenError::Other), Reply { status: 500, text: None });
    let head = blob_head(Some(3));
    assert_eq!(head.status, 200);
    assert_eq!(head.content_type, "application/octet-stream");
    assert_eq!(head.content_length, Some(3));
    assert_eq!(blob_head(None).content_length, None);
    assert_eq!(healthz(), "ok");
}

#[test]
fn state_is_shared_by_its_clones() {
    let (state, _rx) = state(1, 10);
    let other = state.clone();
    let _kept = begin_post(&other, "x", &length("6")).ok().unwrap();
    assert_eq!(state.queue_byte_budget.used_bytes(), 6);
    assert_eq!(
        begin_post(&state, "y", &length("1")).err(),
        Some(Refusal::Queue(SlotError::Full))
    );
}

#[test]
fn empty_post_is_let_in_by_a_full_budget() {
    let (state, mut rx) = state(2, 10);
    let _all = begin_post(&state, "x", &length("10")).ok().unwrap();
    let admission = begin_post(&state, "y", &length("0")).ok().unwrap();
    let (answer, _sent) = finish_post(admission, Bytes::new()).ok().unwrap();
    assert_eq!(answer.status, 202);
    let job = rx.try_recv().unwrap();
    assert_eq!(job.path, "/data/y");
    assert_eq!(job.bytes.len(), 0);
    assert_eq!(state.queue_byte_budget.used_bytes(), 10);
}

#[test]
fn body_that_outgrows_the_budget_is_too_large() {
    let (state, mut rx) = state(1, 4);
    let admission = begin_post(&state, "x", &length("1")).ok().unwrap();
    let refusal = finish_post(admission, Bytes::from_static(b"abcdef")).err().unwrap();
    assert_eq!(refusal, Refusal::Budget(ByteBudgetError::TooLarge, 4));
    assert_eq!(refusal.reply().status, 413);
    let admission = begin_post(&state, "x", &length("1")).ok().unwrap();
    let refusal = finish_post(admission, Bytes::from_static(b"abcde")).err().unwrap();
    assert_eq!(refusal.reply().status, 503);
    assert!(rx.try_recv().is_err());
}

#[test]
fn job_arrives_where_its_slot_was_taken() {
    let (one, mut one_rx) = state(1, 10);
    let (two, mut two_rx) = state(1, 10);
    let first = begin_post(&one, "a", &length("1")).ok().unwrap();
    let second = begin_post(&two, "b", &length("1")).ok().unwrap();
    assert!(finish_post(second, Bytes::from_static(b"2")).is_ok());
    assert!(one_rx.try_recv().is_err());
    assert_eq!(two_rx.try_recv().unwrap().path, "/data/b");
    assert!(finish_post(first, Bytes::from_static(b"1")).is_ok());
    assert_eq!(one_rx.try_recv().unwrap().path, "/data/a");
}
