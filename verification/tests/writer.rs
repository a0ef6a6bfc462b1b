use std::collections::BTreeMap;
use std::sync::Arc;

use bytes::Bytes;
use rs_blobstore::budget::ByteBudget;
use rs_blobstore::path::parent;
use rs_blobstore::writer::{fresh_tmp_path, tmp_path, Action, Worker, WriteJob};

fn job(budget: &Arc<ByteBudget>, path: &str, body: &'static [u8]) -> WriteJob {
    WriteJob {
        path: String::from(path),
        bytes: Bytes::from_static(body),
        _byte_reservation: budget.try_reserve(body.len()).unwrap(),
    }
}

#[derive(Debug, PartialEq)]
enum Step {
    Receive,
    CreateDir(String),
    WriteFile(String, Vec<u8>),
    Rename(String, String),
    Stop,
}

fn step(worker: &Worker) -> Step {
    match worker.action() {
        Action::Receive => Step::Receive,
        Action::CreateDir(dir) => Step::CreateDir(String::from(dir)),
        Action::WriteFile(tmp, bytes) => Step::WriteFile(String::from(tmp), bytes.to_vec()),
        Action::Rename(from, to) => Step::Rename(String::from(from), String::from(to)),
        Action::Stop => Step::Stop,
    }
}

/// Carries out all steps until the worker waits again, on files that are only kept here.
fn run(worker: &mut Worker, files: &mut BTreeMap<String, Vec<u8>>) -> Vec<Step> {
    let mut steps: Vec<Step> = Vec::new();
    loop {
        let s = step(worker);
        match &s {
            Step::Receive => break,
            Step::Stop => break,
            Step::CreateDir(_) => {}
            Step::WriteFile(tmp, bytes) => {
                files.insert(tmp.clone(), bytes.clone());
            }
            Step::Rename(from, to) => {
                let bytes = files.remove(from).unwrap();
                files.insert(to.clone(), bytes);
            }
        }
        steps.push(s);
        worker.done();
    }
    steps
}

#[test]
fn tmp_name_is_made_of_time_and_chance() {
    assert_eq!(
        tmp_path("/data/a", 1234, &[0x00, 0xab, 1, 2, 3, 4, 5, 0xff]),
        "/data/a.tmp.1234.00ab0102030405ff"
    );
}

#[test]
fn fresh_tmp_names_differ() {
    let a = fresh_tmp_path("/data/a");
    let b = fresh_tmp_path("/data/a");
    assert_ne!(a, b);
    let rest = a.strip_prefix("/data/a.tmp.").unwrap();
    let (nanos, random) = rest.split_once('.').unwrap();
    // Long after 2001, and not all of the random bytes are still zero.
    assert!(nanos.parse::<u128>().unwrap() > 1_000_000_000_000_000_000);
    assert_eq!(random.len(), 16);
    assert!(random.chars().all(|c| c.is_ascii_hexdigit()));
    assert_ne!(random, "0000000000000000");
}

#[test]
fn job_is_stored_as_posted() {
    let budget = Arc::new(ByteBudget::new(100));
    let mut files: BTreeMap<String, Vec<u8>> = BTreeMap::new();
    files.insert(String::from("/data/foo/bar"), b"old".to_vec());
    files.insert(String::from("/data/other"), b"kept".to_vec());
    let mut worker = Worker::new();

    assert_eq!(step(&worker), Step::Receive);
    worker.receive(Some(job(&budget, "/data/foo/bar", b"hello")));
    assert_eq!(budget.used_bytes(), 5);
    assert_eq!(worker.job_path(), Some("/data/foo/bar"));
    let steps = run(&mut worker, &mut files);

    assert_eq!(steps.len(), 3);
    assert_eq!(steps[0], Step::CreateDir(String::from("/data/foo")));
    assert_eq!(files.get("/data/foo/bar").unwrap(), b"hello");
    assert_eq!(files.get("/data/other").unwrap(), b"kept");
    assert_eq!(files.len(), 2);
    assert_eq!(budget.used_bytes(), 0);
    assert_eq!(worker.job_path(), None);
    assert_eq!(worker.doing(), None);
}

#[test]
fn directory_is_made_once() {
    let budget = Arc::new(ByteBudget::new(100));
    let mut files: BTreeMap<String, Vec<u8>> = BTreeMap::new();
    let mut worker = Worker::new();
    worker.receive(Some(job(&budget, "/data/a/x", b"1")));
    assert_eq!(run(&mut worker, &mut files).len(), 3);
    worker.receive(Some(job(&budget, "/data/a/y", b"2")));
    assert_eq!(run(&mut worker, &mut files).len(), 2);
    worker.receive(Some(job(&budget, "/data//a/./z", b"3")));
    assert_eq!(run(&mut worker, &mut files).len(), 2);
    worker.receive(Some(job(&budget, "/data/b/x", b"4")));
    assert_eq!(run(&mut worker, &mut files).len(), 3);
}

#[test]
fn directory_that_failed_is_tried_again() {
    let budget = Arc::new(ByteBudget::new(100));
    let mut worker = Worker::new();
    worker.receive(Some(job(&budget, "/data/a/x", b"1")));
    assert_eq!(worker.doing().unwrap(), "create_dir_all /data/a");
    worker.failed();
    assert_eq!(step(&worker), Step::Receive);
    assert_eq!(budget.used_bytes(), 0);
    worker.receive(Some(job(&budget, "/data/a/x", b"1")));
    assert_eq!(step(&worker), Step::CreateDir(String::from("/data/a")));
}

#[test]
fn failed_write_is_given_up() {
    let budget = Arc::new(ByteBudget::new(100));
    let mut worker = Worker::new();
    worker.receive(Some(job(&budget, "/data/a/x", b"1")));
    worker.done();
    let tmp = match step(&worker) {
        Step::WriteFile(tmp, bytes) => {
            assert_eq!(bytes, b"1");
            tmp
        }
        other => panic!("unexpected step {:?}", other),
    };
    assert_eq!(worker.doing().unwrap(), format!("write {}", tmp));
    worker.done();
    assert_eq!(step(&worker), Step::Rename(tmp.clone(), String::from("/data/a/x")));
    assert_eq!(worker.doing().unwrap(), format!("rename {} -> /data/a/x", tmp));
    worker.failed();
    assert_eq!(step(&worker), Step::Receive);
    assert_eq!(budget.used_bytes(), 0);
}

#[test]
fn path_without_parent_needs_no_directory() {
    let budget = Arc::new(ByteBudget::new(100));
    let mut worker = Worker::new();
    worker.receive(Some(job(&budget, "/", b"1")));
    assert!(matches!(worker.action(), Action::WriteFile(_, _)));
}

#[test]
fn worker_stops_when_there_are_no_more_jobs() {
    let mut worker = Worker::new();
    worker.receive(None);
    assert_eq!(step(&worker), Step::Stop);
    worker.done();
    assert_eq!(step(&worker), Step::Stop);
    worker.failed();
    assert_eq!(step(&worker), Step::Stop);
}

#[test]
fn tmp_file_is_beside_its_target() {
    for target in ["/data/a/b", "/data/x.bin", "a", "./a/.b"] {
        let tmp = fresh_tmp_path(target);
        assert_ne!(tmp, target);
        assert_eq!(parent(&tmp), parent(target));
    }
}

#[test]
fn tmp_names_differ_by_time_or_chance() {
    let name = tmp_path("/data/a", 12, &[1, 2]);
    assert_ne!(name, tmp_path("/data/a", 13, &[1, 2]));
    assert_ne!(name, tmp_path("/data/a", 12, &[1, 3]));
    assert_ne!(name, tmp_path("/data/a", 1, &[2, 1, 2]));
}

/// Carries out one step of a worker.
fn one(worker: &mut Worker, files: &mut BTreeMap<String, Vec<u8>>) {
    match step(worker) {
        Step::WriteFile(tmp, bytes) => {
            files.insert(tmp, bytes);
        }
        Step::Rename(from, to) => {
            let bytes = files.remove(&from).unwrap();
            files.insert(to, bytes);
        }
        _ => {}
    }
    worker.done();
}

#[test]
fn two_workers_leave_one_body_whole() {
    let budget = Arc::new(ByteBudget::new(100));
    let mut files: BTreeMap<String, Vec<u8>> = BTreeMap::new();
    let mut a = Worker::new();
    let mut b = Worker::new();
    a.receive(Some(job(&budget, "/data/x", b"first")));
    b.receive(Some(job(&budget, "/data/x", b"second body")));
    one(&mut a, &mut files);
    one(&mut b, &mut files);
    one(&mut a, &mut files);
    one(&mut b, &mut files);
    assert_eq!(files.get("/data/x"), None);
    one(&mut b, &mut files);
    assert_eq!(files.get("/data/x").unwrap(), b"second body");
    one(&mut a, &mut files);
    assert_eq!(files.get("/data/x").unwrap(), b"first");
    assert_eq!(files.len(), 1);
    assert_eq!(budget.used_bytes(), 0);
}
