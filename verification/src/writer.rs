//! Writing a posted body to disk: the file is written under a temporary name in the
//! directory of its target and then renamed, so that the target is never seen half
//! written. A [`Worker`] says what to do next; whoever runs it does that and says
//! how it went.

use bytes::Bytes;
use std::time::{Duration, SystemTime, SystemTimeError};
use vstd::prelude::*;
use vstd::string::*;

use crate::budget::ByteReservation;
use crate::outside;
use crate::path;
use crate::path::Part;
use crate::text;

verus! {

/// A body that is to be stored at `path`. Its bytes stay reserved as long as it lives.
pub struct WriteJob {
    pub path: String,
    pub bytes: Bytes,
    pub _byte_reservation: ByteReservation,
}

/// The number of random bytes in a temporary name.
pub const RANDOM_LEN: usize = 8;

/// The temporary name for `path` that is made of a time and some random bytes.
pub open spec fn tmp_text(path: Seq<char>, nanos: nat, random: Seq<u8>) -> Seq<char> {
    path + tmp_suffix(nanos, random)
}

pub open spec fn tmp_suffix(nanos: nat, random: Seq<u8>) -> Seq<char> {
    ".tmp."@ + text::decimal_text(nanos) + "."@ + text::hex_text(random)
}

/// Whether `tmp` is a temporary name for `path`.
pub open spec fn is_tmp(tmp: Seq<char>, path: Seq<char>) -> bool {
    exists|nanos: u128, random: Seq<u8>|
        random.len() == RANDOM_LEN && tmp == #[trigger] tmp_text(path, nanos as nat, random)
}

/// The temporary name for `path` that is made of a time and some random bytes.
pub fn tmp_path(path: &str, nanos: u128, random: &[u8]) -> (tmp: String)
    ensures
        tmp@ == tmp_text(path@, nanos as nat, random@),
{
    let mut tmp: String = path.to_owned();
    tmp.append(".tmp.");
    tmp.append(text::decimal(nanos).as_str());
    tmp.append(".");
    tmp.append(text::hex(random).as_str());
    assert(tmp@ == tmp_text(path@, nanos as nat, random@));
    tmp
}

/// Whether `random` is what chance gives to someone who asks for the random bytes of a
/// temporary name.
pub closed spec fn drawn(random: Seq<u8>) -> bool {
    exists|v: Vec<u8>| #[trigger] call_ensures(random_bytes, (), v) && v@ == random
}

/// Whether `nanos` is what the clock says to someone who asks for the time in nanoseconds
/// since the epoch. A clock that is set before the epoch says zero.
pub closed spec fn clock_says(nanos: u128) -> bool {
    exists|time: SystemTime, since: Result<Duration, SystemTimeError>| #[trigger]
        call_ensures(SystemTime::now, (), time) && #[trigger] call_ensures(
            outside::since_epoch,
            (&time,),
            since,
        ) && match since {
            Ok(duration) => call_ensures(Duration::as_nanos, (&duration,), nanos),
            Err(_) => nanos == 0,
        }
}

/// Whether `tmp` is a temporary name for `path` that is made of what the clock says and of
/// what chance gives.
pub open spec fn is_fresh(tmp: Seq<char>, path: Seq<char>) -> bool {
    exists|nanos: u128, random: Seq<u8>|
        clock_says(nanos) && drawn(random) && random.len() == RANDOM_LEN && tmp
            == #[trigger] tmp_text(path, nanos as nat, random)
}

/// Random bytes for a temporary name.
fn random_bytes() -> (random: Vec<u8>)
    ensures
        random@.len() == RANDOM_LEN,
        exists|dest: &mut Vec<u8>| #[trigger]
            call_ensures(outside::fill_random, (dest,), ()) && final(dest)@ == random@,
{
    let mut random: Vec<u8> = Vec::new();
    while random.len() < RANDOM_LEN
        invariant
            random@.len() <= RANDOM_LEN,
        decreases RANDOM_LEN - random@.len(),
    {
        random.push(0);
    }
    outside::fill_random(&mut random);
    random
}

/// The time in nanoseconds since the epoch, or zero if the clock is set before it.
fn nanos_now() -> (nanos: u128)
    ensures
        clock_says(nanos),
{
    let time: SystemTime = SystemTime::now();
    let since: Result<Duration, SystemTimeError> = outside::since_epoch(&time);
    assert(call_ensures(SystemTime::now, (), time));
    assert(call_ensures(outside::since_epoch, (&time,), since));
    match since {
        Ok(duration) => duration.as_nanos(),
        Err(_) => 0,
    }
}

/// A temporary name for `path`, made of the time and of random bytes.
pub fn fresh_tmp_path(path: &str) -> (tmp: String)
    ensures
        is_tmp(tmp@, path@),
        is_fresh(tmp@, path@),
{
    let random: Vec<u8> = random_bytes();
    let nanos: u128 = nanos_now();
    let tmp: String = tmp_path(path, nanos, random.as_slice());
    assert(call_ensures(random_bytes, (), random));
    assert(drawn(random@));
    assert(tmp@ == tmp_text(path@, nanos as nat, random@));
    tmp
}

/// What a worker is about.
pub enum Stage {
    /// It waits for a job.
    Idle,
    /// It makes the directory of the target.
    MakingDir { job: WriteJob, dir: String },
    /// It writes the body under the temporary name.
    Writing { job: WriteJob, tmp: String },
    /// It gives the file the name of the target.
    Renaming { job: WriteJob, tmp: String },
    /// There are no more jobs.
    Stopped,
}

/// What is to be done next.
pub enum Action<'a> {
    /// Wait for the next job, and hand it to [`Worker::receive`].
    Receive,
    /// Make this directory and those above it.
    CreateDir(&'a str),
    /// Write these bytes to the file of this name.
    WriteFile(&'a str, &'a Bytes),
    /// Rename the file of the first name to the second.
    Rename(&'a str, &'a str),
    /// Nothing: there are no more jobs.
    Stop,
}

/// One of those who carry out the jobs, one job at a time. It remembers which
/// directories it has made.
pub struct Worker {
    created_dirs: Vec<String>,
    stage: Stage,
}

/// Whether `stage` is what a worker turns to when it gets `job` and has made `dirs`.
pub open spec fn starts(dirs: Set<Seq<Part>>, job: WriteJob, stage: Stage) -> bool {
    if path::has_parent(job.path@) && !dirs.contains(
        path::components_of(job.path@).drop_last(),
    ) {
        stage matches Stage::MakingDir { job: j, dir } && j == job && path::is_parent(
            dir@,
            job.path@,
        )
    } else {
        starts_writing(job, stage)
    }
}

/// Whether `stage` is to write the body of `job` under a temporary name.
pub open spec fn starts_writing(job: WriteJob, stage: Stage) -> bool {
    stage matches Stage::Writing { job: j, tmp } && j == job && is_tmp(tmp@, job.path@)
        && is_fresh(tmp@, job.path@)
}

/// Whether `after` is what follows `before` when what was to be done is done.
pub open spec fn follows(before: Stage, after: Stage) -> bool {
    match before {
        Stage::MakingDir { job, dir } => starts_writing(job, after),
        Stage::Writing { job, tmp } => after == (Stage::Renaming { job, tmp }),
        Stage::Renaming { job, tmp } => after == Stage::Idle,
        Stage::Idle => after == before,
        Stage::Stopped => after == before,
    }
}

/// The directories that a worker remembers when what `stage` is about is done.
pub open spec fn remembered(dirs: Set<Seq<Part>>, stage: Stage) -> Set<Seq<Part>> {
    match stage {
        Stage::MakingDir { job, dir } => dirs.insert(path::components_of(dir@)),
        _ => dirs,
    }
}

/// Whether a worker has a job in hand.
pub open spec fn busy(stage: Stage) -> bool {
    stage is MakingDir || stage is Writing || stage is Renaming
}

/// What is being done, in words, if anything is.
pub open spec fn doing_text(stage: Stage) -> Option<Seq<char>> {
    match stage {
        Stage::MakingDir { job, dir } => Some("create_dir_all "@ + dir@),
        Stage::Writing { job, tmp } => Some("write "@ + tmp@),
        Stage::Renaming { job, tmp } => Some("rename "@ + tmp@ + " -> "@ + job.path@),
        Stage::Idle => None,
        Stage::Stopped => None,
    }
}

/// The target of the job in hand, if there is one.
pub open spec fn target(stage: Stage) -> Option<Seq<char>> {
    match stage {
        Stage::MakingDir { job, dir } => Some(job.path@),
        Stage::Writing { job, tmp } => Some(job.path@),
        Stage::Renaming { job, tmp } => Some(job.path@),
        Stage::Idle => None,
        Stage::Stopped => None,
    }
}

impl Worker {
    /// No directory is remembered twice.
    pub closed spec fn wf(&self) -> bool {
        forall|i: int, j: int|
            0 <= i < j < self.created_dirs@.len() ==> path::components_of(
                (#[trigger] self.created_dirs@[i])@,
            ) != path::components_of((#[trigger] self.created_dirs@[j])@)
    }

    /// The directories that this worker has made, by their components.
    pub closed spec fn dirs(&self) -> Set<Seq<Part>> {
        Set::new(
            |c: Seq<Part>|
                exists|i: int|
                    0 <= i < self.created_dirs@.len() && path::components_of(
                        (#[trigger] self.created_dirs@[i])@,
                    ) == c,
        )
    }

    /// What this worker is about.
    pub closed spec fn stage(&self) -> Stage {
        self.stage
    }

    /// A worker that has done nothing yet.
    pub fn new() -> (w: Worker)
        ensures
            w.wf(),
            w.dirs() == Set::<Seq<Part>>::empty(),
            w.stage() == Stage::Idle,
    {
        let w: Worker = Worker { created_dirs: Vec::new(), stage: Stage::Idle };
        assert(w.dirs() == Set::<Seq<Part>>::empty());
        w
    }

    /// Whether this worker has made `dir`.
    fn has_created(&self, dir: &str) -> (b: bool)
        ensures
            b == self.dirs().contains(path::components_of(dir@)),
    {
        let mut i: usize = 0;
        while i < self.created_dirs.len()
            invariant
                i <= self.created_dirs@.len(),
                forall|j: int|
                    0 <= j < i ==> path::components_of((#[trigger] self.created_dirs@[j])@)
                        != path::components_of(dir@),
            decreases self.created_dirs@.len() - i,
        {
            if path::same_path(self.created_dirs[i].as_str(), dir) {
                return true;
            }
            i = i + 1;
        }
        false
    }

    /// What is to be done next.
    pub fn action(&self) -> (a: Action<'_>)
        ensures
            match self.stage() {
                Stage::Idle => a is Receive,
                Stage::MakingDir { job, dir } => a matches Action::CreateDir(d) && d@ == dir@,
                Stage::Writing { job, tmp } => a matches Action::WriteFile(t, b) && t@ == tmp@
                    && *b == job.bytes,
                Stage::Renaming { job, tmp } => a matches Action::Rename(from, to) && from@ == tmp@
                    && to@ == job.path@,
                Stage::Stopped => a is Stop,
            },
    {
        match &self.stage {
            Stage::Idle => Action::Receive,
            Stage::MakingDir { job, dir } => Action::CreateDir(dir.as_str()),
            Stage::Writing { job, tmp } => Action::WriteFile(tmp.as_str(), &job.bytes),
            Stage::Renaming { job, tmp } => Action::Rename(tmp.as_str(), job.path.as_str()),
            Stage::Stopped => Action::Stop,
        }
    }

    /// Takes the next job, or learns that there is none.
    pub fn receive(&mut self, job: Option<WriteJob>)
        requires
            old(self).wf(),
            old(self).stage() == Stage::Idle,
        ensures
            final(self).wf(),
            final(self).dirs() == old(self).dirs(),
            match job {
                Some(j) => starts(old(self).dirs(), j, final(self).stage()),
                None => final(self).stage() == Stage::Stopped,
            },
    {
        match job {
            None => {
                self.stage = Stage::Stopped;
            },
            Some(job) => {
                let dir: Option<String> = path::parent(job.path.as_str());
                match dir {
                    Some(dir) => {
                        if self.has_created(dir.as_str()) {
                            let tmp: String = fresh_tmp_path(job.path.as_str());
                            self.stage = Stage::Writing { job, tmp };
                        } else {
                            self.stage = Stage::MakingDir { job, dir };
                        }
                    },
                    None => {
                        let tmp: String = fresh_tmp_path(job.path.as_str());
                        self.stage = Stage::Writing { job, tmp };
                    },
                }
            },
        }
    }

    /// Goes on after what was to be done is done.
    pub fn done(&mut self)
        requires
            old(self).wf(),
        ensures
            final(self).wf(),
            follows(old(self).stage(), final(self).stage()),
            final(self).dirs() == (match old(self).stage() {
                Stage::MakingDir { job, dir } => old(self).dirs().insert(
                    path::components_of(dir@),
                ),
                _ => old(self).dirs(),
            }),
            final(self).dirs() == remembered(old(self).dirs(), old(self).stage()),
    {
        let mut stage: Stage = Stage::Idle;
        std::mem::swap(&mut self.stage, &mut stage);
        match stage {
            Stage::MakingDir { job, dir } => {
                let tmp: String = fresh_tmp_path(job.path.as_str());
                let ghost before = self.created_dirs@;
                if !self.has_created(dir.as_str()) {
                    self.created_dirs.push(dir);
                    proof {
                        let now = self.created_dirs@;
                        assert(now[before.len() as int] == dir);
                        assert(forall|i: int| 0 <= i < before.len() ==> now[i] == before[i]);
                        assert forall|c: Seq<Part>|
                            old(self).dirs().insert(path::components_of(dir@)).contains(
                                c,
                            ) implies self.dirs().contains(c) by {
                            if old(self).dirs().contains(c) {
                                let i = choose|i: int|
                                    0 <= i < before.len() && path::components_of(
                                        (#[trigger] before[i])@,
                                    ) == c;
                                assert(path::components_of(now[i]@) == c);
                            }
                        }
                    }
                }
                assert(self.dirs() == old(self).dirs().insert(path::components_of(dir@)));
                self.stage = Stage::Writing { job, tmp };
            },
            Stage::Writing { job, tmp } => {
                self.stage = Stage::Renaming { job, tmp };
            },
            Stage::Renaming { job, tmp } => {},
            Stage::Idle => {},
            Stage::Stopped => {
                self.stage = Stage::Stopped;
            },
        }
    }

    /// Gives up the job after what was to be done has failed.
    pub fn failed(&mut self)
        requires
            old(self).wf(),
        ensures
            final(self).wf(),
            final(self).dirs() == old(self).dirs(),
            final(self).stage() == (if busy(old(self).stage()) {
                Stage::Idle
            } else {
                old(self).stage()
            }),
    {
        match &self.stage {
            Stage::Idle => {},
            Stage::Stopped => {},
            _ => {
                self.stage = Stage::Idle;
            },
        }
    }

    /// What is being done, in words, to say so if it fails.
    pub fn doing(&self) -> (r: Option<String>)
        ensures
            match r {
                Some(s) => doing_text(self.stage()) == Some(s@),
                None => doing_text(self.stage()) is None,
            },
    {
        let mut s: String = String::new();
        match &self.stage {
            Stage::MakingDir { job, dir } => {
                s.append("create_dir_all ");
                s.append(dir.as_str());
                assert(s@ == "create_dir_all "@ + dir@);
            },
            Stage::Writing { job, tmp } => {
                s.append("write ");
                s.append(tmp.as_str());
                assert(s@ == "write "@ + tmp@);
            },
            Stage::Renaming { job, tmp } => {
                s.append("rename ");
                s.append(tmp.as_str());
                s.append(" -> ");
                s.append(job.path.as_str());
                assert(s@ == "rename "@ + tmp@ + " -> "@ + job.path@);
            },
            _ => {
                return None;
            },
        }
        Some(s)
    }

    /// Where the job in hand is to be stored, if there is one.
    pub fn job_path(&self) -> (r: Option<&str>)
        ensures
            match r {
                Some(s) => target(self.stage()) == Some(s@),
                None => target(self.stage()) is None,
            },
    {
        match &self.stage {
            Stage::MakingDir { job, dir } => Some(job.path.as_str()),
            Stage::Writing { job, tmp } => Some(job.path.as_str()),
            Stage::Renaming { job, tmp } => Some(job.path.as_str()),
            _ => None,
        }
    }
}

/// The temporary name that a worker takes up is the target's, then `.tmp.`, the time that
/// the clock says in decimal, a dot, and as many random bytes as there are to be, as chance
/// gives them, in hexadecimal.
pub proof fn fresh_names_are_of_clock_and_chance(path: &str, tmp: String)
    requires
        call_ensures(fresh_tmp_path, (path,), tmp),
    ensures
        exists|nanos: u128, random: Seq<u8>, digits: Seq<char>, hex: Seq<char>|
            #![trigger tmp_text(path@, nanos as nat, random), text::worth(digits), hex.len()]
            clock_says(nanos) && drawn(random) && random.len() == RANDOM_LEN && text::worth(digits)
                == nanos && text::all_digits(digits) && hex.len() == 2 * random.len() && (forall|
                i: int,
            |
                0 <= i < random.len() ==> #[trigger] random[i] == 16 * text::hex_worth(hex[2 * i])
                    + text::hex_worth(hex[2 * i + 1])) && tmp@ == path@ + ".tmp."@ + digits + "."@
                + hex,
{
    let (nanos, random) = choose|nanos: u128, random: Seq<u8>|
        clock_says(nanos) && drawn(random) && random.len() == RANDOM_LEN && tmp@
            == #[trigger] tmp_text(path@, nanos as nat, random);
    text::lemma_decimal_worth(nanos as nat);
    let digits = text::decimal_text(nanos as nat);
    let hex = text::hex_text(random);
    assert forall|i: int| 0 <= i < random.len() implies #[trigger] random[i] == 16
        * text::hex_worth(hex[2 * i]) + text::hex_worth(hex[2 * i + 1]) by {
        assert(hex[2 * i] == text::hex_char(random[i] as int / 16));
        assert(hex[2 * i + 1] == text::hex_char(random[i] as int % 16));
    }
    assert(text::worth(digits) == nanos);
    assert(hex.len() == 2 * random.len());
    assert(tmp@ == path@ + ".tmp."@ + digits + "."@ + hex);
}

/// A worker has a job in hand exactly if it is about something that can fail, and then its
/// target is the path of that job; what it says of it names what it is about.
pub proof fn worker_says_what_it_is_about(w: &Worker, doing: Option<String>, at: Option<&str>)
    requires
        call_ensures(Worker::doing, (w,), doing),
        call_ensures(Worker::job_path, (w,), at),
    ensures
        match w.stage() {
            Stage::MakingDir { job, dir } => {
                &&& busy(w.stage())
                &&& at matches Some(s) && s@ == job.path@
                &&& doing matches Some(s) && s@ == "create_dir_all "@ + dir@
            },
            Stage::Writing { job, tmp } => {
                &&& busy(w.stage())
                &&& at matches Some(s) && s@ == job.path@
                &&& doing matches Some(s) && s@ == "write "@ + tmp@
            },
            Stage::Renaming { job, tmp } => {
                &&& busy(w.stage())
                &&& at matches Some(s) && s@ == job.path@
                &&& doing matches Some(s) && s@ == "rename "@ + tmp@ + " -> "@ + job.path@
            },
            Stage::Idle => !busy(w.stage()) && at is None && doing is None,
            Stage::Stopped => !busy(w.stage()) && at is None && doing is None,
        },
{
}

/// What chance gives was got by asking for it, and so was what the clock says.
proof fn clock_and_chance_are_asked(nanos: u128, random: Seq<u8>)
    requires
        clock_says(nanos),
        drawn(random),
    ensures
        exists|v: Vec<u8>| #[trigger] call_ensures(random_bytes, (), v) && v@ == random,
        random.len() == RANDOM_LEN,
        nanos > 0 ==> exists|duration: Duration| #[trigger]
            call_ensures(Duration::as_nanos, (&duration,), nanos),
{
}

/// A directory that is remembered is not made again, and one that is not is made before
/// anything is written, whatever the target is.
pub proof fn directories_are_made_once(dirs: Set<Seq<Part>>, job: WriteJob, stage: Stage)
    requires
        path::has_parent(job.path@),
        starts(dirs, job, stage),
    ensures
        stage is Writing <==> dirs.contains(path::components_of(job.path@).drop_last()),
        stage is MakingDir <==> !dirs.contains(path::components_of(job.path@).drop_last()),
        stage matches Stage::MakingDir { job: j, dir } ==> j == job && path::components_of(dir@)
            == path::components_of(job.path@).drop_last() && dir@.is_prefix_of(job.path@),
        stage matches Stage::Writing { job: j, tmp } ==> j == job,
{
}

/// A worker that waits and gets a job turns to that job, whatever it is: it makes the
/// directory of the target, or writes the body under a fresh temporary name. It forgets no
/// directory. Without a job it stops.
pub proof fn worker_turns_to_its_job(w: &mut Worker, job: Option<WriteJob>)
    requires
        old(w).wf(),
        old(w).stage() == Stage::Idle,
        call_ensures(Worker::receive, (w, job), ()),
    ensures
        final(w).wf(),
        final(w).dirs() == old(w).dirs(),
        job is None ==> final(w).stage() == Stage::Stopped,
        job matches Some(j) ==> match final(w).stage() {
            Stage::MakingDir { job: in_hand, dir } => {
                &&& in_hand == j
                &&& path::components_of(dir@) == path::components_of(j.path@).drop_last()
                &&& !old(w).dirs().contains(path::components_of(dir@))
            },
            Stage::Writing { job: in_hand, tmp } => {
                &&& in_hand == j
                &&& is_tmp(tmp@, j.path@)
                &&& is_fresh(tmp@, j.path@)
            },
            _ => false,
        },
{
}

/// A worker that has made the directory of a target remembers it and writes the body of
/// the same job under a fresh temporary name, one that has written a body renames that file
/// to the target, and one that has renamed it waits for the next job.
pub proof fn worker_writes_and_then_renames(w: &mut Worker)
    requires
        old(w).wf(),
        call_ensures(Worker::done, (w,), ()),
    ensures
        final(w).wf(),
        match old(w).stage() {
            Stage::MakingDir { job, dir } => {
                &&& final(w).dirs() == old(w).dirs().insert(path::components_of(dir@))
                &&& final(w).stage() matches Stage::Writing { job: in_hand, tmp } && in_hand == job
                    && is_tmp(tmp@, job.path@) && is_fresh(tmp@, job.path@)
            },
            Stage::Writing { job, tmp } => {
                &&& final(w).dirs() == old(w).dirs()
                &&& final(w).stage() matches Stage::Renaming { job: in_hand, tmp: t } && in_hand
                    == job && t == tmp
            },
            Stage::Renaming { job, tmp } => {
                &&& final(w).dirs() == old(w).dirs()
                &&& final(w).stage() == Stage::Idle
            },
            _ => final(w).dirs() == old(w).dirs() && final(w).stage() == old(w).stage(),
        },
{
}

/// A worker gives up a job of which anything fails, and waits for the next; it forgets no
/// directory.
pub proof fn worker_goes_on_after_a_failure(w: &mut Worker)
    requires
        old(w).wf(),
        call_ensures(Worker::failed, (w,), ()),
    ensures
        final(w).wf(),
        final(w).dirs() == old(w).dirs(),
        old(w).stage() is Stopped <==> final(w).stage() is Stopped,
        !(old(w).stage() is Stopped) ==> final(w).stage() == Stage::Idle,
{
}

/// What a worker asks for is what it is about: the directory it is to make, the bytes of
/// the body under the temporary name, or the temporary name and the target.
pub proof fn action_is_what_the_worker_is_about(w: &Worker, a: Action<'_>)
    requires
        call_ensures(Worker::action, (w,), a),
    ensures
        match a {
            Action::Receive => w.stage() is Idle,
            Action::CreateDir(d) => w.stage() matches Stage::MakingDir { job, dir } && d@ == dir@,
            Action::WriteFile(t, b) => w.stage() matches Stage::Writing { job, tmp } && t@ == tmp@
                && *b == job.bytes,
            Action::Rename(from, to) => w.stage() matches Stage::Renaming { job, tmp } && from@
                == tmp@ && to@ == job.path@,
            Action::Stop => w.stage() is Stopped,
        },
{
}

} // verus!
