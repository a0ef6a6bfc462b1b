//! What the steps of a [`crate::writer::Worker`] do to the files on disk, and what
//! follows of them: a body that was posted is stored as it is, and until it is, its
//! target stays as it was.

use axum::http::header::HeaderMap;
use bytes::Bytes;
use vstd::prelude::*;

use crate::outside;
use crate::outside::Sent;
use crate::path;
use crate::path::{Part, PathError};
use crate::routes;
use crate::routes::{Admission, AppState, Refusal, Reply};
use crate::text;
use crate::writer;
use crate::writer::{Stage, Worker, WriteJob};

verus! {

/// The files there are, by the components of their paths, and what each holds.
pub struct Disk {
    pub files: Map<Seq<Part>, Seq<u8>>,
}

/// The disk after what `stage` is about has been done.
pub open spec fn performed(disk: Disk, stage: Stage) -> Disk {
    match stage {
        Stage::Writing { job, tmp } => Disk {
            files: disk.files.insert(
                path::components_of(tmp@),
                outside::body_bytes(job.bytes),
            ),
        },
        Stage::Renaming { job, tmp } => {
            let from = path::components_of(tmp@);
            if disk.files.dom().contains(from) {
                Disk {
                    files: disk.files.remove(from).insert(
                        path::components_of(job.path@),
                        disk.files[from],
                    ),
                }
            } else {
                disk
            }
        },
        _ => disk,
    }
}

/// Whether `a` and `b` agree on the file at `place`: what it holds, or that there is
/// none.
pub open spec fn same_at(a: Disk, b: Disk, place: Seq<Part>) -> bool {
    &&& a.files.dom().contains(place) <==> b.files.dom().contains(place)
    &&& a.files.dom().contains(place) ==> a.files[place] == b.files[place]
}

/// Whether `after` can be left of `disk` when what `stage` is about has failed. A
/// write that fails can leave anything under its own name.
pub open spec fn may_leave(disk: Disk, stage: Stage, after: Disk) -> bool {
    match stage {
        Stage::Writing { job, tmp } => forall|place: Seq<Part>|
            place != path::components_of(tmp@) ==> #[trigger] same_at(disk, after, place),
        _ => after == disk,
    }
}

/// The disk after what each of `stages` is about has been done in turn.
pub open spec fn performed_all(disk: Disk, stages: Seq<Stage>) -> Disk
    decreases stages.len(),
{
    if stages.len() == 0 {
        disk
    } else {
        performed(performed_all(disk, stages.drop_last()), stages.last())
    }
}

/// Whether a worker that has made `dirs` goes through `stages` with `job` when all
/// goes well.
pub open spec fn is_run(dirs: Set<Seq<Part>>, job: WriteJob, stages: Seq<Stage>) -> bool {
    &&& stages.len() > 0
    &&& writer::starts(dirs, job, stages[0])
    &&& forall|k: int|
        0 <= k < stages.len() - 1 ==> writer::busy(#[trigger] stages[k]) && writer::follows(
            stages[k],
            stages[k + 1],
        )
    &&& stages.last() == Stage::Idle
}

/// The temporary name under which `stages` write.
pub open spec fn tmp_of(stages: Seq<Stage>) -> Seq<char>
    decreases stages.len(),
{
    if stages.len() == 0 {
        seq![]
    } else {
        match stages.last() {
            Stage::Writing { job, tmp } => tmp@,
            _ => tmp_of(stages.drop_last()),
        }
    }
}

/// A job that goes well is stored: its target holds the bytes that were posted, its
/// temporary file is gone, and no other file has changed.
pub proof fn stored_as_posted(
    disk: Disk,
    dirs: Set<Seq<Part>>,
    job: WriteJob,
    stages: Seq<Stage>,
)
    requires
        is_run(dirs, job, stages),
    ensures
        performed_all(disk, stages).files == disk.files.remove(
            path::components_of(tmp_of(stages)),
        ).insert(path::components_of(job.path@), outside::body_bytes(job.bytes)),
        writer::is_tmp(tmp_of(stages), job.path@),
        stages.len() <= 4,
{
    let first = if stages[0] is MakingDir {
        1int
    } else {
        0
    };
    assert(stages.len() > 1);
    if first == 1 {
        assert(writer::follows(stages[0], stages[1]));
        assert(stages.len() > 2);
    }
    assert(writer::starts_writing(job, stages[first]));
    let tmp = stages[first]->Writing_tmp;
    lemma_tmp_is_elsewhere(tmp@, job.path@);
    assert(writer::follows(stages[first], stages[first + 1]));
    assert(stages[first + 1] == (Stage::Renaming { job, tmp }));
    assert(stages.len() > first + 2);
    assert(writer::follows(stages[first + 1], stages[first + 2]));
    assert(stages.len() == first + 3);
    reveal_with_fuel(performed_all, 5);
    reveal_with_fuel(tmp_of, 5);
    let upto2 = stages.drop_last();
    let upto1 = upto2.drop_last();
    let upto0 = upto1.drop_last();
    assert(upto2.last() == stages[first + 1]);
    assert(upto1.last() == stages[first]);
    assert(tmp_of(stages) == tmp@);
    if first == 1 {
        assert(upto0.last() == stages[0]);
        assert(upto0.drop_last().len() == 0);
    }
    assert(performed_all(disk, upto0) == disk);
    assert(performed_all(disk, upto1) == performed(disk, stages[first]));
    let from = path::components_of(tmp@);
    let to = path::components_of(job.path@);
    let bytes = outside::body_bytes(job.bytes);
    assert(disk.files.insert(from, bytes).remove(from).insert(to, bytes) == disk.files.remove(
        from,
    ).insert(to, bytes));
}

/// Whatever is done or fails short of the renaming, the target stays as it was; and
/// so it does when the renaming fails. So it is never there half written.
pub proof fn target_stays_until_renamed(disk: Disk, stage: Stage, after: Disk)
    requires
        stage matches Stage::Writing { job, tmp } ==> writer::is_tmp(tmp@, job.path@),
        may_leave(disk, stage, after) || (after == performed(disk, stage) && !(stage is Renaming)),
        writer::target(stage) is Some,
    ensures
        same_at(disk, after, path::components_of(writer::target(stage)->Some_0)),
{
    if let Stage::Writing { job, tmp } = stage {
        lemma_tmp_is_elsewhere(tmp@, job.path@);
    }
}

/// A file that is posted under a path is what is read under that path: bytes in,
/// identical bytes out.
pub proof fn read_gives_what_was_posted(
    disk: Disk,
    dirs: Set<Seq<Part>>,
    root: Seq<char>,
    user_path: Seq<char>,
    job: WriteJob,
    stages: Seq<Stage>,
)
    requires
        path::resolved(root, user_path) == Ok::<Seq<char>, PathError>(job.path@),
        is_run(dirs, job, stages),
    ensures
        ({
            let place = path::components_of(path::resolved(root, user_path)->Ok_0);
            let files = performed_all(disk, stages).files;
            files.dom().contains(place) && files[place] == outside::body_bytes(job.bytes)
        }),
{
    stored_as_posted(disk, dirs, job, stages);
}

/// The directories there are, by their components, and the files.
pub struct Tree {
    pub dirs: Set<Seq<Part>>,
    pub disk: Disk,
}

/// Whether what `stage` is about can be done: a file can be written or renamed only into a
/// directory that is there, and only a file that is there can be renamed.
pub open spec fn possible(tree: Tree, stage: Stage) -> bool {
    match stage {
        Stage::Writing { job, tmp } => {
            let place = path::components_of(tmp@);
            place.len() > 0 && tree.dirs.contains(place.drop_last())
        },
        Stage::Renaming { job, tmp } => {
            let place = path::components_of(job.path@);
            &&& tree.disk.files.dom().contains(path::components_of(tmp@))
            &&& place.len() > 0 && tree.dirs.contains(place.drop_last())
        },
        _ => true,
    }
}

/// The tree after what `stage` is about has been tried. To make a directory makes those
/// above it as well; what is not possible changes nothing.
pub open spec fn tried(tree: Tree, stage: Stage) -> Tree {
    match stage {
        Stage::MakingDir { job, dir } => Tree {
            dirs: tree.dirs.union(
                Set::new(|d: Seq<Part>| d.is_prefix_of(path::components_of(dir@))),
            ),
            ..tree
        },
        _ => if possible(tree, stage) {
            Tree { disk: performed(tree.disk, stage), ..tree }
        } else {
            tree
        },
    }
}

/// The tree after what each of `stages` is about has been tried in turn.
pub open spec fn tried_all(tree: Tree, stages: Seq<Stage>) -> Tree
    decreases stages.len(),
{
    if stages.len() == 0 {
        tree
    } else {
        tried(tried_all(tree, stages.drop_last()), stages.last())
    }
}

/// Whether each of `stages` is possible when its turn comes.
pub open spec fn all_possible(tree: Tree, stages: Seq<Stage>) -> bool
    decreases stages.len(),
{
    stages.len() == 0 || (all_possible(tree, stages.drop_last()) && possible(
        tried_all(tree, stages.drop_last()),
        stages.last(),
    ))
}

/// Whether all the directories that a worker remembers are there.
pub open spec fn remembers_truly(tree: Tree, dirs: Set<Seq<Part>>) -> bool {
    forall|d: Seq<Part>| #[trigger] dirs.contains(d) ==> tree.dirs.contains(d)
}

/// When a worker turns to writing, the directory that is to hold the file is there: either
/// it remembers it, or it has just made it. So it is whatever the target is, if that ends
/// with a name.
pub proof fn directory_is_there_to_write_into(
    tree: Tree,
    dirs: Set<Seq<Part>>,
    job: WriteJob,
    first: Stage,
    second: Stage,
)
    requires
        remembers_truly(tree, dirs),
        path::is_name(path::pieces(job.path@).last()),
        writer::starts(dirs, job, first),
        first is Writing || writer::follows(first, second),
    ensures
        first is Writing ==> possible(tree, first),
        first is Writing || first is MakingDir,
        !(first is Writing) ==> second is Writing && possible(tried(tree, first), second),
{
    lemma_named_target(job.path@);
    let parent = path::components_of(job.path@).drop_last();
    let writing = if first is Writing {
        first
    } else {
        second
    };
    let tmp = writing->Writing_tmp;
    tmp_is_beside_its_target(tmp@, job.path@);
    if first is MakingDir {
        assert(parent.is_prefix_of(parent)) by {
            assert(parent.take(parent.len() as int) == parent);
        }
    }
}

/// A worker that remembers truly and gets a job whose target ends with a name turns to
/// writing only if the directory of the target is there, however deep that is.
pub proof fn worker_writes_only_into_directories(tree: Tree, w: &mut Worker, job: WriteJob)
    requires
        old(w).wf(),
        old(w).stage() == Stage::Idle,
        remembers_truly(tree, old(w).dirs()),
        path::is_name(path::pieces(job.path@).last()),
        call_ensures(Worker::receive, (w, Some(job)), ()),
    ensures
        remembers_truly(tree, final(w).dirs()),
        final(w).stage() is Writing ==> possible(tree, final(w).stage()) && tree.dirs.contains(
            path::components_of(job.path@).drop_last(),
        ),
        final(w).stage() is Writing || final(w).stage() is MakingDir,
        final(w).stage() is MakingDir ==> tried(tree, final(w).stage()).dirs.contains(
            path::components_of(job.path@).drop_last(),
        ),
{
    lemma_named_target(job.path@);
    let parent = path::components_of(job.path@).drop_last();
    assert(parent.is_prefix_of(parent)) by {
        assert(parent.take(parent.len() as int) == parent);
    }
    if let Stage::Writing { job: j, tmp } = final(w).stage() {
        tmp_is_beside_its_target(tmp@, job.path@);
    }
}

/// What a worker remembers stays true: it remembers a directory only once it has been made,
/// and whatever is tried, no directory goes away.
pub proof fn remembered_directories_are_there(tree: Tree, dirs: Set<Seq<Part>>, stage: Stage)
    requires
        remembers_truly(tree, dirs),
    ensures
        remembers_truly(tried(tree, stage), writer::remembered(dirs, stage)),
        remembers_truly(tried(tree, stage), dirs),
        tree.dirs.subset_of(tried(tree, stage).dirs),
{
    if let Stage::MakingDir { job, dir } = stage {
        let c = path::components_of(dir@);
        assert(c.is_prefix_of(c)) by {
            assert(c.take(c.len() as int) == c);
        }
    }
}

/// A job whose target ends with a name is stored by a worker that remembers truly, however
/// deep the target is and whether its directory was there or not: each step is possible
/// when its turn comes, and then the target holds the bytes that were posted, its
/// directory is there, the temporary file is gone and no other file has changed.
pub proof fn every_job_can_be_stored(
    tree: Tree,
    dirs: Set<Seq<Part>>,
    job: WriteJob,
    stages: Seq<Stage>,
)
    requires
        remembers_truly(tree, dirs),
        path::is_name(path::pieces(job.path@).last()),
        is_run(dirs, job, stages),
    ensures
        all_possible(tree, stages),
        tried_all(tree, stages).disk.files == tree.disk.files.remove(
            path::components_of(tmp_of(stages)),
        ).insert(path::components_of(job.path@), outside::body_bytes(job.bytes)),
        tried_all(tree, stages).dirs.contains(path::components_of(job.path@).drop_last()),
        tree.dirs.subset_of(tried_all(tree, stages).dirs),
        writer::is_tmp(tmp_of(stages), job.path@),
{
    lemma_named_target(job.path@);
    let first = if stages[0] is MakingDir {
        1int
    } else {
        0
    };
    assert(stages.len() > 1);
    if first == 1 {
        assert(writer::follows(stages[0], stages[1]));
        assert(stages.len() > 2);
    }
    directory_is_there_to_write_into(tree, dirs, job, stages[0], stages[first]);
    assert(writer::starts_writing(job, stages[first]));
    let tmp = stages[first]->Writing_tmp;
    lemma_tmp_is_elsewhere(tmp@, job.path@);
    tmp_is_beside_its_target(tmp@, job.path@);
    assert(writer::follows(stages[first], stages[first + 1]));
    assert(stages[first + 1] == (Stage::Renaming { job, tmp }));
    assert(stages.len() > first + 2);
    assert(writer::follows(stages[first + 1], stages[first + 2]));
    assert(stages.len() == first + 3);
    reveal_with_fuel(tried_all, 5);
    reveal_with_fuel(all_possible, 5);
    reveal_with_fuel(tmp_of, 5);
    let upto2 = stages.drop_last();
    let upto1 = upto2.drop_last();
    let upto0 = upto1.drop_last();
    assert(upto2.last() == stages[first + 1]);
    assert(upto1.last() == stages[first]);
    assert(tmp_of(stages) == tmp@);
    let ready = if first == 1 {
        tried(tree, stages[0])
    } else {
        tree
    };
    if first == 1 {
        assert(upto0.last() == stages[0]);
        assert(upto0.drop_last().len() == 0);
        remembered_directories_are_there(tree, dirs, stages[0]);
    }
    assert(tried_all(tree, upto0) == ready);
    assert(all_possible(tree, upto0));
    assert(possible(ready, stages[first]));
    let written = tried(ready, stages[first]);
    assert(tried_all(tree, upto1) == written);
    assert(possible(written, stages[first + 1]));
    let from = path::components_of(tmp@);
    let to = path::components_of(job.path@);
    let bytes = outside::body_bytes(job.bytes);
    assert(ready.disk == tree.disk);
    assert(tree.disk.files.insert(from, bytes).remove(from).insert(to, bytes)
        == tree.disk.files.remove(from).insert(to, bytes));
}

/// A target that ends with a name has a parent, and the name is its last component.
proof fn lemma_named_target(target: Seq<char>)
    requires
        path::is_name(path::pieces(target).last()),
    ensures
        path::has_parent(target),
        path::components_of(target).len() > 0,
        path::components_of(target).last() == Part::Normal(path::pieces(target).last()),
        path::part(path::pieces(target).last()).len() > 0,
{
    let last = path::pieces(target).last();
    path::pieces_make_up_the_text(target);
    assert(last != seq!['.'] && last != seq!['.', '.']) by {
        assert(seq!['.'].len() == 1 && seq!['.'][0] == '.');
        assert(seq!['.', '.'].len() == 2 && seq!['.', '.'][0] == '.' && seq!['.', '.'][1] == '.');
    }
    assert(path::part(last) == seq![Part::Normal(last)]);
}

/// Bytes in, identical bytes out: what is read under a path is the body that was posted
/// under it, if that path ends with a name, once the worker that got the job has carried it
/// out.
pub proof fn posted_body_is_read_back(
    state: &AppState,
    user_path: &str,
    headers: &HeaderMap,
    admission: Admission,
    body: Bytes,
    reply: Reply,
    sent: Sent<WriteJob>,
    tree: Tree,
    dirs: Set<Seq<Part>>,
    stages: Seq<Stage>,
    read: Result<String, Refusal>,
)
    requires
        call_ensures(routes::begin_post, (state, user_path, headers), Ok(admission)),
        call_ensures(routes::finish_post, (admission, body), Ok((reply, sent))),
        path::is_name(path::pieces(admission.path@).last()),
        remembers_truly(tree, dirs),
        is_run(dirs, sent.value(), stages),
        call_ensures(routes::begin_get, (state, user_path), read),
    ensures
        reply.status == 202,
        read matches Ok(target) && {
            let files = tried_all(tree, stages).disk.files;
            let place = path::components_of(target@);
            files.dom().contains(place) && files[place] == outside::body_bytes(body)
        },
{
    routes::body_is_taken_in(admission, body, Ok((reply, sent)));
    routes::get_is_about_the_posted_path(state, user_path, read);
    every_job_can_be_stored(tree, dirs, sent.value(), stages);
}

/// The files and what each of the workers is about.
pub struct Store {
    pub disk: Disk,
    pub stages: Seq<Stage>,
}

/// Where the temporary file of a stage is, if it has one.
pub open spec fn tmp_place(stage: Stage) -> Option<Seq<Part>> {
    match stage {
        Stage::Writing { job, tmp } => Some(path::components_of(tmp@)),
        Stage::Renaming { job, tmp } => Some(path::components_of(tmp@)),
        _ => None,
    }
}

/// The job that a stage is about, if any.
pub open spec fn job_of(stage: Stage) -> Option<WriteJob> {
    match stage {
        Stage::MakingDir { job, dir } => Some(job),
        Stage::Writing { job, tmp } => Some(job),
        Stage::Renaming { job, tmp } => Some(job),
        _ => None,
    }
}

/// Whether `place` is where one of `jobs` goes.
pub open spec fn is_target(jobs: Set<WriteJob>, place: Seq<Part>) -> bool {
    exists|job: WriteJob| #[trigger]
        jobs.contains(job) && path::components_of(job.path@) == place
}

/// Whether worker `k` alone takes `before` to `after`, in one step: it gets one of
/// `jobs` or stops, or what it is about is done, or fails. A temporary name that it
/// takes up is nobody else's, and none of the jobs goes there.
pub open spec fn steps(before: Store, after: Store, k: int, jobs: Set<WriteJob>) -> bool {
    let was = before.stages[k];
    let now = after.stages[k];
    &&& 0 <= k < before.stages.len()
    &&& after.stages == before.stages.update(k, now)
    &&& {
        ||| {
            &&& was == Stage::Idle
            &&& after.disk == before.disk
            &&& now == Stage::Stopped || exists|dirs: Set<Seq<Part>>, job: WriteJob|
                #![trigger writer::starts(dirs, job, now)]
                jobs.contains(job) && writer::starts(dirs, job, now)
        }
        ||| {
            &&& writer::busy(was)
            &&& after.disk == performed(before.disk, was)
            &&& writer::follows(was, now)
        }
        ||| {
            &&& writer::busy(was)
            &&& may_leave(before.disk, was, after.disk)
            &&& now == Stage::Idle
        }
    }
    &&& tmp_place(was) is None && tmp_place(now) is Some ==> {
        &&& !is_target(jobs, tmp_place(now)->Some_0)
        &&& forall|j: int|
            0 <= j < before.stages.len() && j != k ==> tmp_place(#[trigger] before.stages[j])
                != tmp_place(now)
    }
}

/// Whether one of the workers takes the `i`th state of `history` to the next.
pub open spec fn goes_on(history: Seq<Store>, i: int, jobs: Set<WriteJob>) -> bool {
    exists|k: int| #[trigger] steps(history[i], history[i + 1], k, jobs)
}

/// Whether the file at `place` is as it was in `first`, or holds all of the body of one
/// of `jobs` that goes there, and nothing else.
pub open spec fn whole(first: Disk, now: Disk, place: Seq<Part>, jobs: Set<WriteJob>) -> bool {
    ||| same_at(first, now, place)
    ||| exists|job: WriteJob| #[trigger]
        jobs.contains(job) && path::components_of(job.path@) == place
            && now.files.dom().contains(place) && now.files[place] == outside::body_bytes(
            job.bytes,
        )
}

/// Whatever the workers do, in whatever order, and whatever of it fails: the file at
/// the target of a job is as it was before, or holds the whole body of a job that goes
/// there.
pub proof fn targets_are_always_whole(
    history: Seq<Store>,
    jobs: Set<WriteJob>,
    place: Seq<Part>,
)
    requires
        history.len() > 0,
        forall|k: int|
            0 <= k < history[0].stages.len() ==> #[trigger] history[0].stages[k] == Stage::Idle,
        forall|i: int| 0 <= i < history.len() - 1 ==> #[trigger] goes_on(history, i, jobs),
        is_target(jobs, place),
    ensures
        whole(history[0].disk, history.last().disk, place, jobs),
{
    lemma_history_sound(history, jobs);
}

/// What holds of the workers and the files at all times.
spec fn sound(first: Disk, s: Store, jobs: Set<WriteJob>) -> bool {
    &&& forall|k: int|
        0 <= k < s.stages.len() && job_of(#[trigger] s.stages[k]) is Some ==> jobs.contains(
            job_of(s.stages[k])->Some_0,
        )
    &&& forall|k: int|
        0 <= k < s.stages.len() && tmp_place(#[trigger] s.stages[k]) is Some ==> !is_target(
            jobs,
            tmp_place(s.stages[k])->Some_0,
        )
    &&& forall|j: int, k: int|
        0 <= j < s.stages.len() && 0 <= k < s.stages.len() && j != k && tmp_place(
            #[trigger] s.stages[j],
        ) is Some ==> tmp_place(s.stages[j]) != tmp_place(#[trigger] s.stages[k])
    &&& forall|k: int|
        0 <= k < s.stages.len() ==> (#[trigger] s.stages[k] matches Stage::Renaming { job, tmp } ==> {
            &&& s.disk.files.dom().contains(path::components_of(tmp@))
            &&& s.disk.files[path::components_of(tmp@)] == outside::body_bytes(job.bytes)
        })
    &&& forall|place: Seq<Part>|
        is_target(jobs, place) ==> #[trigger] whole(first, s.disk, place, jobs)
}

proof fn lemma_history_sound(history: Seq<Store>, jobs: Set<WriteJob>)
    requires
        history.len() > 0,
        forall|k: int|
            0 <= k < history[0].stages.len() ==> #[trigger] history[0].stages[k] == Stage::Idle,
        forall|i: int| 0 <= i < history.len() - 1 ==> #[trigger] goes_on(history, i, jobs),
    ensures
        sound(history[0].disk, history.last(), jobs),
    decreases history.len(),
{
    if history.len() > 1 {
        let before = history.drop_last();
        assert forall|i: int| 0 <= i < before.len() - 1 implies #[trigger] goes_on(
            before,
            i,
            jobs,
        ) by {
            assert(goes_on(history, i, jobs));
            assert(before[i] == history[i] && before[i + 1] == history[i + 1]);
        }
        lemma_history_sound(before, jobs);
        let i = history.len() - 2;
        assert(goes_on(history, i, jobs));
        let k = choose|k: int| #[trigger] steps(history[i], history[i + 1], k, jobs);
        assert(before.last() == history[i]);
        lemma_step_sound(history[0].disk, history[i], history[i + 1], k, jobs);
    }
}

proof fn lemma_step_sound(
    first: Disk,
    before: Store,
    after: Store,
    k: int,
    jobs: Set<WriteJob>,
)
    requires
        sound(first, before, jobs),
        steps(before, after, k, jobs),
    ensures
        sound(first, after, jobs),
{
    let was = before.stages[k];
    let now = after.stages[k];
    assert(forall|j: int|
        0 <= j < before.stages.len() && j != k ==> after.stages[j] == #[trigger] before.stages[j]);
    assert(job_of(now) is Some ==> jobs.contains(job_of(now)->Some_0));
    assert(tmp_place(was) is Some && tmp_place(now) is Some ==> tmp_place(was) == tmp_place(now));
    assert(tmp_place(now) is Some ==> !is_target(jobs, tmp_place(now)->Some_0));
    assert forall|place: Seq<Part>| is_target(jobs, place) implies #[trigger] whole(
        first,
        after.disk,
        place,
        jobs,
    ) by {
        assert(whole(first, before.disk, place, jobs));
        if after.disk == before.disk {
        } else if was is Renaming && place == path::components_of(was->Renaming_job.path@) {
            let job = was->Renaming_job;
            assert(jobs.contains(job));
        } else {
            assert(tmp_place(was) is Some);
            assert(place != tmp_place(was)->Some_0);
            assert(same_at(before.disk, after.disk, place));
            if !same_at(first, before.disk, place) {
                let job = choose|job: WriteJob| #[trigger]
                    jobs.contains(job) && path::components_of(job.path@) == place
                        && before.disk.files.dom().contains(place) && before.disk.files[place]
                        == outside::body_bytes(job.bytes);
                assert(jobs.contains(job));
            }
        }
    }
    assert forall|j: int| 0 <= j < after.stages.len() implies (#[trigger] after.stages[j] matches
        Stage::Renaming { job, tmp } ==> {
        &&& after.disk.files.dom().contains(path::components_of(tmp@))
        &&& after.disk.files[path::components_of(tmp@)] == outside::body_bytes(job.bytes)
    }) by {
        if let Stage::Renaming { job, tmp } = after.stages[j] {
            let place = path::components_of(tmp@);
            if j != k {
                assert(before.stages[j] == after.stages[j]);
                assert(tmp_place(before.stages[j]) != tmp_place(was));
                if was is Renaming {
                    let other = was->Renaming_job;
                    assert(jobs.contains(other));
                    assert(is_target(jobs, path::components_of(other.path@)));
                }
                assert(same_at(before.disk, after.disk, place));
            }
        }
    }
}

/// A temporary file stands in the directory of its target, if the target's path ends
/// with the name of a file.
pub proof fn tmp_is_beside_its_target(tmp: Seq<char>, target: Seq<char>)
    requires
        writer::is_tmp(tmp, target),
        path::part(path::pieces(target).last()).len() > 0,
    ensures
        path::components_of(tmp).drop_last() == path::components_of(target).drop_last(),
        path::components_of(tmp).len() == path::components_of(target).len(),
        path::components_of(tmp).last() is Normal,
{
    let (nanos, random) = choose|nanos: u128, random: Seq<u8>|
        random.len() == writer::RANDOM_LEN && tmp == #[trigger] writer::tmp_text(
            target,
            nanos as nat,
            random,
        );
    let suffix = writer::tmp_suffix(nanos as nat, random);
    lemma_suffix(nanos as nat, random);
    lemma_components_of_tmp(target, suffix);
}

/// Two temporary names for one target are the same only if they were made of the same
/// time and the same random bytes.
pub proof fn tmp_names_differ(
    target: Seq<char>,
    nanos: nat,
    random: Seq<u8>,
    other_nanos: nat,
    other_random: Seq<u8>,
)
    requires
        writer::tmp_text(target, nanos, random) == writer::tmp_text(
            target,
            other_nanos,
            other_random,
        ),
    ensures
        nanos == other_nanos,
        random == other_random,
{
    reveal_strlit(".tmp.");
    reveal_strlit(".");
    let a = writer::tmp_text(target, nanos, random);
    let b = writer::tmp_text(target, other_nanos, other_random);
    let start: int = target.len() + 5int;
    let da = text::decimal_text(nanos);
    let db = text::decimal_text(other_nanos);
    text::lemma_decimal_chars(nanos);
    text::lemma_decimal_chars(other_nanos);
    assert forall|i: int| 0 <= i < da.len() implies a[start + i] == da[i] by {}
    assert forall|i: int| 0 <= i < db.len() implies b[start + i] == db[i] by {}
    assert(a[start + da.len()] == '.');
    assert(b[start + db.len()] == '.');
    if da.len() < db.len() {
        assert(b[start + da.len()] == db[da.len() as int]);
    } else if db.len() < da.len() {
        assert(a[start + db.len()] == da[db.len() as int]);
    }
    assert(da == db) by {
        assert forall|i: int| 0 <= i < da.len() implies da[i] == db[i] by {
            assert(a[start + i] == b[start + i]);
        }
    }
    text::decimal_text_is_injective(nanos, other_nanos);
    let ha = text::hex_text(random);
    let hb = text::hex_text(other_random);
    assert(ha == hb) by {
        assert(a.skip(start + da.len() + 1) == ha);
        assert(b.skip(start + da.len() + 1) == hb);
    }
    text::hex_text_is_injective(random, other_random);
}

proof fn lemma_suffix(nanos: nat, random: Seq<u8>)
    ensures
        writer::tmp_suffix(nanos, random).len() > 2,
        !writer::tmp_suffix(nanos, random).contains('/'),
{
    reveal_strlit(".tmp.");
    reveal_strlit(".");
    text::lemma_decimal_chars(nanos);
    text::lemma_hex_chars(random);
    let s = writer::tmp_suffix(nanos, random);
    let digits = text::decimal_text(nanos);
    assert forall|i: int| 0 <= i < s.len() implies s[i] != '/' by {
        if i < 5 {
            assert(s[i] == ".tmp."@[i]);
        } else if i < 5 + digits.len() {
            assert(s[i] == digits[i - 5]);
        } else if i > 5 + digits.len() {
            assert(s[i] == text::hex_text(random)[i - 6 - digits.len()]);
        }
    }
}

/// The last component of a temporary name is a name that its target does not have.
proof fn lemma_components_of_tmp(target: Seq<char>, suffix: Seq<char>)
    requires
        suffix.len() > 2,
        !suffix.contains('/'),
    ensures
        ({
            let last = path::pieces(target).last();
            let c = path::components_of(target + suffix);
            &&& c.last() == Part::Normal(last + suffix)
            &&& c.len() > 0
            &&& path::part(last).len() > 0 ==> c.drop_last()
                == path::components_of(target).drop_last() && c.len() == path::components_of(
                target,
            ).len()
        }),
{
    path::lemma_pieces_of_longer(target, suffix);
    let t = target + suffix;
    let before = path::pieces(target).drop_last();
    let last = path::pieces(target).last();
    assert(path::pieces(t).drop_last() == before);
    assert(path::pieces(t).last() == last + suffix);
    assert(path::part(last + suffix) == seq![Part::Normal(last + suffix)]) by {
        assert((last + suffix).len() > 2);
    }
    assert(path::parts(path::pieces(t)) == path::parts(before) + path::part(last + suffix));
    if path::part(last).len() > 0 {
        assert(target.len() > 0);
        assert(t[0] == target[0]);
        if before.len() > 0 {
            assert(path::pieces(t)[0] == before[0]);
            assert(path::pieces(target)[0] == before[0]);
        } else {
            assert(path::pieces(t)[0] == last + suffix);
            assert((last + suffix).len() != seq!['.'].len());
            assert(path::pieces(target)[0] == last);
        }
        assert(path::lead(t) == path::lead(target));
        assert(path::components_of(t).drop_last() == path::lead(t) + path::parts(before));
        assert(path::components_of(target).drop_last() == path::lead(target) + path::parts(
            before,
        ));
    }
}

proof fn lemma_tmp_is_elsewhere(tmp: Seq<char>, target: Seq<char>)
    requires
        writer::is_tmp(tmp, target),
    ensures
        path::components_of(tmp) != path::components_of(target),
{
    let (nanos, random) = choose|nanos: u128, random: Seq<u8>|
        random.len() == writer::RANDOM_LEN && tmp == #[trigger] writer::tmp_text(
            target,
            nanos as nat,
            random,
        );
    let suffix = writer::tmp_suffix(nanos as nat, random);
    lemma_suffix(nanos as nat, random);
    lemma_components_of_tmp(target, suffix);
    path::lemma_pieces_of_longer(target, suffix);
    let before = path::pieces(target).drop_last();
    let last = path::pieces(target).last();
    if path::part(last).len() > 0 {
        assert(path::components_of(target).last() == path::part(last)[0]);
        assert((last + suffix).len() != last.len());
    } else {
        assert(path::parts(path::pieces(target)) == path::parts(before));
        assert(path::parts(path::pieces(tmp)) == path::parts(before) + path::part(last + suffix))
            by {
            assert(path::pieces(tmp).drop_last() == before);
        }
        if before.len() > 0 || path::absolute(target) {
            assert(target.len() > 0);
            assert(tmp[0] == target[0]);
            if before.len() > 0 {
                assert(path::pieces(tmp)[0] == before[0]);
                assert(path::pieces(target)[0] == before[0]);
            }
            assert(path::lead(tmp) == path::lead(target));
        } else {
            assert(path::components_of(target) == path::lead(target));
        }
    }
}

} // verus!
