//! What the count of a [`crate::budget::ByteBudget`] amounts to over its life. Each call
//! on a budget or a reservation promises that it comes at one point among the changes of
//! the count, and what the count holds there and after the change that the call makes.
//! So however threads interleave, the budget goes through some sequence of calls; what is
//! proved here holds of every such sequence. [`occurs`] says what one call does, and
//! [`each_call_is_one_move`] that this is one step of a ledger.
//!
//! Two things in [`occurs`] are believed and not promised by the calls: that a call makes
//! no other change of the count, so that a refused one makes none, and that no two calls
//! share a change. A change through another handle lasts no longer than that handle:
//! [`what_is_thrown_away_comes_off`]. That the changes come one after the other is
//! believed of the [`crate::outside::Counter`].

use std::sync::Arc;
use vstd::prelude::*;

use crate::budget;
use crate::budget::{ByteBudget, ByteBudgetError, ByteReservation};
use crate::outside::{Counter, Share};

verus! {

/// A budget and the reservations of it that are alive.
pub struct Ledger {
    pub max_bytes: usize,
    /// The count.
    pub used: usize,
    /// The size of each reservation that is alive.
    pub held: Seq<usize>,
}

/// One step.
pub enum Move {
    /// A request for a new reservation of this many bytes.
    Reserve(usize),
    /// A request to make a reservation one of this many bytes.
    Resize(int, usize),
    /// The end of a reservation.
    Drop(int),
    /// A look at the count.
    Read,
}

/// A budget that was just made.
pub open spec fn opened(max_bytes: usize) -> Ledger {
    Ledger { max_bytes, used: 0, held: seq![] }
}

/// What a step makes of a ledger. A step on a reservation that is not alive does
/// not occur.
pub open spec fn after(l: Ledger, m: Move) -> Ledger {
    match m {
        Move::Reserve(bytes) => match budget::granted(l.used, bytes, l.max_bytes) {
            Ok(used) => Ledger { used, held: l.held.push(bytes), ..l },
            Err(_) => l,
        },
        Move::Resize(i, bytes) => if !(0 <= i < l.held.len()) {
            l
        } else {
            match budget::regranted(l.used, l.held[i], bytes, l.max_bytes) {
                Ok(used) => Ledger { used, held: l.held.update(i, bytes), ..l },
                Err(_) => l,
            }
        },
        Move::Drop(i) => if !(0 <= i < l.held.len()) {
            l
        } else {
            Ledger { used: budget::taken_off(l.used, l.held[i]), held: l.held.remove(i), ..l }
        },
        Move::Read => l,
    }
}

/// What a sequence of steps makes of a ledger.
pub open spec fn run(l: Ledger, moves: Seq<Move>) -> Ledger
    decreases moves.len(),
{
    if moves.len() == 0 {
        l
    } else {
        after(run(l, moves.drop_last()), moves.last())
    }
}

/// How many bytes the reservations come to.
pub open spec fn total(held: Seq<usize>) -> int
    decreases held.len(),
{
    if held.len() == 0 {
        0
    } else {
        total(held.drop_last()) + held.last()
    }
}

/// The count says what is reserved, and that is within the budget.
pub open spec fn balanced(l: Ledger) -> bool {
    &&& l.used == total(l.held)
    &&& l.used <= l.max_bytes
}

/// A budget at a moment: how often the count has changed, and the reservations that are
/// alive.
pub struct Moment {
    pub changes: nat,
    pub live: Seq<ByteReservation>,
}

/// The count at a moment.
pub open spec fn used(b: Arc<ByteBudget>, m: Moment) -> usize {
    b.counter().at(m.changes)
}

/// One call, with what came of it.
pub enum Call {
    /// [`ByteBudget::try_reserve`], and its result.
    Reserve(usize, Result<ByteReservation, ByteBudgetError>),
    /// [`ByteReservation::resize`] of a reservation, what it made of it, and its result.
    Resize(int, usize, ByteReservation, Result<(), ByteBudgetError>),
    /// The drop of a reservation, and what was left of it.
    Drop(int, ByteReservation),
    /// [`ByteBudget::used_bytes`], and its result.
    Read(usize),
}

/// Whether `call` on the budget `b`, at one instant, takes `before` to `after`. It keeps
/// its promise for the count that it finds, and the change that it promises is the next
/// change of the count. If it promises none the count does not change.
pub open spec fn occurs(b: Arc<ByteBudget>, before: Moment, call: Call, after: Moment) -> bool {
    match call {
        Call::Reserve(bytes, r) => {
            &&& budget::reserves(b, bytes, before.changes, r)
            &&& match r {
                Ok(reservation) => {
                    &&& after.live == before.live.push(reservation)
                    &&& after.changes == before.changes + 1
                },
                Err(_) => after == before,
            }
        },
        Call::Resize(i, bytes, resized, r) => {
            &&& 0 <= i < before.live.len()
            &&& budget::resizes(before.live[i], bytes, before.changes, resized, r)
            &&& after.live == before.live.update(i, resized)
            &&& after.changes == before.changes + (if resized.size() == before.live[i].size() {
                0int
            } else {
                1
            })
        },
        Call::Drop(i, rest) => {
            &&& 0 <= i < before.live.len()
            &&& budget::drops(before.live[i], before.changes, rest)
            &&& after.live == before.live.remove(i)
            &&& after.changes == before.changes + (if before.live[i].size() == 0 {
                0int
            } else {
                1
            })
        },
        Call::Read(n) => {
            &&& budget::reads(b.counter(), before.changes, n)
            &&& after == before
        },
    }
}

/// The step that a call is.
pub open spec fn move_of(call: Call) -> Move {
    match call {
        Call::Reserve(bytes, r) => Move::Reserve(bytes),
        Call::Resize(i, bytes, resized, r) => Move::Resize(i, bytes),
        Call::Drop(i, rest) => Move::Drop(i),
        Call::Read(n) => Move::Read,
    }
}

/// How large the reservations are.
pub open spec fn sizes(live: Seq<ByteReservation>) -> Seq<usize> {
    live.map_values(|r: ByteReservation| r.size())
}

/// A budget at a moment as a ledger.
pub open spec fn ledger_of(b: Arc<ByteBudget>, m: Moment) -> Ledger {
    Ledger { max_bytes: b.limit(), used: used(b, m), held: sizes(m.live) }
}

/// The reservations that are alive are of this budget and have their bytes in its
/// count, and the count says what they come to.
pub open spec fn sound(b: Arc<ByteBudget>, m: Moment) -> bool {
    &&& forall|i: int|
        0 <= i < m.live.len() ==> (#[trigger] m.live[i]).wf() && m.live[i].budget() == b
    &&& balanced(ledger_of(b, m))
}

/// Whether `calls` take the budget `b` through the moments of `history`, one after the
/// other.
pub open spec fn is_history(b: Arc<ByteBudget>, history: Seq<Moment>, calls: Seq<Call>) -> bool {
    &&& history.len() == calls.len() + 1
    &&& forall|i: int|
        0 <= i < calls.len() ==> occurs(b, history[i], #[trigger] calls[i], history[i + 1])
}

/// Each call is one step of the ledger, whatever other calls come before and after it.
pub proof fn each_call_is_one_move(b: Arc<ByteBudget>, before: Moment, call: Call, after: Moment)
    requires
        sound(b, before),
        occurs(b, before, call, after),
    ensures
        ledger_of(b, after) == self::after(ledger_of(b, before), move_of(call)),
        sound(b, after),
{
    let l = ledger_of(b, before);
    lemma_after_balanced(l, move_of(call));
    match call {
        Call::Reserve(bytes, r) => {
            if let Ok(reservation) = r {
                assert(sizes(after.live) == l.held.push(bytes));
            }
        },
        Call::Resize(i, bytes, resized, r) => {
            lemma_total_remove(l.held, i);
            assert(l.held[i] == before.live[i].size());
            assert(sizes(after.live) == l.held.update(i, resized.size()));
            assert(l.held.update(i, l.held[i]) == l.held);
        },
        Call::Drop(i, rest) => {
            lemma_total_remove(l.held, i);
            assert(l.held[i] == before.live[i].size());
            assert(sizes(after.live) == l.held.remove(i));
        },
        Call::Read(n) => {},
    }
}

/// Whatever calls are made on a new budget, in whatever order, granted or refused: at
/// every moment the count is what the reservations that are alive come to, and never more
/// than the budget, whose size stays the same.
pub proof fn count_is_what_is_alive(b: Arc<ByteBudget>, history: Seq<Moment>, calls: Seq<Call>)
    requires
        b.counter().at(0) == 0,
        is_history(b, history, calls),
        history[0].changes == 0,
        history[0].live.len() == 0,
    ensures
        forall|k: int|
            0 <= k < history.len() ==> {
                let m = #[trigger] history[k];
                &&& used(b, m) == total(sizes(m.live))
                &&& used(b, m) <= b.limit()
                &&& forall|i: int|
                    0 <= i < m.live.len() ==> (#[trigger] m.live[i]).wf() && m.live[i].budget()
                        == b
            },
{
    assert(sound(b, history[0]));
    lemma_history_sound(b, history, calls);
    assert forall|k: int| 0 <= k < history.len() implies {
        let m = #[trigger] history[k];
        &&& used(b, m) == total(sizes(m.live))
        &&& used(b, m) <= b.limit()
        &&& forall|i: int|
            0 <= i < m.live.len() ==> (#[trigger] m.live[i]).wf() && m.live[i].budget() == b
    } by {
        assert(sound(b, history[k]));
    }
}

/// Whenever the count of a new budget is looked at, it is what the reservations that are
/// alive then come to, and at most the budget. At first that is zero.
pub proof fn reading_is_what_is_alive(
    b: Arc<ByteBudget>,
    history: Seq<Moment>,
    calls: Seq<Call>,
    k: int,
    n: usize,
)
    requires
        b.counter().at(0) == 0,
        is_history(b, history, calls),
        history[0].changes == 0,
        history[0].live.len() == 0,
        0 <= k < calls.len(),
        calls[k] == Call::Read(n),
    ensures
        n == total(sizes(history[k].live)),
        n <= b.limit(),
        history[k].live.len() == 0 ==> n == 0,
        k == 0 ==> n == 0,
{
    count_is_what_is_alive(b, history, calls);
    assert(occurs(b, history[k], calls[k], history[k + 1]));
}

/// To reserve, to resize any number of times and to drop, with no other call in between,
/// leaves the count and the other reservations as they were.
pub proof fn reserve_resize_drop_leaves_the_count(
    b: Arc<ByteBudget>,
    history: Seq<Moment>,
    calls: Seq<Call>,
)
    requires
        is_history(b, history, calls),
        sound(b, history[0]),
        calls.len() >= 2,
        calls[0] matches Call::Reserve(_, r) && r is Ok,
        forall|k: int|
            0 < k < calls.len() - 1 ==> (#[trigger] calls[k] matches Call::Resize(i, _, _, _) && i
                == history[0].live.len()),
        calls.last() matches Call::Drop(i, _) && i == history[0].live.len(),
    ensures
        used(b, history.last()) == used(b, history[0]),
        history.last().live == history[0].live,
{
    let n = calls.len();
    let i = history[0].live.len() as int;
    lemma_only_last_changes(b, history, calls, n - 1);
    assert(occurs(b, history[n - 1], calls[n - 1], history[n as int]));
    assert(history[n - 1].live.remove(i) == history[0].live);
    lemma_history_sound(b, history, calls);
}

/// Whether the count stays what it is from one number of changes to another.
pub open spec fn undisturbed(counter: Counter, from: nat, to: nat) -> bool {
    forall|k: nat| from <= k <= to ==> #[trigger] counter.at(k) == counter.at(from)
}

/// To grow a reservation back undoes having shrunk it, if nothing else changed the count in
/// between: neither is refused, and size and count are what they were.
pub proof fn growing_back_undoes_shrinking(
    start: ByteReservation,
    bytes: usize,
    k: nat,
    small: ByteReservation,
    shrunk: Result<(), ByteBudgetError>,
    later: nat,
    back: ByteReservation,
    grown: Result<(), ByteBudgetError>,
)
    requires
        start.counter().at(k) <= start.budget().limit(),
        bytes <= start.size(),
        budget::resizes(start, bytes, k, small, shrunk),
        undisturbed(start.counter(), small.seen(), later),
        budget::resizes(small, start.size(), later, back, grown),
    ensures
        shrunk is Ok,
        grown is Ok,
        back.size() == start.size(),
        start.wf() ==> back.wf(),
        start.counter().at(back.seen()) == start.counter().at(k),
{
}

/// To drop a reservation gives back what it has come to by reserving and resizing, granted
/// or refused, if nothing else changed the count since it was made: the count is what it
/// was before. `states` are what the reservation was after each call, and `at` is how
/// many changes there were before each.
pub proof fn drop_undoes_what_was_done(
    b: Arc<ByteBudget>,
    bytes: usize,
    states: Seq<ByteReservation>,
    at: Seq<nat>,
    asked: Seq<usize>,
    answers: Seq<Result<(), ByteBudgetError>>,
    end: nat,
    rest: ByteReservation,
)
    requires
        states.len() >= 1,
        at.len() == states.len(),
        asked.len() == states.len(),
        answers.len() == states.len(),
        budget::reserves(b, bytes, at[0], Ok(states[0])),
        forall|i: int|
            0 < i < states.len() ==> is_resized(
                states[i - 1],
                asked[i],
                at[i],
                #[trigger] states[i],
                answers[i],
            ),
        undisturbed(b.counter(), states.last().seen(), end),
        budget::drops(states.last(), end, rest),
    ensures
        b.counter().at(rest.seen()) == b.counter().at(at[0]),
        rest.counted() == 0,
{
    lemma_states_count(b, bytes, states, at, asked, answers, states.len() - 1);
}

/// Whether a resize made `after` of `before`, and nothing else changed the count since
/// `before` last touched it.
pub open spec fn is_resized(
    before: ByteReservation,
    bytes: usize,
    k: nat,
    after: ByteReservation,
    r: Result<(), ByteBudgetError>,
) -> bool {
    &&& undisturbed(before.counter(), before.seen(), k)
    &&& budget::resizes(before, bytes, k, after, r)
}

proof fn lemma_states_count(
    b: Arc<ByteBudget>,
    bytes: usize,
    states: Seq<ByteReservation>,
    at: Seq<nat>,
    asked: Seq<usize>,
    answers: Seq<Result<(), ByteBudgetError>>,
    n: int,
)
    requires
        0 <= n < states.len(),
        at.len() == states.len(),
        budget::reserves(b, bytes, at[0], Ok(states[0])),
        forall|i: int|
            0 < i < states.len() ==> is_resized(
                states[i - 1],
                asked[i],
                at[i],
                #[trigger] states[i],
                answers[i],
            ),
    ensures
        states[n].wf(),
        states[n].budget() == b,
        b.counter().at(states[n].seen()) == b.counter().at(at[0]) + states[n].size(),
    decreases n,
{
    if n > 0 {
        lemma_states_count(b, bytes, states, at, asked, answers, n - 1);
        assert(is_resized(states[n - 1], asked[n], at[n], states[n], answers[n]));
    }
}

/// What is added to the count through a handle comes off again when the handle is thrown
/// away: if nothing else changed the count, it is what it was.
pub proof fn what_is_thrown_away_comes_off(
    b: ByteBudget,
    fresh: Share,
    bytes: usize,
    k: nat,
    used: Share,
    added: Result<(), ByteBudgetError>,
    later: nat,
    end: Share,
)
    requires
        fresh.net() == 0,
        budget::adds(b, fresh, bytes, k, used, added),
        undisturbed(fresh.counter(), used.seen(), later),
        budget::releases(used, used.net() as usize, later, end),
    ensures
        end.net() == 0,
        end.counter() == fresh.counter(),
        fresh.counter().at(end.seen()) == fresh.counter().at(k),
{
}

/// A new budget is of the size that was asked for, and none of it is in use.
pub proof fn new_budget_is_empty(max_bytes: usize, b: ByteBudget)
    requires
        call_ensures(ByteBudget::new, (max_bytes,), b),
    ensures
        b.limit() == max_bytes,
        b.counter().at(0) == 0,
        forall|k: nat| #[trigger] b.counter().at(k) <= max_bytes,
{
}

/// What is read of the count is what the count is at some moment.
pub proof fn reading_is_of_some_moment(b: &ByteBudget, n: usize)
    requires
        call_ensures(ByteBudget::used_bytes, (b,), n),
    ensures
        exists|k: nat| #[trigger] b.counter().at(k) == n,
        n <= b.limit(),
{
    let k = choose|k: nat| #[trigger] budget::reads(b.counter(), k, n);
    assert(b.counter().at(k) == n);
}

/// A request to reserve is granted if there is room for it at all times, and refused if
/// there is none at any time. What is granted is a reservation of as many bytes as were
/// asked for, all of them in the count, which was put up by them in one change.
pub proof fn reserving_goes_by_the_room_there_is(
    b: &Arc<ByteBudget>,
    bytes: usize,
    r: Result<ByteReservation, ByteBudgetError>,
)
    requires
        call_ensures(ByteBudget::try_reserve, (b, bytes), r),
    ensures
        (forall|k: nat| (#[trigger] b.counter().at(k)) + bytes <= b.limit()) ==> r is Ok,
        (forall|k: nat| (#[trigger] b.counter().at(k)) + bytes > b.limit()) ==> r is Err,
        bytes > b.limit() <==> r == Err::<ByteReservation, ByteBudgetError>(
            ByteBudgetError::TooLarge,
        ),
        r matches Ok(reservation) ==> {
            let k = (reservation.seen() - 1) as nat;
            &&& reservation.size() == bytes
            &&& reservation.counted() == bytes
            &&& reservation.budget() == *b
            &&& reservation.counter() == b.counter()
            &&& reservation.seen() > 0
            &&& b.counter().at(k + 1) == b.counter().at(k) + bytes
            &&& b.counter().at(k + 1) <= b.limit()
        },
{
    let k = choose|k: nat|
        b.counter().at(k) <= b.limit() && #[trigger] budget::reserves(*b, bytes, k, r);
    assert(b.counter().at(k) <= b.limit());
}

/// A request to resize is granted if the reservation gets smaller or there is always room
/// for the difference, and refused if there never is. The reservation is then of the size
/// that was asked for, else of the size that it was, and has as much in the count.
pub proof fn resizing_goes_by_the_room_there_is(
    reservation: &mut ByteReservation,
    bytes: usize,
    r: Result<(), ByteBudgetError>,
)
    requires
        old(reservation).wf(),
        call_ensures(ByteReservation::resize, (reservation, bytes), r),
    ensures
        ({
            let b = old(reservation).budget();
            let more = bytes - old(reservation).size();
            &&& more <= 0 ==> r is Ok
            &&& (forall|k: nat| (#[trigger] b.counter().at(k)) + more <= b.limit()) ==> r is Ok
            &&& more > 0 && (forall|k: nat| (#[trigger] b.counter().at(k)) + more > b.limit())
                ==> r is Err
            &&& r == Err::<(), ByteBudgetError>(ByteBudgetError::TooLarge) <==> more > b.limit()
            &&& final(reservation).wf()
            &&& final(reservation).budget() == b
            &&& r is Ok ==> final(reservation).size() == bytes
            &&& r is Err ==> final(reservation).size() == old(reservation).size()
        }),
{
    let before = *old(reservation);
    let after = *final(reservation);
    let k = choose|k: nat|
        before.counter().at(k) <= before.budget().limit() && #[trigger] budget::resizes(
            before,
            bytes,
            k,
            after,
            r,
        );
    assert(before.counter().at(k) <= before.budget().limit());
    resizing_adds_the_difference(before, bytes, k, after, r);
}

/// A reservation that is granted is one change of the count, by the bytes that were asked
/// for. It is granted exactly if they fit beside what is in use.
pub proof fn reserving_adds_the_bytes_once(
    b: Arc<ByteBudget>,
    bytes: usize,
    k: nat,
    r: Result<ByteReservation, ByteBudgetError>,
)
    requires
        b.counter().at(k) <= b.limit(),
        budget::reserves(b, bytes, k, r),
    ensures
        r is Ok <==> b.counter().at(k) + bytes <= b.limit(),
        r matches Ok(reservation) ==> {
            &&& b.counter().at(k + 1) == b.counter().at(k) + bytes
            &&& reservation.counted() == bytes
            &&& reservation.size() == bytes
            &&& reservation.seen() == k + 1
        },
        r matches Err(e) ==> (e == ByteBudgetError::TooLarge <==> bytes > b.limit()),
{
}

/// To make a reservation larger is granted exactly if the difference fits beside what is
/// in use, and to make it smaller always is. The count changes by the difference.
pub proof fn resizing_adds_the_difference(
    before: ByteReservation,
    bytes: usize,
    k: nat,
    after: ByteReservation,
    r: Result<(), ByteBudgetError>,
)
    requires
        before.counter().at(k) <= before.budget().limit(),
        budget::resizes(before, bytes, k, after, r),
    ensures
        r is Ok <==> bytes <= before.size() || before.counter().at(k) + (bytes - before.size())
            <= before.budget().limit(),
        r is Ok ==> after.size() == bytes,
        r is Err ==> after.size() == before.size(),
        before.counter().at(after.seen()) == before.counter().at(k) + (after.size()
            - before.size()),
        after.counted() - before.counted() == after.size() - before.size(),
        r matches Err(e) ==> (e == ByteBudgetError::TooLarge <==> bytes - before.size()
            > before.budget().limit()),
{
}

/// To drop a reservation takes its size off the count, once.
pub proof fn dropping_takes_the_size_off(before: ByteReservation, k: nat, after: ByteReservation)
    requires
        budget::drops(before, k, after),
    ensures
        before.counter().at(after.seen()) == before.counter().at(k) - before.size(),
        before.wf() ==> after.counted() == 0,
{
}

/// A request can be refused for want of room only if at some moment there is none, for its
/// size only if it is larger than the budget, and granted only if at some moment it fits.
pub proof fn answers_have_their_reasons(
    error: Option<ByteBudgetError>,
    counter: Counter,
    bytes: usize,
    max_bytes: usize,
)
    requires
        budget::can_meet(error, counter, bytes, max_bytes),
    ensures
        match error {
            None => exists|k: nat| (#[trigger] counter.at(k)) + bytes <= max_bytes,
            Some(ByteBudgetError::Full) => bytes <= max_bytes && exists|k: nat|
                max_bytes < (#[trigger] counter.at(k)) + bytes && counter.at(k) <= max_bytes,
            Some(ByteBudgetError::TooLarge) => bytes > max_bytes,
        },
{
    let k = choose|k: nat|
        counter.at(k) <= max_bytes && #[trigger] budget::error_at(counter, k, bytes, max_bytes)
            == error;
    assert(counter.at(k) <= max_bytes);
}

/// A request that was refused because too much was in use is granted once nothing is.
pub proof fn full_is_granted_when_all_is_dropped(
    b: Arc<ByteBudget>,
    bytes: usize,
    k: nat,
    later: Moment,
    r: Result<ByteReservation, ByteBudgetError>,
)
    requires
        budget::reserves(b, bytes, k, Err(ByteBudgetError::Full)),
        sound(b, later),
        later.live.len() == 0,
        budget::reserves(b, bytes, later.changes, r),
    ensures
        r is Ok,
{
}

/// A request that is too large for the budget is so at all times.
pub proof fn too_large_stays_too_large(
    b: Arc<ByteBudget>,
    bytes: usize,
    k: nat,
    later_k: nat,
    r: Result<ByteReservation, ByteBudgetError>,
)
    requires
        budget::reserves(b, bytes, k, Err(ByteBudgetError::TooLarge)),
        budget::reserves(b, bytes, later_k, r),
    ensures
        r matches Err(e) && e == ByteBudgetError::TooLarge,
{
}

/// To take bytes off the count undoes having added them, if nothing else changed it in
/// between: the handle has in the count what it had before, and the count is what it was.
pub proof fn release_undoes_add(
    b: ByteBudget,
    start: Share,
    bytes: usize,
    k: nat,
    middle: Share,
    added: Result<(), ByteBudgetError>,
    later: nat,
    end: Share,
)
    requires
        budget::adds(b, start, bytes, k, middle, added),
        added is Ok,
        undisturbed(start.counter(), middle.seen(), later),
        budget::releases(middle, bytes, later, end),
    ensures
        end.counter() == start.counter(),
        end.net() == start.net(),
        end.counter().at(end.seen()) == start.counter().at(k),
{
}

proof fn lemma_history_sound(b: Arc<ByteBudget>, history: Seq<Moment>, calls: Seq<Call>)
    requires
        is_history(b, history, calls),
        sound(b, history[0]),
    ensures
        forall|k: int| 0 <= k < history.len() ==> sound(b, #[trigger] history[k]),
    decreases calls.len(),
{
    if calls.len() > 0 {
        let n = calls.len() - 1;
        let earlier = history.drop_last();
        let earlier_calls = calls.drop_last();
        assert forall|i: int| 0 <= i < earlier_calls.len() implies occurs(
            b,
            earlier[i],
            #[trigger] earlier_calls[i],
            earlier[i + 1],
        ) by {
            assert(calls[i] == earlier_calls[i]);
        }
        lemma_history_sound(b, earlier, earlier_calls);
        assert(sound(b, earlier[n]));
        assert(occurs(b, history[n], calls[n], history[n + 1]));
        each_call_is_one_move(b, history[n], calls[n], history[n + 1]);
        assert forall|k: int| 0 <= k < history.len() implies sound(b, #[trigger] history[k]) by {
            if k <= n {
                assert(earlier[k] == history[k]);
            }
        }
    }
}

proof fn lemma_only_last_changes(
    b: Arc<ByteBudget>,
    history: Seq<Moment>,
    calls: Seq<Call>,
    n: int,
)
    requires
        is_history(b, history, calls),
        1 <= n < calls.len(),
        calls[0] matches Call::Reserve(_, r) && r is Ok,
        forall|k: int|
            0 < k < calls.len() - 1 ==> (#[trigger] calls[k] matches Call::Resize(i, _, _, _) && i
                == history[0].live.len()),
    ensures
        history[n].live.len() == history[0].live.len() + 1,
        history[n].live.drop_last() == history[0].live,
    decreases n,
{
    assert(occurs(b, history[n - 1], calls[n - 1], history[n]));
    if n == 1 {
        assert(history[1].live.drop_last() == history[0].live);
    } else {
        lemma_only_last_changes(b, history, calls, n - 1);
        assert(history[n].live.drop_last() == history[n - 1].live.drop_last());
    }
}

/// Whatever is reserved, resized and dropped, in whatever order, the count is what
/// the reservations that are alive come to, and never more than the budget, whose size
/// stays the same.
pub proof fn count_is_what_is_reserved(max_bytes: usize, moves: Seq<Move>)
    ensures
        run(opened(max_bytes), moves).used == total(run(opened(max_bytes), moves).held),
        run(opened(max_bytes), moves).used <= max_bytes,
        run(opened(max_bytes), moves).max_bytes == max_bytes,
{
    lemma_run_balanced(max_bytes, moves);
}

/// A count that is given back from always holds what is given back, so it never
/// wraps around.
pub proof fn count_never_wraps(max_bytes: usize, moves: Seq<Move>, i: int)
    requires
        0 <= i < run(opened(max_bytes), moves).held.len(),
    ensures
        run(opened(max_bytes), moves).held[i] <= run(opened(max_bytes), moves).used,
{
    lemma_run_balanced(max_bytes, moves);
    lemma_total_remove(run(opened(max_bytes), moves).held, i);
}

/// A request is granted exactly if its bytes fit beside those that are reserved.
pub proof fn granted_exactly_if_it_fits(max_bytes: usize, moves: Seq<Move>, bytes: usize)
    ensures
        budget::granted(run(opened(max_bytes), moves).used, bytes, max_bytes) is Ok <==> total(
            run(opened(max_bytes), moves).held,
        ) + bytes <= max_bytes,
{
    lemma_run_balanced(max_bytes, moves);
    lemma_total_nonnegative(run(opened(max_bytes), moves).held);
}

/// When no reservation is left the count is zero.
pub proof fn nothing_held_nothing_used(max_bytes: usize, moves: Seq<Move>)
    requires
        run(opened(max_bytes), moves).held.len() == 0,
    ensures
        run(opened(max_bytes), moves).used == 0,
{
    lemma_run_balanced(max_bytes, moves);
}

/// To drop a reservation undoes having made it.
pub proof fn drop_undoes_reserve(l: Ledger, bytes: usize)
    requires
        budget::granted(l.used, bytes, l.max_bytes) is Ok,
    ensures
        after(after(l, Move::Reserve(bytes)), Move::Drop(l.held.len() as int)) == l,
{
    let made = after(l, Move::Reserve(bytes));
    assert(made.held.remove(l.held.len() as int) == l.held);
}

/// To resize a reservation there and back changes nothing.
pub proof fn resize_back_undoes_resize(l: Ledger, i: int, bytes: usize)
    requires
        balanced(l),
        0 <= i < l.held.len(),
    ensures
        after(after(l, Move::Resize(i, bytes)), Move::Resize(i, l.held[i])) == l,
{
    let there = after(l, Move::Resize(i, bytes));
    lemma_total_remove(l.held, i);
    lemma_total_nonnegative(l.held.remove(i));
    assert(l.held.update(i, l.held[i]) == l.held);
    assert(l.held.update(i, bytes).update(i, l.held[i]) == l.held);
    assert(there.held[i] == bytes || there == l);
}

/// A request that is refused changes nothing.
pub proof fn refused_request_changes_nothing(l: Ledger, bytes: usize, error: ByteBudgetError)
    requires
        budget::granted(l.used, bytes, l.max_bytes) == Err::<usize, ByteBudgetError>(error),
    ensures
        after(l, Move::Reserve(bytes)) == l,
{
}

proof fn lemma_run_balanced(max_bytes: usize, moves: Seq<Move>)
    ensures
        balanced(run(opened(max_bytes), moves)),
        run(opened(max_bytes), moves).max_bytes == max_bytes,
    decreases moves.len(),
{
    if moves.len() > 0 {
        lemma_run_balanced(max_bytes, moves.drop_last());
        lemma_after_balanced(run(opened(max_bytes), moves.drop_last()), moves.last());
    }
}

proof fn lemma_after_balanced(l: Ledger, m: Move)
    requires
        balanced(l),
    ensures
        balanced(after(l, m)),
        after(l, m).max_bytes == l.max_bytes,
{
    match m {
        Move::Reserve(bytes) => {
            assert(l.held.push(bytes).drop_last() == l.held);
        },
        Move::Resize(i, bytes) => {
            if 0 <= i < l.held.len() {
                lemma_total_remove(l.held, i);
                lemma_total_remove(l.held.update(i, bytes), i);
                lemma_total_nonnegative(l.held.remove(i));
                assert(l.held.update(i, bytes).remove(i) == l.held.remove(i));
            }
        },
        Move::Drop(i) => {
            if 0 <= i < l.held.len() {
                lemma_total_remove(l.held, i);
                lemma_total_nonnegative(l.held.remove(i));
            }
        },
        Move::Read => {},
    }
}

proof fn lemma_total_nonnegative(held: Seq<usize>)
    ensures
        total(held) >= 0,
    decreases held.len(),
{
    if held.len() > 0 {
        lemma_total_nonnegative(held.drop_last());
    }
}

proof fn lemma_total_remove(held: Seq<usize>, i: int)
    requires
        0 <= i < held.len(),
    ensures
        total(held) == total(held.remove(i)) + held[i],
        total(held.remove(i)) >= 0,
    decreases held.len(),
{
    lemma_total_nonnegative(held.remove(i));
    if i == held.len() - 1 {
        assert(held.remove(i) == held.drop_last());
    } else {
        lemma_total_remove(held.drop_last(), i);
        assert(held.remove(i).drop_last() == held.drop_last().remove(i));
    }
}

} // verus!
