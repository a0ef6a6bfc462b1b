//! What is taken on trust of other crates and of std: the types that are carried
//! through unread, and what the calls into them are believed to do.

use axum::http::header::{HeaderMap, HeaderValue, ToStrError};
use bytes::Bytes;
use rand::RngCore;
use std::sync::atomic::{AtomicUsize, Ordering};
use std::sync::Arc;
use std::time::{Duration, SystemTime, SystemTimeError, UNIX_EPOCH};
use tokio::sync::mpsc::error::TrySendError;
use tokio::sync::mpsc::{OwnedPermit, Sender};
use vstd::prelude::*;

use crate::budget;

verus! {

// ---- Counters shared between threads ----

/// A counter that is shared between threads. It can be changed only through a [`Share`],
/// which adds to it or takes off what it has added itself, and never adds beyond the
/// bound. Its changes come one after the other, whatever the threads do, and what it holds
/// after each of them is its life. Which life that is shows only as the calls return.
pub struct Counter {
    value: Arc<AtomicUsize>,
    life: Ghost<spec_fn(nat) -> usize>,
    bound: Ghost<usize>,
}

/// A handle on a counter, which keeps account of what is done to the counter through it.
/// What it has added and not taken off again comes off when the handle ends, so nothing
/// stays in the counter that no handle accounts for.
pub struct Share {
    counter: Counter,
    held: usize,
    net: Ghost<int>,
    seen: Ghost<nat>,
}

impl Counter {
    /// What the counter holds once it has been changed `k` times, or at the last if it is
    /// changed fewer times.
    pub closed spec fn at(&self, k: nat) -> usize {
        (self.life@)(k)
    }

    /// What the counter never exceeds.
    pub closed spec fn bound(&self) -> usize {
        self.bound@
    }

    /// Whether the change that comes after `k` others finds `found` and leaves `next`.
    pub open spec fn changes(&self, k: nat, found: usize, next: usize) -> bool {
        &&& self.at(k) == found
        &&& self.at(k + 1) == next
    }

    /// `AtomicUsize::new` is believed to make a counter that holds `start`. It never holds
    /// more than the bound: it holds `start` and what all handles have added less what they
    /// have taken off, no handle takes off more than it has added, and none adds beyond
    /// the bound.
    #[verifier::external_body]
    pub(crate) fn starting_at(start: usize, bound: usize) -> (r: Counter)
        requires
            start <= bound,
        ensures
            r.at(0) == start,
            r.bound() == bound,
            forall|k: nat| #[trigger] r.at(k) <= bound,
    {
        Counter {
            value: Arc::new(AtomicUsize::new(start)),
            life: Ghost(arbitrary()),
            bound: Ghost(bound),
        }
    }

    /// `AtomicUsize::load` is believed to give what the counter holds at some moment of its
    /// life. At which one is left open, as other threads change it meanwhile.
    #[verifier::external_body]
    pub(crate) fn load(&self) -> (n: usize)
        ensures
            exists|k: nat| #[trigger] self.at(k) == n,
    {
        self.value.load(Ordering::Relaxed)
    }
}

impl Share {
    /// The handle knows what it has in the counter.
    #[verifier::type_invariant]
    spec fn accounted(self) -> bool {
        self.held == self.net@
    }

    /// The counter.
    pub closed spec fn counter(&self) -> Counter {
        self.counter
    }

    /// What has been added to the counter through this handle, less what has been taken
    /// off through it.
    pub closed spec fn net(&self) -> int {
        self.net@
    }

    /// How many changes of the counter had come when this handle was last used.
    pub closed spec fn seen(&self) -> nat {
        self.seen@
    }

    /// A handle through which nothing has been done yet.
    pub(crate) fn of(counter: &Counter) -> (r: Share)
        ensures
            r.net() == 0,
            r.seen() == 0,
            r.counter() == *counter,
    {
        Share {
            counter: Counter {
                value: Arc::clone(&counter.value),
                life: counter.life,
                bound: counter.bound,
            },
            held: 0,
            net: Ghost(0),
            seen: Ghost(0),
        }
    }

    /// What the handle has in the counter.
    pub(crate) fn held(&self) -> (n: usize)
        ensures
            n == self.net(),
        opens_invariants none
        no_unwind
    {
        proof {
            use_type_invariant(self);
        }
        self.held
    }

    /// `AtomicUsize::fetch_update` offers `f` the values that it finds until one is
    /// exchanged for what `f` makes of it, in one step, or `f` declines. It is believed to
    /// return the value that was exchanged as `Ok`, which is one change of the counter, or
    /// the one that was declined, with the counter left alone, as `Err`, and not to unwind
    /// as `f` does not. At which moment of the counter's life that is, is left open, but it
    /// is none that came before the last use of this handle. The value found is no less
    /// than what the handle has in the counter. `f` must keep to the bound, and not make
    /// the value less; `held` is what the handle has in the counter if `f` does not decline.
    #[verifier::external_body]
    pub(crate) fn exchange<F: FnMut(usize) -> Option<usize>>(
        &mut self,
        f: F,
        held: usize,
    ) -> (r: Result<usize, usize>)
        requires
            forall|found: usize| call_requires(f, (found,)),
            forall|found: usize, next: usize|
                old(self).net() <= found <= old(self).counter().bound()
                    && #[trigger] call_ensures(f, (found,), Some(next)) ==> found <= next
                    <= old(self).counter().bound() && held - old(self).net() == next - found,
        ensures
            final(self).counter() == old(self).counter(),
            old(self).net() <= (match r {
                Ok(found) => found,
                Err(found) => found,
            }),
            match r {
                Ok(found) => exists|k: nat, next: usize| #[trigger]
                    old(self).counter().changes(k, found, next) && call_ensures(
                        f,
                        (found,),
                        Some(next),
                    ) && final(self).net() == old(self).net() + next - found && old(self).seen()
                        <= k && final(self).seen() == k + 1,
                Err(found) => {
                    &&& call_ensures(f, (found,), None)
                    &&& final(self).net() == old(self).net()
                    &&& old(self).counter().at(final(self).seen()) == found
                    &&& old(self).seen() <= final(self).seen()
                },
            },
        opens_invariants none
        no_unwind
    {
        match self.counter.value.fetch_update(Ordering::AcqRel, Ordering::Relaxed, f) {
            Ok(found) => {
                self.held = held;
                Ok(found)
            },
            Err(found) => Err(found),
        }
    }

    /// `AtomicUsize::fetch_sub` is believed to take `bytes` off the counter in one step,
    /// which is one change of the counter, to return the value that it found, and not to
    /// unwind. No more can be taken off than was added through the handle, so the value
    /// found is no less than `bytes`. At which moment of the counter's life that is, is
    /// left open, but it is none that came before the last use of this handle. `held` is
    /// what the handle has in the counter afterwards.
    #[verifier::external_body]
    pub(crate) fn take_off(&mut self, bytes: usize, held: usize) -> (found: usize)
        requires
            bytes <= old(self).net(),
            held == old(self).net() - bytes,
        ensures
            final(self).counter() == old(self).counter(),
            final(self).net() == old(self).net() - bytes,
            bytes <= found,
            exists|k: nat, next: usize| #[trigger]
                old(self).counter().changes(k, found, next) && next == found - bytes && old(
                    self,
                ).seen() <= k && final(self).seen() == k + 1,
        opens_invariants none
        no_unwind
    {
        self.held = held;
        self.counter.value.fetch_sub(bytes, Ordering::AcqRel)
    }
}

impl Drop for Share {
    /// Takes off the counter what the handle still has there.
    fn drop(&mut self)
        ensures
            final(self).net() == 0,
            exists|k: nat| #[trigger]
                budget::releases(*old(self), old(self).net() as usize, k, *final(self)),
        opens_invariants none
        no_unwind
    {
        proof {
            use_type_invariant(&*self);
        }
        let ghost before = *self;
        let bytes: usize = self.held;
        assert(before.net() as usize == bytes);
        if bytes > 0 {
            let found: usize = self.take_off(bytes, 0);
            let ghost (k, next) = choose|k: nat, next: usize| #[trigger]
                before.counter().changes(k, found, next) && next == found - bytes && before.seen()
                    <= k && self.seen() == k + 1;
            assert(budget::releases(before, bytes, k, *self));
        } else {
            assert(budget::releases(before, bytes, self.seen(), *self));
        }
    }
}

// ---- Request headers ----

/// `http::HeaderMap`, the headers of a request.
#[verifier::external_type_specification]
#[verifier::external_body]
#[verifier::reject_recursive_types(T)]
pub struct ExHeaderMap<T>(HeaderMap<T>);

/// `http::HeaderValue`, the bytes of one header.
#[verifier::external_type_specification]
#[verifier::external_body]
pub struct ExHeaderValue(HeaderValue);

/// `http::header::ToStrError`, which says that a header is not plain text.
#[verifier::external_type_specification]
#[verifier::external_body]
pub struct ExToStrError(ToStrError);

/// What `headers` holds: for the name of each header, in lower case, the bytes of
/// the first value that it was given.
pub uninterp spec fn first_values(headers: HeaderMap<HeaderValue>) -> Map<Seq<char>, Seq<u8>>;

/// The bytes that `value` holds.
pub uninterp spec fn value_bytes(value: HeaderValue) -> Seq<u8>;

/// Whether `b` is a printable ASCII character, a space or a tab.
pub open spec fn visible(b: u8) -> bool {
    (32 <= b && b < 127) || b == 9
}

/// Whether `c` can be part of the name of a header that is written in lower case.
pub open spec fn in_header_name(c: char) -> bool {
    ('a' <= c && c <= 'z') || c == '-'
}

/// `HeaderMap::get` is believed to find the first value under a name, if there is
/// one. It ignores case; only names in lower case are looked up here.
#[verifier::external_body]
pub(crate) fn find_header<'a>(headers: &'a HeaderMap, name: &str) -> (r: Option<&'a HeaderValue>)
    requires
        forall|i: int| 0 <= i < name@.len() ==> in_header_name(#[trigger] name@[i]),
    ensures
        match r {
            Some(value) => first_values(*headers).dom().contains(name@) && value_bytes(*value)
                == first_values(*headers)[name@],
            None => !first_values(*headers).dom().contains(name@),
        },
{
    headers.get(name)
}

/// `HeaderValue::to_str` is believed to give the bytes of a header as characters if
/// all of them are visible, and an error otherwise.
pub assume_specification[ HeaderValue::to_str ](value: &HeaderValue) -> (r: Result<
    &str,
    ToStrError,
>)
    ensures
        match r {
            Ok(s) => {
                &&& forall|i: int|
                    0 <= i < value_bytes(*value).len() ==> visible(#[trigger] value_bytes(*value)[i])
                &&& s@ == value_bytes(*value).map_values(|b: u8| b as char)
            },
            Err(_) => exists|i: int|
                0 <= i < value_bytes(*value).len() && !visible(#[trigger] value_bytes(*value)[i]),
        },
;

// ---- Request bodies ----

/// `bytes::Bytes`, the body of a request.
#[verifier::external_type_specification]
#[verifier::external_body]
pub struct ExBytes(Bytes);

/// The bytes that `body` holds.
pub uninterp spec fn body_bytes(body: Bytes) -> Seq<u8>;

/// `Bytes::len` is believed to count the bytes.
pub assume_specification[ Bytes::len ](body: &Bytes) -> (n: usize)
    ensures
        n == body_bytes(*body).len(),
;

// ---- The queue of jobs ----

/// `tokio::sync::mpsc::Sender`, the end of a channel that jobs are put into.
#[verifier::external_type_specification]
#[verifier::external_body]
#[verifier::reject_recursive_types(T)]
pub struct ExSender<T>(Sender<T>);

/// `tokio::sync::mpsc::OwnedPermit`, a slot of a channel that is kept for one job.
#[verifier::external_type_specification]
#[verifier::external_body]
#[verifier::reject_recursive_types(T)]
pub struct ExOwnedPermit<T>(OwnedPermit<T>);

/// Why there is no slot in a channel.
#[derive(Debug, Clone, Copy, PartialEq, Eq, Structural)]
pub enum SlotError {
    /// All of them are taken.
    Full,
    /// Nobody receives any more.
    Closed,
}

/// `Sender::clone` makes another sender for the same channel. It is needed only to share
/// a state that holds a sender; nothing is believed of it.
pub assume_specification<T>[ <Sender<T> as Clone>::clone ](tx: &Sender<T>) -> Sender<T>;

/// A slot of a channel that is kept for one value.
#[verifier::reject_recursive_types(T)]
pub struct Slot<T> {
    permit: OwnedPermit<T>,
    tx: Ghost<Sender<T>>,
}

impl<T> Slot<T> {
    /// The sender whose channel the slot is of.
    pub closed spec fn through(&self) -> Sender<T> {
        self.tx@
    }
}

/// `Sender::try_reserve_owned`, on a clone of `tx`, takes a slot of the channel of `tx` if
/// there is one. Whether there is one depends on the other users of the channel, so that
/// is left open.
#[verifier::external_body]
pub(crate) fn reserve_slot<T>(tx: &Sender<T>) -> (r: Result<Slot<T>, SlotError>)
    ensures
        r matches Ok(slot) ==> slot.through() == *tx,
{
    match tx.clone().try_reserve_owned() {
        Ok(permit) => Ok(Slot { permit, tx: Ghost(*tx) }),
        Err(TrySendError::Full(_)) => Err(SlotError::Full),
        Err(TrySendError::Closed(_)) => Err(SlotError::Closed),
    }
}

/// The proof that a value was put into a slot of a channel.
#[verifier::reject_recursive_types(T)]
pub struct Sent<T> {
    slot: Ghost<Slot<T>>,
    value: Ghost<T>,
}

impl<T> Sent<T> {
    /// The slot.
    pub closed spec fn slot(&self) -> Slot<T> {
        self.slot@
    }

    /// What was put into it.
    pub closed spec fn value(&self) -> T {
        self.value@
    }

    /// `OwnedPermit::send` is believed to put `value` into the slot. It cannot fail. The
    /// sender that it returns is not used.
    #[verifier::external_body]
    pub(crate) fn put(slot: Slot<T>, value: T) -> (r: Sent<T>)
        ensures
            r.slot() == slot,
            r.value() == value,
    {
        let sent = Sent { slot: Ghost(slot), value: Ghost(value) };
        slot.permit.send(value);
        sent
    }
}

// ---- Chance and time ----

/// `RngCore::fill_bytes` of `rand::thread_rng` fills `dest` with random bytes. They
/// are believed to be as many as there were. What they are is left open; and if the
/// system has no randomness to give, which no argument decides, the call panics.
#[verifier::external_body]
pub(crate) fn fill_random(dest: &mut Vec<u8>)
    ensures
        final(dest)@.len() == old(dest)@.len(),
{
    rand::thread_rng().fill_bytes(dest.as_mut_slice())
}

/// `std::time::SystemTime`, a reading of the clock.
#[verifier::external_type_specification]
#[verifier::external_body]
pub struct ExSystemTime(SystemTime);

/// `std::time::SystemTimeError`, which says that one reading is before another.
#[verifier::external_type_specification]
#[verifier::external_body]
pub struct ExSystemTimeError(SystemTimeError);

/// `SystemTime::now` reads the clock. Nothing is believed of the reading.
pub assume_specification[ SystemTime::now ]() -> SystemTime;

/// `SystemTime::duration_since` the Unix epoch. Nothing is believed of the result.
#[verifier::external_body]
pub(crate) fn since_epoch(time: &SystemTime) -> Result<Duration, SystemTimeError> {
    time.duration_since(UNIX_EPOCH)
}

/// `Duration::as_nanos` counts the nanoseconds. As nothing is known of the durations
/// that are asked, nothing is believed of the count.
pub assume_specification[ Duration::as_nanos ](duration: &Duration) -> u128;

} // verus!
