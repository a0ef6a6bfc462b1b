//! A limit on the bytes that wait to be written, shared by all requests: each
//! request reserves the bytes of its body and gives them back when it is done.

use std::sync::Arc;
use vstd::prelude::*;

use crate::outside::{Counter, Share};

verus! {

/// Why bytes cannot be reserved.
#[derive(Debug, Clone, Copy, PartialEq, Eq, Structural)]
pub enum ByteBudgetError {
    /// Too many bytes are in use now.
    Full,
    /// The request is larger than the whole budget.
    TooLarge,
}

/// A number of bytes that may be in use at a time, and a count of those that are.
/// The count is shared between threads; at which point among its changes a call comes
/// depends on the others. So the calls promise their answers for what the count holds at
/// one such point, and the change that they make there. What is added through any handle
/// is in the count no longer than the handle lasts. What the calls come to for the count
/// is in [`crate::ledger`].
pub struct ByteBudget {
    max_bytes: usize,
    used_bytes: Counter,
}

/// Bytes of a budget that are in use until this is dropped.
pub struct ByteReservation {
    budget: Arc<ByteBudget>,
    bytes: usize,
    share: Share,
}

/// The count after `bytes` are added to `used`, if the budget allows for them.
pub open spec fn charged(used: usize, bytes: usize, max_bytes: usize) -> Option<usize> {
    if used + bytes <= max_bytes {
        Some((used + bytes) as usize)
    } else {
        None
    }
}

/// What a request for `bytes` comes to when it finds `used` in the count: the new
/// count, or the error.
pub open spec fn granted(used: usize, bytes: usize, max_bytes: usize) -> Result<
    usize,
    ByteBudgetError,
> {
    if bytes > max_bytes {
        Err(ByteBudgetError::TooLarge)
    } else {
        match charged(used, bytes, max_bytes) {
            Some(now_used) => Ok(now_used),
            None => Err(ByteBudgetError::Full),
        }
    }
}

/// `used` less `bytes`, as a counter of this width computes it.
pub open spec fn taken_off(used: usize, bytes: usize) -> usize {
    if bytes <= used {
        (used - bytes) as usize
    } else {
        (used - bytes + usize::MAX + 1) as usize
    }
}

/// What a request to make a reservation of `size` one of `bytes` comes to when it finds
/// `used` in the count: the new count, or the error.
pub open spec fn regranted(used: usize, size: usize, bytes: usize, max_bytes: usize) -> Result<
    usize,
    ByteBudgetError,
> {
    if bytes > size {
        granted(used, (bytes - size) as usize, max_bytes)
    } else {
        Ok(taken_off(used, (size - bytes) as usize))
    }
}

/// Whether `n` is what [`ByteBudget::used_bytes`] gives when it looks at the count after
/// `k` changes.
pub open spec fn reads(counter: Counter, k: nat, n: usize) -> bool {
    n == counter.at(k)
}

/// Whether `after` and `r` are what a request to add `bytes` to the count makes of the
/// handle `before` when it comes after `k` changes of the count. If it is granted it is the
/// next change.
pub open spec fn adds(
    budget: ByteBudget,
    before: Share,
    bytes: usize,
    k: nat,
    after: Share,
    r: Result<(), ByteBudgetError>,
) -> bool {
    &&& after.counter() == before.counter()
    &&& before.seen() <= k
    &&& match granted(before.counter().at(k), bytes, budget.limit()) {
        Ok(now_used) => {
            &&& r is Ok
            &&& before.counter().at(k + 1) == now_used
            &&& after.net() == before.net() + bytes
            &&& after.seen() == k + 1
        },
        Err(error) => {
            &&& r matches Err(e) && e == error
            &&& after.net() == before.net()
            &&& after.seen() == k
        },
    }
}

/// Whether `after` is what taking `bytes` off the count makes of the handle `before` when
/// it comes after `k` changes of the count. If there are any bytes it is the next change.
pub open spec fn releases(before: Share, bytes: usize, k: nat, after: Share) -> bool {
    &&& after.counter() == before.counter()
    &&& after.net() == before.net() - bytes
    &&& before.seen() <= k
    &&& if bytes > 0 {
        &&& before.counter().at(k + 1) == before.counter().at(k) - bytes
        &&& after.seen() == k + 1
    } else {
        after.seen() == k
    }
}

/// Whether `r` is what [`ByteBudget::try_reserve`] gives when it comes after `k` changes of
/// the count. A reservation has its bytes in the count, and putting them there is the next
/// change. A refused request has no handle left, and so nothing in the count.
pub open spec fn reserves(
    budget: Arc<ByteBudget>,
    bytes: usize,
    k: nat,
    r: Result<ByteReservation, ByteBudgetError>,
) -> bool {
    match granted(budget.counter().at(k), bytes, budget.limit()) {
        Ok(now_used) => {
            &&& r matches Ok(reservation)
            &&& reservation.wf()
            &&& reservation.size() == bytes
            &&& reservation.budget() == budget
            &&& budget.counter().at(k + 1) == now_used
            &&& reservation.seen() == k + 1
        },
        Err(error) => r matches Err(e) && e == error,
    }
}

/// Whether `after` and `r` are what [`ByteReservation::resize`] makes of `before` when it
/// comes after `k` changes of the count. If the size changes so does the count, by as much.
pub open spec fn resizes(
    before: ByteReservation,
    bytes: usize,
    k: nat,
    after: ByteReservation,
    r: Result<(), ByteBudgetError>,
) -> bool {
    let counter = before.counter();
    &&& after.budget() == before.budget()
    &&& after.counter() == counter
    &&& before.seen() <= k
    &&& after.seen() == (if after.size() == before.size() {
        k
    } else {
        k + 1
    })
    &&& match regranted(counter.at(k), before.size(), bytes, before.budget().limit()) {
        Ok(_) => {
            &&& r is Ok
            &&& after.size() == bytes
            &&& after.counted() == before.counted() + (bytes - before.size())
            &&& bytes != before.size() ==> counter.at(k + 1) == counter.at(k) + (bytes
                - before.size())
        },
        Err(error) => {
            &&& r matches Err(e) && e == error
            &&& after.size() == before.size()
            &&& after.counted() == before.counted()
        },
    }
}

/// Whether `after` is what is left of `before` when it has been dropped after `k` changes
/// of the count: its bytes are off the count, and if there are any, that is the next
/// change.
pub open spec fn drops(before: ByteReservation, k: nat, after: ByteReservation) -> bool {
    let counter = before.counter();
    &&& after.counter() == counter
    &&& after.counted() == before.counted() - before.size()
    &&& before.seen() <= k
    &&& if before.size() > 0 {
        &&& counter.at(k + 1) == counter.at(k) - before.size()
        &&& after.seen() == k + 1
    } else {
        after.seen() == k
    }
}

/// The error that a request for `bytes` meets when it comes after `k` changes of the
/// count, if any.
pub open spec fn error_at(
    counter: Counter,
    k: nat,
    bytes: usize,
    max_bytes: usize,
) -> Option<ByteBudgetError> {
    match granted(counter.at(k), bytes, max_bytes) {
        Ok(_) => None,
        Err(e) => Some(e),
    }
}

/// Whether a request for `bytes` can meet `error`, or none, by what the count holds at one
/// moment or another, which is never more than the budget.
pub open spec fn can_meet(
    error: Option<ByteBudgetError>,
    counter: Counter,
    bytes: usize,
    max_bytes: usize,
) -> bool {
    exists|k: nat|
        counter.at(k) <= max_bytes && #[trigger] error_at(counter, k, bytes, max_bytes) == error
}

/// The error in `r`, if any.
pub open spec fn error_of<T>(r: Result<T, ByteBudgetError>) -> Option<ByteBudgetError> {
    match r {
        Ok(_) => None,
        Err(e) => Some(e),
    }
}

/// Adds `bytes` to `used` if the budget allows for them.
pub fn charge(used: usize, bytes: usize, max_bytes: usize) -> (r: Option<usize>)
    ensures
        r == charged(used, bytes, max_bytes),
{
    match used.checked_add(bytes) {
        Some(now_used) => if now_used <= max_bytes {
            Some(now_used)
        } else {
            None
        },
        None => None,
    }
}

impl ByteBudget {
    /// The count is kept within the budget.
    #[verifier::type_invariant]
    spec fn bounded(self) -> bool {
        &&& self.used_bytes.bound() == self.max_bytes
        &&& forall|k: nat| #[trigger] self.used_bytes.at(k) <= self.max_bytes
    }

    /// The number of bytes that may be in use at a time.
    pub closed spec fn limit(&self) -> usize {
        self.max_bytes
    }

    /// Where the bytes in use are counted.
    pub closed spec fn counter(&self) -> Counter {
        self.used_bytes
    }

    /// A budget of `max_bytes`, none of them in use. However often the count changes, it is
    /// never more than the budget.
    pub fn new(max_bytes: usize) -> (r: Self)
        ensures
            r.limit() == max_bytes,
            r.counter().at(0) == 0,
            forall|k: nat| #[trigger] r.counter().at(k) <= max_bytes,
    {
        ByteBudget { max_bytes, used_bytes: Counter::starting_at(0, max_bytes) }
    }

    /// The number of bytes that may be in use at a time.
    pub fn max_bytes(&self) -> (n: usize)
        ensures
            n == self.limit(),
    {
        self.max_bytes
    }

    /// The number of bytes in use at some moment, which is never more than the budget.
    /// Other threads reserve and give back meanwhile.
    pub fn used_bytes(&self) -> (n: usize)
        ensures
            n <= self.limit(),
            exists|k: nat| #[trigger] reads(self.counter(), k, n),
    {
        proof {
            use_type_invariant(self);
        }
        let n: usize = self.used_bytes.load();
        let ghost k = choose|k: nat| #[trigger] self.used_bytes.at(k) == n;
        assert(reads(self.counter(), k, n));
        n
    }

    /// Reserves `bytes` until the reservation is dropped. To reserve nothing never fails.
    pub fn try_reserve(self: &Arc<Self>, bytes: usize) -> (r: Result<
        ByteReservation,
        ByteBudgetError,
    >)
        ensures
            bytes > self.limit() <==> r matches Err(ByteBudgetError::TooLarge),
            bytes == 0 ==> r is Ok,
            can_meet(error_of(r), self.counter(), bytes, self.limit()),
            exists|k: nat|
                self.counter().at(k) <= self.limit() && #[trigger] reserves(*self, bytes, k, r),
            r matches Ok(reservation) ==> {
                &&& reservation.wf()
                &&& reservation.size() == bytes
                &&& reservation.budget() == *self
            },
    {
        let mut share: Share = Share::of(&self.used_bytes);
        let ghost before = share;
        let outcome: Result<(), ByteBudgetError> = self.add_bytes(bytes, &mut share);
        let ghost k = choose|k: nat|
            self.counter().at(k) <= self.limit() && #[trigger] adds(
                **self,
                before,
                bytes,
                k,
                share,
                outcome,
            );
        assert(error_at(self.counter(), k, bytes, self.limit()) == error_of(outcome));
        match outcome {
            Ok(()) => {
                let r: Result<ByteReservation, ByteBudgetError> = Ok(
                    ByteReservation { budget: Arc::clone(self), bytes, share },
                );
                assert(reserves(*self, bytes, k, r));
                r
            },
            Err(e) => {
                let r: Result<ByteReservation, ByteBudgetError> = Err(e);
                assert(reserves(*self, bytes, k, r));
                r
            },
        }
    }

    /// Adds `bytes` to the count, through `share`, if the budget allows for them.
    fn add_bytes(&self, bytes: usize, share: &mut Share) -> (r: Result<(), ByteBudgetError>)
        requires
            old(share).counter() == self.counter(),
        ensures
            bytes == 0 ==> r is Ok,
            exists|k: nat|
                self.counter().at(k) <= self.limit() && #[trigger] adds(
                    *self,
                    *old(share),
                    bytes,
                    k,
                    *final(share),
                    r,
                ),
        opens_invariants none
        no_unwind
    {
        proof {
            use_type_invariant(self);
        }
        let ghost before = *share;
        let max_bytes: usize = self.max_bytes;
        if bytes > max_bytes {
            let r: Result<(), ByteBudgetError> = Err(ByteBudgetError::TooLarge);
            assert(self.counter().at(share.seen()) <= self.limit());
            assert(adds(*self, before, bytes, share.seen(), *share, r));
            return r;
        }
        let step = |used: usize| -> (now_used: Option<usize>)
            ensures
                now_used == charged(used, bytes, max_bytes),
            { charge(used, bytes, max_bytes) };
        let had: usize = share.held();
        let held: usize = if bytes <= usize::MAX - had {
            had + bytes
        } else {
            had
        };
        match share.exchange(step, held) {
            Ok(used) => {
                let r: Result<(), ByteBudgetError> = Ok(());
                let ghost (k, next) = choose|k: nat, next: usize| #[trigger]
                    before.counter().changes(k, used, next) && call_ensures(
                        step,
                        (used,),
                        Some(next),
                    ) && share.net() == before.net() + next - used && before.seen() <= k
                        && share.seen() == k + 1;
                assert(adds(*self, before, bytes, k, *share, r));
                r
            },
            Err(used) => {
                let r: Result<(), ByteBudgetError> = Err(ByteBudgetError::Full);
                assert(adds(*self, before, bytes, share.seen(), *share, r));
                r
            },
        }
    }

    /// Takes `bytes` off the count, through `share`.
    fn release(&self, share: &mut Share, bytes: usize)
        requires
            bytes <= old(share).net(),
        ensures
            exists|k: nat| #[trigger] releases(*old(share), bytes, k, *final(share)),
        opens_invariants none
        no_unwind
    {
        let ghost before = *share;
        if bytes > 0 {
            let found: usize = share.take_off(bytes, share.held() - bytes);
            let ghost (k, next) = choose|k: nat, next: usize| #[trigger]
                before.counter().changes(k, found, next) && next == found - bytes && before.seen()
                    <= k && share.seen() == k + 1;
            assert(releases(before, bytes, k, *share));
        } else {
            assert(releases(before, bytes, share.seen(), *share));
        }
    }
}

impl ByteReservation {
    /// The bytes that are reserved are in the count of their budget.
    #[verifier::type_invariant]
    spec fn covered(self) -> bool {
        &&& self.bytes <= self.share.net()
        &&& self.share.counter() == self.budget.counter()
    }

    /// How many bytes are reserved.
    pub closed spec fn size(&self) -> usize {
        self.bytes
    }

    /// The budget that the bytes are part of.
    pub closed spec fn budget(&self) -> Arc<ByteBudget> {
        self.budget
    }

    /// Where the bytes are counted.
    pub closed spec fn counter(&self) -> Counter {
        self.share.counter()
    }

    /// How many bytes this reservation has in the count: what has been added for it, less
    /// what has been taken off.
    pub closed spec fn counted(&self) -> int {
        self.share.net()
    }

    /// How many changes of the count had come when this reservation last touched it.
    pub closed spec fn seen(&self) -> nat {
        self.share.seen()
    }

    /// The bytes that are reserved are in the count of their budget, and no others.
    pub open spec fn wf(&self) -> bool {
        &&& self.counted() == self.size()
        &&& self.counter() == self.budget().counter()
    }

    /// The size of the budget that the bytes are part of.
    pub fn max_bytes(&self) -> (n: usize)
        ensures
            n == self.budget().limit(),
    {
        self.budget.max_bytes()
    }

    /// Makes the reservation one of `bytes`, and adds the difference to the count or
    /// takes it off. To give bytes back never fails. If there are not enough bytes for a
    /// larger reservation, it stays as it is.
    pub fn resize(&mut self, bytes: usize) -> (r: Result<(), ByteBudgetError>)
        ensures
            exists|k: nat|
                old(self).counter().at(k) <= old(self).budget().limit() && #[trigger] resizes(
                    *old(self),
                    bytes,
                    k,
                    *final(self),
                    r,
                ),
            final(self).budget() == old(self).budget(),
            final(self).size() == (if r is Ok {
                bytes
            } else {
                old(self).size()
            }),
            final(self).counted() == old(self).counted() + (final(self).size() - old(self).size()),
            old(self).wf() ==> final(self).wf(),
            bytes <= old(self).size() ==> r is Ok,
            bytes > old(self).size() ==> can_meet(
                error_of(r),
                old(self).budget().counter(),
                (bytes - old(self).size()) as usize,
                old(self).budget().limit(),
            ),
    {
        proof {
            use_type_invariant(&*self);
            use_type_invariant(&*self.budget);
        }
        let ghost before = *self;
        let ghost mut k: nat = 0;
        if bytes > self.bytes {
            let extra: usize = bytes - self.bytes;
            let outcome: Result<(), ByteBudgetError> = self.budget.add_bytes(
                extra,
                &mut self.share,
            );
            proof {
                let b = *self.budget;
                k = choose|k: nat|
                    b.counter().at(k) <= b.limit() && #[trigger] adds(
                        b,
                        before.share,
                        extra,
                        k,
                        self.share,
                        outcome,
                    );
                assert(error_at(b.counter(), k, extra, b.limit()) == error_of(outcome));
            }
            match outcome {
                Ok(()) => {
                    self.bytes = bytes;
                },
                Err(e) => {
                    let r: Result<(), ByteBudgetError> = Err(e);
                    assert(resizes(before, bytes, k, *self, r));
                    return r;
                },
            }
        } else {
            let unused: usize = self.bytes - bytes;
            self.bytes = bytes;
            self.budget.release(&mut self.share, unused);
            proof {
                k = choose|k: nat| #[trigger] releases(before.share, unused, k, self.share);
            }
        }
        let r: Result<(), ByteBudgetError> = Ok(());
        assert(resizes(before, bytes, k, *self, r));
        r
    }
}

impl Drop for ByteReservation {
    /// Takes the bytes off the count.
    fn drop(&mut self)
        ensures
            exists|k: nat| #[trigger] drops(*old(self), k, *final(self)),
            old(self).wf() ==> final(self).counted() == 0,
        opens_invariants none
        no_unwind
    {
        proof {
            use_type_invariant(&*self);
        }
        let ghost before = *self;
        let bytes: usize = self.bytes;
        self.bytes = 0;
        self.budget.release(&mut self.share, bytes);
        let ghost k = choose|k: nat| #[trigger] releases(before.share, bytes, k, self.share);
        assert(drops(before, k, *self));
    }
}

} // verus!
