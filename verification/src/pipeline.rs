//! The consumer side of a packing pipeline.
//!
//! Chunks may be compressed by many workers at once and arrive in any
//! order, but they must be written in the order of their positions. A
//! [`ReorderBuffer`] takes what arrives, keeps what has come early, and
//! releases every payload exactly once, in order.

use crate::codec::bytes_of;
use crate::error::DzipError;
use vstd::prelude::*;

verus! {

/// The first position from `i` on for which nothing has arrived, or the
/// number of positions where everything from `i` on has.
pub open spec fn run_end(arrived: Seq<Option<Seq<u8>>>, i: int) -> int
    decreases arrived.len() - i,
{
    if i < 0 || i >= arrived.len() || arrived[i] is None {
        i
    } else {
        run_end(arrived, i + 1)
    }
}

/// Payloads that arrived before their turn, and whose turn is next.
pub struct ReorderBuffer {
    next: usize,
    pending: Vec<Option<Vec<u8>>>,
}

impl ReorderBuffer {
    /// What holds of every buffer that was made by [`ReorderBuffer::new`]:
    /// nothing is held for a position that has been released.
    pub closed spec fn wf(&self) -> bool {
        &&& self.next <= self.pending@.len()
        &&& forall|i: int| 0 <= i < self.next ==> (#[trigger] self.pending@[i]) is None
    }

    /// The position whose payload is written next.
    pub closed spec fn next_position(&self) -> int {
        self.next as int
    }

    /// How many positions there are.
    pub closed spec fn total(&self) -> int {
        self.pending@.len() as int
    }

    /// What is held for each position: a payload that arrived early, or nothing.
    pub closed spec fn held(&self) -> Seq<Option<Seq<u8>>> {
        self.pending@.map_values(|p: Option<Vec<u8>>| bytes_of(p))
    }

    /// A buffer for `total` payloads, none of which has arrived.
    pub fn new(total: usize) -> (buffer: Self)
        ensures
            buffer.wf(),
            buffer.next_position() == 0,
            buffer.total() == total,
            forall|i: int| 0 <= i < total ==> (#[trigger] buffer.held()[i]) is None,
    {
        let mut pending: Vec<Option<Vec<u8>>> = Vec::new();
        let mut k: usize = 0;
        while k < total
            invariant
                k <= total,
                pending@.len() == k,
                forall|i: int| 0 <= i < k ==> (#[trigger] pending@[i]) is None,
            decreases total - k,
        {
            pending.push(None);
            k += 1;
        }
        ReorderBuffer { next: 0, pending }
    }

    /// The position whose payload is written next.
    pub fn next(&self) -> (n: usize)
        requires
            self.wf(),
        ensures
            n == self.next_position(),
            n <= self.total(),
    {
        self.next
    }

    /// Takes the payload for `position` and gives back the payloads that
    /// can be written now, in the order of their positions.
    ///
    /// A payload whose turn it is comes back at once, followed by those
    /// that were held for the positions right behind it. A payload that is
    /// early is held, and nothing comes back. Fails with `Internal`, and
    /// changes nothing, where the position does not exist, has been
    /// written already, or has a payload waiting.
    pub fn accept(&mut self, position: usize, payload: Vec<u8>) -> (r: Result<
        Vec<Vec<u8>>,
        DzipError,
    >)
        requires
            old(self).wf(),
        ensures
            final(self).wf(),
            final(self).total() == old(self).total(),
            position >= old(self).total() || position < old(self).next_position() || old(
                self).held()[position as int] is Some ==> r is Err && r->Err_0 is Internal && final(
                self).next_position() == old(self).next_position() && final(self).held() == old(
                self).held(),
            old(self).next_position() <= position < old(self).total() && old(
                self).held()[position as int] is None ==> ({
                let arrived = old(self).held().update(position as int, Some(payload@));
                let start = old(self).next_position();
                let end = run_end(arrived, start);
                &&& r is Ok
                &&& final(self).next_position() == end
                &&& r->Ok_0@.len() == end - start
                &&& forall|k: int|
                    0 <= k < end - start ==> Some((#[trigger] r->Ok_0@[k])@) == arrived[start + k]
                &&& forall|i: int|
                    0 <= i < arrived.len() ==> (#[trigger] final(self).held()[i]) == if start <= i
                        < end {
                        None
                    } else {
                        arrived[i]
                    }
            }),
    {
        if position >= self.pending.len() || position < self.next || self.pending[position].is_some() {
            return Err(DzipError::Internal(String::from_str("payload arrived twice or out of range")));
        }
        let ghost arrived = self.held().update(position as int, Some(payload@));
        let ghost start = self.next as int;
        let total = self.pending.len();
        self.pending.set(position, Some(payload));
        proof {
            assert(self.pending@.map_values(|p: Option<Vec<u8>>| bytes_of(p)) =~= arrived);
        }
        let mut released: Vec<Vec<u8>> = Vec::new();
        let mut at: usize = self.next;
        while at < total && self.pending[at].is_some()
            invariant
                self.next == start,
                start <= at <= total == self.pending@.len() == arrived.len(),
                released@.len() == at - start,
                run_end(arrived, start) == run_end(arrived, at as int),
                forall|k: int|
                    0 <= k < at - start ==> Some((#[trigger] released@[k])@) == arrived[start + k],
                forall|i: int|
                    0 <= i < total ==> bytes_of(#[trigger] self.pending@[i]) == if start <= i < at {
                        None
                    } else {
                        arrived[i]
                    },
                forall|i: int| 0 <= i < start ==> arrived[i] is None,
            decreases total - at,
        {
            let mut slot: Option<Vec<u8>> = None;
            core::mem::swap(&mut self.pending[at], &mut slot);
            match slot {
                Some(bytes) => {
                    released.push(bytes);
                },
                None => {},
            }
            at += 1;
        }
        self.next = at;
        proof {
            assert(self.held() =~= Seq::new(
                arrived.len(),
                |i: int|
                    if start <= i < at {
                        None
                    } else {
                        arrived[i]
                    },
            ));
        }
        Ok(released)
    }

    /// Ends the pipeline. Fails with `Internal` where payloads are still
    /// missing: the producers have gone away before they were done.
    pub fn finish(&self) -> (r: Result<(), DzipError>)
        requires
            self.wf(),
        ensures
            self.next_position() == self.total() ==> r is Ok,
            self.next_position() != self.total() ==> r is Err && r->Err_0 is Internal,
    {
        if self.next == self.pending.len() {
            Ok(())
        } else {
            Err(DzipError::Internal(String::from_str("compression disconnected")))
        }
    }
}

} // verus!
