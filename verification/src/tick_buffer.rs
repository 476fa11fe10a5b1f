//! A fixed-capacity ring of independently random tick identifiers. The
//! engine mints one identifier per tick; the ring keeps a bounded lookback
//! window of depth `N - 1` so stale input citing an expired identifier can
//! be recognised and rejected.

use vstd::prelude::*;

use crate::rng::random_u64;

verus! {

/// A ring of `N` random slots plus a cursor.
#[derive(Debug)]
pub struct TickBuffer<const N: usize> {
    inner: Vec<u64>,
    index: usize,
}

/// The slot reached by stepping `s` slots backward from `i` in a ring of
/// `n` slots.
pub open spec fn ring_back(i: int, s: int, n: int) -> int
    recommends
        n >= 1,
        0 <= i < n,
        0 <= s <= n,
{
    (i + n - s) % n
}

impl<const N: usize> TickBuffer<N> {
    /// The ring holds exactly `N` slots and the cursor stays in range.
    pub closed spec fn wf(self) -> bool {
        self.inner@.len() == N && self.index < N && N >= 1
    }

    /// The slot values, cursor slot first going backward is `slots()[ring_back(cursor(), s, N)]`.
    pub closed spec fn slots(self) -> Seq<u64> {
        self.inner@
    }

    /// The cursor: the slot the next mint will return.
    pub closed spec fn cursor(self) -> int {
        self.index as int
    }

    /// A ring with every slot independently randomized and the cursor at
    /// the first slot.
    pub fn new() -> (r: Self)
        requires
            N >= 1,
        ensures
            r.wf(),
            r.cursor() == 0,
            r.slots().len() == N,
    {
        let mut inner: Vec<u64> = Vec::new();
        let mut i: usize = 0;
        while i < N
            invariant
                inner@.len() == i,
                i <= N,
            decreases N - i,
        {
            inner.push(random_u64());
            i = i + 1;
        }
        TickBuffer { inner, index: 0 }
    }

    /// Mint the identifier at the cursor: return it, refresh exactly that
    /// one slot with a new random value, and advance the cursor past it.
    pub fn next(&mut self) -> (r: u64)
        requires
            old(self).wf(),
        ensures
            final(self).wf(),
            r == old(self).slots()[old(self).cursor()],
            final(self).cursor() == (old(self).cursor() + 1) % (N as int),
            final(self).slots().len() == N,
            forall|i: int|
                0 <= i < N && i != final(self).cursor() ==> final(self).slots()[i] == old(
                    self,
                ).slots()[i],
    {
        let val = self.inner[self.index];
        self.index = (self.index + 1) % N;
        self.inner.set(self.index, random_u64());
        val
    }

    /// Peek at the identifier the next mint will return, without mutating
    /// the ring.
    pub fn current(&self) -> (r: u64)
        requires
            self.wf(),
        ensures
            r == self.slots()[self.cursor()],
    {
        self.inner[self.index]
    }

    /// Scan backward from the slot before the cursor: the number of
    /// backward steps at which `val` is first found, or `None` when `val`
    /// does not appear within the last `N - 1` emitted identifiers (it has
    /// expired, or was never emitted).
    pub fn since(&self, val: u64) -> (r: Option<usize>)
        requires
            self.wf(),
        ensures
            match r {
                Some(s) => {
                    &&& 1 <= s < N
                    &&& self.slots()[ring_back(self.cursor(), s as int, N as int)] == val
                    &&& forall|t: int|
                        1 <= t < s ==> self.slots()[#[trigger] ring_back(self.cursor(), t, N as int)] != val
                },
                None => forall|t: int|
                    1 <= t < N ==> self.slots()[#[trigger] ring_back(self.cursor(), t, N as int)] != val,
            },
    {
        let mut steps: usize = 1;
        while steps < N
            invariant
                self.wf(),
                1 <= steps <= N,
                forall|t: int|
                    1 <= t < steps ==> self.slots()[#[trigger] ring_back(self.cursor(), t, N as int)] != val,
            decreases N - steps,
        {
            let check = if self.index >= steps {
                self.index - steps
            } else {
                self.index + (N - steps)
            };
            proof {
                let a = self.cursor() + N - steps;
                if self.index >= steps {
                    assert(a % (N as int) == a - N) by (nonlinear_arith)
                        requires
                            N <= a < 2 * (N as int),
                            N >= 1,
                    ;
                } else {
                    assert(a % (N as int) == a) by (nonlinear_arith)
                        requires
                            0 <= a < N,
                            N >= 1,
                    ;
                }
            }
            assert(check == ring_back(self.cursor(), steps as int, N as int));
            if self.inner[check] == val {
                return Some(steps);
            }
            steps = steps + 1;
        }
        None
    }
}

} // verus!
