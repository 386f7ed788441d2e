//! Picking indexes from a cumulative grid of weights, with or without repetition.

use crate::error::Error;
use crate::weight::{SIGN_BIT, is_nan_bits, is_zero_bits, INFINITY_BITS};
use vstd::prelude::*;
use vstd::set_lib::{lemma_int_range, lemma_len_subset, set_int_range};

verus! {

/// Floating-point `a <= b` on two binary64 encodings.
pub open spec fn le_bits(a: u64, b: u64) -> bool {
    if is_nan_bits(a) || is_nan_bits(b) {
        false
    } else if is_zero_bits(a) && is_zero_bits(b) {
        true
    } else if a < SIGN_BIT && b < SIGN_BIT {
        a <= b
    } else if a >= SIGN_BIT && b >= SIGN_BIT {
        a >= b
    } else {
        a >= SIGN_BIT
    }
}

/// Floating-point `a <= b` on two encoded values.
pub fn le(a: u64, b: u64) -> (r: bool)
    ensures
        r == le_bits(a, b),
{
    let ma = a % SIGN_BIT;
    let mb = b % SIGN_BIT;
    if ma > INFINITY_BITS || mb > INFINITY_BITS {
        false
    } else if ma == 0 && mb == 0 {
        true
    } else if a < SIGN_BIT && b < SIGN_BIT {
        a <= b
    } else if a >= SIGN_BIT && b >= SIGN_BIT {
        a >= b
    } else {
        a >= SIGN_BIT
    }
}

/// Locates the encoded value `val` in a cumulative grid: the first position
/// whose value is at least `val`, or the last position where there is none.
pub fn locate(grid: &Vec<u64>, val: u64) -> (r: usize)
    requires
        grid@.len() > 0,
    ensures
        r < grid@.len(),
        forall|j: int| 0 <= j < r ==> !le_bits(val, #[trigger] grid@[j]),
        le_bits(val, grid@[r as int]) || r == grid@.len() - 1,
{
    let mut i: usize = 0;
    while i < grid.len()
        invariant
            i <= grid@.len(),
            forall|j: int| 0 <= j < i ==> !le_bits(val, #[trigger] grid@[j]),
        decreases grid@.len() - i,
    {
        if le(val, grid[i]) {
            return i;
        }
        i = i + 1;
    }
    grid.len() - 1
}

/// One picking of `amount` indexes from a table of `table_len` entries, fed
/// with random draws: a draw of an index that is already picked is rejected
/// unless repetition is allowed.
pub struct Draw {
    repetitive: bool,
    amount: usize,
    taken: Vec<bool>,
    picked: Vec<usize>,
}

impl Draw {
    pub closed spec fn repetitive(&self) -> bool {
        self.repetitive
    }

    pub closed spec fn amount(&self) -> nat {
        self.amount as nat
    }

    pub closed spec fn table_len(&self) -> nat {
        self.taken@.len()
    }

    /// Offering the index `i` next would have it accepted.
    pub open spec fn would_accept(&self, i: usize) -> bool {
        i < self.table_len() && (self.repetitive() || !self.indexes().contains(i))
    }

    /// The indexes accepted so far, in order.
    pub closed spec fn indexes(&self) -> Seq<usize> {
        self.picked@
    }

    pub closed spec fn wf(&self) -> bool {
        &&& self.taken@.len() <= usize::MAX
        &&& self.picked@.len() <= self.amount
        &&& forall|j: int| 0 <= j < self.picked@.len() ==> #[trigger] self.picked@[j] < self.taken@.len()
        &&& !self.repetitive ==> {
            &&& self.amount <= self.taken@.len()
            &&& self.picked@.no_duplicates()
            &&& forall|i: usize|
                i < self.taken@.len() ==> #[trigger] self.taken@[i as int] == self.picked@.contains(i)
        }
    }

    /// Starts a picking; fails with `InvalidAmount` where repetition is not
    /// allowed and `amount` exceeds `table_len`, since it could never end.
    pub fn start(table_len: usize, repetitive: bool, amount: usize) -> (r: Result<Draw, Error>)
        ensures
            r is Err <==> !repetitive && amount > table_len,
            r is Err ==> r->Err_0 is InvalidAmount,
            r is Ok ==> {
                let d = r->Ok_0;
                &&& d.wf()
                &&& d.repetitive() == repetitive
                &&& d.amount() == amount
                &&& d.table_len() == table_len
                &&& d.indexes() == Seq::<usize>::empty()
            },
    {
        if !repetitive && amount > table_len {
            return Err(Error::InvalidAmount);
        }
        let mut taken: Vec<bool> = Vec::new();
        let mut i: usize = 0;
        while i < table_len
            invariant
                i <= table_len,
                taken@.len() == i,
                forall|j: int| 0 <= j < i ==> !#[trigger] taken@[j],
            decreases table_len - i,
        {
            taken.push(false);
            i = i + 1;
        }
        Ok(Draw { repetitive, amount, taken, picked: Vec::new() })
    }

    /// Whether `amount` indexes have been accepted.
    pub fn is_complete(&self) -> (r: bool)
        requires
            self.wf(),
        ensures
            r == (self.indexes().len() == self.amount()),
    {
        self.picked.len() == self.amount
    }

    /// Offers the drawn index `i`; returns whether it was accepted.
    pub fn offer(&mut self, i: usize) -> (accepted: bool)
        requires
            old(self).wf(),
            i < old(self).table_len(),
            old(self).indexes().len() < old(self).amount(),
        ensures
            final(self).wf(),
            final(self).repetitive() == old(self).repetitive(),
            final(self).amount() == old(self).amount(),
            final(self).table_len() == old(self).table_len(),
            accepted == old(self).would_accept(i),
            final(self).indexes() == if accepted {
                old(self).indexes().push(i)
            } else {
                old(self).indexes()
            },
    {
        if !self.repetitive {
            if self.taken[i] {
                return false;
            }
            let ghost before = self.picked@;
            self.taken.set(i, true);
            self.picked.push(i);
            proof {
                assert forall|x: usize| #[trigger] self.picked@.contains(x) <==> (before.contains(x)
                    || x == i) by {
                    if self.picked@.contains(x) {
                        let j = choose|j: int| 0 <= j < self.picked@.len() && self.picked@[j] == x;
                        if j < before.len() {
                            assert(before[j] == x);
                        }
                    }
                    if before.contains(x) {
                        let j = choose|j: int| 0 <= j < before.len() && before[j] == x;
                        assert(self.picked@[j] == x);
                    }
                    if x == i {
                        assert(self.picked@[before.len() as int] == x);
                    }
                }
                assert forall|j: int| 0 <= j < self.picked@.len() implies #[trigger] self.picked@[j]
                    < self.taken@.len() by {
                    if j < before.len() {
                        assert(self.picked@[j] == before[j]);
                    }
                }
            }
        } else {
            let ghost before = self.picked@;
            self.picked.push(i);
            proof {
                assert forall|j: int| 0 <= j < self.picked@.len() implies #[trigger] self.picked@[j]
                    < self.taken@.len() by {
                    if j < before.len() {
                        assert(self.picked@[j] == before[j]);
                    }
                }
            }
        }
        true
    }

    /// The indexes accepted so far, in order.
    pub fn picked(&self) -> (r: &Vec<usize>)
        ensures
            r@ == self.indexes(),
    {
        &self.picked
    }
}

/// A picking that is not yet complete can always go on: some index of the
/// table would be accepted, so a source of draws that reaches every index ends
/// it. (Without repetition this rests on `amount` not exceeding the table.)
pub proof fn lemma_draw_can_progress(d: &Draw)
    requires
        d.wf(),
        d.indexes().len() < d.amount(),
        d.repetitive() ==> d.table_len() > 0,
    ensures
        exists|i: usize| #[trigger] d.would_accept(i),
{
    if d.repetitive() {
        assert(d.would_accept(0usize));
    } else {
        let n = d.table_len() as int;
        let t = d.indexes().map_values(|x: usize| x as int);
        t.lemma_cardinality_of_set();
        lemma_int_range(0, n);
        if forall|i: usize| i < d.table_len() ==> d.indexes().contains(i) {
            assert forall|x: int| set_int_range(0, n).contains(x) implies t.to_set().contains(x) by {
                assert(d.indexes().contains(x as usize));
                let j = choose|j: int| 0 <= j < d.indexes().len() && d.indexes()[j] == x as usize;
                assert((x as usize) as int == x);
                assert(t[j] == x);
            }
            lemma_len_subset(set_int_range(0, n), t.to_set());
            assert(false);
        }
        let i = choose|i: usize| !(i < d.table_len() ==> d.indexes().contains(i));
        assert(d.would_accept(i));
    }
}

/// Adds one to the count of every index that occurs in `picked`, once however
/// often it occurs.
pub fn tally(freq: &mut Vec<usize>, picked: &Vec<usize>)
    requires
        forall|j: int| 0 <= j < picked@.len() ==> #[trigger] picked@[j] < old(freq)@.len(),
        forall|i: usize| #[trigger] picked@.contains(i) ==> old(freq)@[i as int] < usize::MAX,
    ensures
        final(freq)@.len() == old(freq)@.len(),
        forall|i: usize|
            i < old(freq)@.len() ==> #[trigger] final(freq)@[i as int] == old(freq)@[i as int] + if picked@.contains(i) {
                1int
            } else {
                0int
            },
{
    let n = freq.len();
    let mut seen: Vec<bool> = Vec::new();
    let mut i: usize = 0;
    while i < n
        invariant
            i <= n,
            n == freq@.len(),
            seen@.len() == i,
            forall|j: int| 0 <= j < i ==> !#[trigger] seen@[j],
        decreases n - i,
    {
        seen.push(false);
        i = i + 1;
    }
    let mut k: usize = 0;
    while k < picked.len()
        invariant
            k <= picked@.len(),
            seen@.len() == n,
            freq@.len() == n,
            n == old(freq)@.len(),
            forall|j: int| 0 <= j < picked@.len() ==> #[trigger] picked@[j] < n,
            forall|x: usize| #[trigger] picked@.contains(x) ==> old(freq)@[x as int] < usize::MAX,
            forall|x: usize|
                x < n ==> #[trigger] seen@[x as int] == picked@.take(k as int).contains(x),
            forall|x: usize|
                x < n ==> #[trigger] freq@[x as int] == old(freq)@[x as int] + if seen@[x as int] {
                    1int
                } else {
                    0int
                },
        decreases picked@.len() - k,
    {
        let idx = picked[k];
        proof {
            assert forall|x: usize| #[trigger] picked@.take(k + 1).contains(x) <==> (picked@.take(
                k as int,
            ).contains(x) || x == idx) by {
                let a = picked@.take(k as int);
                let b = picked@.take(k + 1);
                if b.contains(x) {
                    let j = choose|j: int| 0 <= j < b.len() && b[j] == x;
                    if j < a.len() {
                        assert(a[j] == x);
                    }
                }
                if a.contains(x) {
                    let j = choose|j: int| 0 <= j < a.len() && a[j] == x;
                    assert(b[j] == x);
                }
                if x == idx {
                    assert(b[k as int] == x);
                }
            }
            assert(picked@.contains(idx));
        }
        if !seen[idx] {
            freq.set(idx, freq[idx] + 1);
            seen.set(idx, true);
        }
        k = k + 1;
    }
    proof {
        assert(picked@.take(k as int) == picked@);
    }
}

} // verus!
