//! Validation and filtering of weight tables.

use crate::error::Error;
use crate::weight::{
    is_negative, is_negative_bits, is_positive, is_positive_bits, is_zero, is_zero_bits,
    same_value, same_value_bits,
};
use vstd::prelude::*;

verus! {

/// A weight that makes the whole table unusable.
pub open spec fn rejects(w: u64, inversed: bool) -> bool {
    is_negative_bits(w) || (inversed && is_zero_bits(w))
}

/// The table can be used: no weight is rejected and at least one is positive.
pub open spec fn table_valid(ws: Seq<u64>, inversed: bool) -> bool {
    &&& forall|i: int| 0 <= i < ws.len() ==> !rejects(#[trigger] ws[i], inversed)
    &&& exists|i: int| 0 <= i < ws.len() && is_positive_bits(#[trigger] ws[i])
}

/// The table is valid and all its weights are equal.
pub open spec fn table_fair(ws: Seq<u64>, inversed: bool) -> bool {
    &&& table_valid(ws, inversed)
    &&& forall|i: int, j: int|
        0 <= i < ws.len() && 0 <= j < ws.len() ==> same_value_bits(#[trigger] ws[i], #[trigger] ws[j])
}

/// An entry of the table takes part in picking: every entry when the weights
/// are inverted, else only those with a positive weight.
pub open spec fn takes_part(w: u64, inversed: bool) -> bool {
    inversed || is_positive_bits(w)
}

/// Checks whether or not the table of weights `ws` can be used for picking.
pub fn check(ws: &Vec<u64>, inversed: bool) -> (r: Result<(), Error>)
    ensures
        r is Ok <==> table_valid(ws@, inversed),
        r is Err ==> r->Err_0 is InvalidTable,
        ws@.len() == 0 ==> r is Err,
        (exists|i: int| 0 <= i < ws@.len() && is_negative_bits(#[trigger] ws@[i])) ==> r is Err,
        (inversed && exists|i: int| 0 <= i < ws@.len() && is_zero_bits(#[trigger] ws@[i])) ==> r is Err,
{
    let mut non_empty = false;
    let mut i: usize = 0;
    while i < ws.len()
        invariant
            i <= ws@.len(),
            forall|j: int| 0 <= j < i ==> !rejects(#[trigger] ws@[j], inversed),
            non_empty <==> exists|j: int| 0 <= j < i && is_positive_bits(#[trigger] ws@[j]),
        decreases ws@.len() - i,
    {
        let v = ws[i];
        if is_negative(v) || (inversed && is_zero(v)) {
            return Err(Error::InvalidTable);
        }
        if is_positive(v) {
            non_empty = true;
        }
        i = i + 1;
    }
    if non_empty {
        Ok(())
    } else {
        Err(Error::InvalidTable)
    }
}

/// Returns `true` if the table is valid and all its weights are equal.
pub fn is_fair(ws: &Vec<u64>, inversed: bool) -> (r: bool)
    ensures
        r == table_fair(ws@, inversed),
{
    if check(ws, inversed).is_err() {
        return false;
    }
    if ws.len() == 1 {
        assert(is_positive_bits(ws@[0]));
        return true;
    }
    let first = ws[0];
    let mut i: usize = 1;
    while i < ws.len()
        invariant
            1 <= i <= ws@.len(),
            ws@.len() >= 2,
            first == ws@[0],
            forall|j: int| 1 <= j < i ==> same_value_bits(first, #[trigger] ws@[j]),
        decreases ws@.len() - i,
    {
        if !same_value(first, ws[i]) {
            assert(!same_value_bits(ws@[0], ws@[i as int]));
            return false;
        }
        i = i + 1;
    }
    assert(same_value_bits(first, ws@[1]));
    assert forall|a: int, b: int| 0 <= a < ws@.len() && 0 <= b < ws@.len() implies same_value_bits(
        #[trigger] ws@[a],
        #[trigger] ws@[b],
    ) by {
        if a > 0 {
            assert(same_value_bits(first, ws@[a]));
        }
        if b > 0 {
            assert(same_value_bits(first, ws@[b]));
        }
    }
    true
}

/// The positions of the entries of `ws` that take part in picking, in order;
/// fails with `InvalidTable` where the table cannot be used.
pub fn usable_indexes(ws: &Vec<u64>, inversed: bool) -> (r: Result<Vec<usize>, Error>)
    ensures
        r is Ok <==> table_valid(ws@, inversed),
        r is Err ==> r->Err_0 is InvalidTable,
        r is Ok ==> {
            let v = r->Ok_0@;
            &&& forall|a: int, b: int| 0 <= a < b < v.len() ==> v[a] < v[b]
            &&& forall|j: int| 0 <= j < v.len() ==> #[trigger] v[j] < ws@.len()
            &&& forall|i: usize|
                i < ws@.len() ==> (v.contains(i) <==> takes_part(ws@[i as int], inversed))
        },
{
    match check(ws, inversed) {
        Err(e) => {
            return Err(e);
        },
        Ok(()) => {},
    }
    let mut v: Vec<usize> = Vec::new();
    let mut i: usize = 0;
    while i < ws.len()
        invariant
            i <= ws@.len(),
            forall|a: int, b: int| 0 <= a < b < v@.len() ==> v@[a] < v@[b],
            forall|j: int| 0 <= j < v@.len() ==> #[trigger] v@[j] < i,
            forall|k: usize|
                k < i ==> (v@.contains(k) <==> takes_part(ws@[k as int], inversed)),
        decreases ws@.len() - i,
    {
        let ghost v0 = v@;
        if inversed || is_positive(ws[i]) {
            v.push(i);
        }
        proof {
            assert forall|k: usize| k <= i implies (v@.contains(k) <==> takes_part(
                ws@[k as int],
                inversed,
            )) by {
                if k < i {
                    if v@.contains(k) {
                        let j = choose|j: int| 0 <= j < v@.len() && v@[j] == k;
                        if j < v0.len() {
                            assert(v0[j] == k);
                        }
                    }
                    if v0.contains(k) {
                        let j = choose|j: int| 0 <= j < v0.len() && v0[j] == k;
                        assert(v@[j] == k);
                    }
                } else {
                    if takes_part(ws@[k as int], inversed) {
                        assert(v@[v@.len() - 1] == k);
                    }
                    if v@.contains(k) {
                        let j = choose|j: int| 0 <= j < v@.len() && v@[j] == k;
                        if j < v0.len() {
                            assert(v0[j] < i);
                        }
                    }
                }
            }
        }
        i = i + 1;
    }
    Ok(v)
}

} // verus!
