use vstd::prelude::*;

verus! {

broadcast use vstd::set::group_set_axioms;
// ---------------------------------------------------------------------------
// A small bit-mask model: masks over positions 0..=9 of a `u16`.
//
// Candidate sets of a cell use bits 1..=9 (the digits); scanning a unit also
// uses masks over bits 0..=8 (the nine positions inside the unit).
// ---------------------------------------------------------------------------

pub open spec fn bm_has(bits: u16, d: int) -> bool {
    0 <= d <= 9 && (bits >> (d as u16)) & 1u16 == 1u16
}

/// Number of set bits among positions d..=9.
pub open spec fn bm_count_from(bits: u16, d: int) -> nat
    decreases 10 - d,
{
    if d >= 10 || d < 0 {
        0
    } else {
        (if bm_has(bits, d) {
            1nat
        } else {
            0nat
        }) + bm_count_from(bits, d + 1)
    }
}

pub open spec fn bm_count(bits: u16) -> nat {
    bm_count_from(bits, 0)
}

pub open spec fn bm_set(bits: u16) -> Set<int> {
    Set::new(|e: int| bm_has(bits, e))
}

// ---------------------------------------------------------------------------
// Counting lemmas
// ---------------------------------------------------------------------------

pub proof fn lemma_count_from_le(b1: u16, b2: u16, d: int)
    requires
        0 <= d,
        forall|e: int| d <= e <= 9 ==> (bm_has(b1, e) ==> bm_has(b2, e)),
    ensures
        bm_count_from(b1, d) <= bm_count_from(b2, d),
    decreases 10 - d,
{
    if d < 10 {
        lemma_count_from_le(b1, b2, d + 1);
    }
}

pub proof fn lemma_count_from_remove(b1: u16, b2: u16, x: int, d: int)
    requires
        0 <= d,
        0 <= x <= 9,
        bm_has(b1, x),
        forall|e: int| 0 <= e <= 9 ==> (bm_has(b2, e) <==> bm_has(b1, e) && e != x),
    ensures
        d <= x ==> bm_count_from(b2, d) + 1 == bm_count_from(b1, d),
        d > x ==> bm_count_from(b2, d) == bm_count_from(b1, d),
    decreases 10 - d,
{
    if d < 10 {
        lemma_count_from_remove(b1, b2, x, d + 1);
    }
}

pub proof fn lemma_count_from_zero(b: u16, d: int)
    requires
        0 <= d,
    ensures
        (bm_count_from(b, d) == 0) <==> (forall|e: int| d <= e <= 9 ==> !bm_has(b, e)),
    decreases 10 - d,
{
    if d < 10 {
        lemma_count_from_zero(b, d + 1);
    }
}

pub proof fn lemma_count_from_bound(b: u16, d: int)
    requires
        0 <= d <= 10,
    ensures
        bm_count_from(b, d) <= 10 - d,
    decreases 10 - d,
{
    if d < 10 {
        lemma_count_from_bound(b, d + 1);
    }
}

pub proof fn lemma_count_from_has(b: u16, x: int, d: int)
    requires
        0 <= d <= x <= 9,
        bm_has(b, x),
    ensures
        bm_count_from(b, d) >= 1,
    decreases 10 - d,
{
    if d < x {
        lemma_count_from_has(b, x, d + 1);
    }
}

pub proof fn lemma_count_from_pair(b: u16, x: int, y: int, d: int)
    requires
        0 <= d <= x < y <= 9,
        bm_has(b, x),
        bm_has(b, y),
    ensures
        bm_count_from(b, d) >= 2,
    decreases 10 - d,
{
    if d < x {
        lemma_count_from_pair(b, x, y, d + 1);
    } else {
        lemma_count_from_has(b, y, d + 1);
    }
}

/// A mask with exactly one set bit holds that bit alone.
pub proof fn lemma_count_one(b: u16, x: int)
    requires
        bm_has(b, x),
        bm_count(b) == 1,
    ensures
        forall|e: int| bm_has(b, e) ==> e == x,
{
    assert forall|e: int| bm_has(b, e) implies e == x by {
        if e < x {
            lemma_count_from_pair(b, e, x, 0);
        } else if e > x {
            lemma_count_from_pair(b, x, e, 0);
        }
    }
}

pub open spec fn bm_set_from(bits: u16, d: int) -> Set<int> {
    Set::new(|e: int| d <= e && bm_has(bits, e))
}

pub proof fn lemma_bm_set_from_card(bits: u16, d: int)
    requires
        0 <= d,
    ensures
        bm_set_from(bits, d).finite(),
        bm_set_from(bits, d).len() == bm_count_from(bits, d),
    decreases 10 - d,
{
    if d >= 10 {
        assert(bm_set_from(bits, d) =~= Set::empty());
    } else {
        lemma_bm_set_from_card(bits, d + 1);
        if bm_has(bits, d) {
            assert(bm_set_from(bits, d) =~= bm_set_from(bits, d + 1).insert(d));
            assert(!bm_set_from(bits, d + 1).contains(d));
        } else {
            assert(bm_set_from(bits, d) =~= bm_set_from(bits, d + 1));
        }
    }
}

pub proof fn lemma_bm_set_card(bits: u16)
    ensures
        bm_set(bits).finite(),
        bm_set(bits).len() == bm_count(bits),
{
    lemma_bm_set_from_card(bits, 0);
    assert(bm_set(bits) =~= bm_set_from(bits, 0));
}

// ---------------------------------------------------------------------------
// Bit-vector facts that tie the executable operations to `bm_has`
// ---------------------------------------------------------------------------

proof fn lemma_bv_clear_one(b: u16, du: u16, e: u16)
    requires
        du <= 9,
        e <= 9,
    ensures
        (((b & !(1u16 << du)) >> e) & 1u16 == 1u16) <==> (((b >> e) & 1u16 == 1u16) && e != du),
{
    assert((((b & !(1u16 << du)) >> e) & 1u16 == 1u16) <==> (((b >> e) & 1u16 == 1u16) && e != du))
        by (bit_vector)
        requires
            du <= 9,
            e <= 9,
    ;
}

proof fn lemma_bv_set_one(b: u16, du: u16, e: u16)
    requires
        du <= 9,
        e <= 9,
    ensures
        (((b | (1u16 << du)) >> e) & 1u16 == 1u16) <==> (((b >> e) & 1u16 == 1u16) || e == du),
{
    assert((((b | (1u16 << du)) >> e) & 1u16 == 1u16) <==> (((b >> e) & 1u16 == 1u16) || e == du))
        by (bit_vector)
        requires
            du <= 9,
            e <= 9,
    ;
}

pub proof fn lemma_bm_zero()
    ensures
        forall|e: int| !bm_has(0u16, e),
{
    assert forall|e: int| !bm_has(0u16, e) by {
        if 0 <= e <= 9 {
            let eu = e as u16;
            assert((0u16 >> eu) & 1u16 == 0u16) by (bit_vector);
        }
    }
}

// ---------------------------------------------------------------------------
// Executable operations on raw masks
// ---------------------------------------------------------------------------

/// True when bit `i` of the mask is set.
pub fn bm_test(bits: u16, i: usize) -> (r: bool)
    requires
        i <= 9,
    ensures
        r == bm_has(bits, i as int),
{
    (bits >> (i as u16)) & 1u16 == 1u16
}

/// The mask with bit `i` cleared.
pub fn bm_clear_bit(bits: u16, i: usize) -> (r: u16)
    requires
        i <= 9,
    ensures
        forall|e: int| bm_has(r, e) <==> (bm_has(bits, e) && e != i),
{
    let r = bits & !(1u16 << (i as u16));
    proof {
        assert forall|e: int| bm_has(r, e) <==> (bm_has(bits, e) && e != i) by {
            if 0 <= e <= 9 {
                lemma_bv_clear_one(bits, i as u16, e as u16);
                assert((e as u16) == (i as u16) <==> e == i as int);
            }
        }
    }
    r
}

/// The mask with bit `i` set.
pub fn bm_set_bit(bits: u16, i: usize) -> (r: u16)
    requires
        i <= 9,
    ensures
        forall|e: int| bm_has(r, e) <==> (bm_has(bits, e) || e == i),
{
    let r = bits | (1u16 << (i as u16));
    proof {
        assert forall|e: int| bm_has(r, e) <==> (bm_has(bits, e) || e == i) by {
            if 0 <= e <= 9 {
                lemma_bv_set_one(bits, i as u16, e as u16);
                assert((e as u16) == (i as u16) <==> e == i as int);
            }
        }
    }
    r
}

/// Number of set bits among positions 0..=9.
pub fn bm_len(bits: u16) -> (r: usize)
    ensures
        r == bm_count(bits),
{
    proof {
        lemma_count_from_bound(bits, 0);
    }
    let mut n: usize = 0;
    let mut d: usize = 0;
    while d < 10
        invariant
            d <= 10,
            n + bm_count_from(bits, d as int) == bm_count(bits),
            bm_count(bits) <= 10,
            n <= 10,
        decreases 10 - d,
    {
        proof {
            lemma_count_from_bound(bits, d as int + 1);
            if bm_has(bits, d as int) {
                lemma_count_from_has(bits, d as int, d as int);
            }
        }
        if bm_test(bits, d) {
            n = n + 1;
        }
        d = d + 1;
    }
    n
}

/// The least set bit of a non-empty mask.
pub fn bm_first(bits: u16) -> (r: usize)
    requires
        bm_count(bits) > 0,
    ensures
        r <= 9,
        bm_has(bits, r as int),
        forall|e: int| 0 <= e < r ==> !bm_has(bits, e),
{
    let mut d: usize = 0;
    while d < 10
        invariant
            d <= 10,
            forall|e: int| 0 <= e < d ==> !bm_has(bits, e),
        decreases 10 - d,
    {
        if bm_test(bits, d) {
            return d;
        }
        d = d + 1;
    }
    proof {
        lemma_count_from_zero(bits, 0);
        assert(false);
    }
    0
}

// ---------------------------------------------------------------------------
// Candidate sets: digits 1..=9 of an open cell, bit 0 always clear
// ---------------------------------------------------------------------------

#[derive(Clone, Copy, Debug)]
pub struct CandSet {
    pub bits: u16,
}

impl CandSet {
    /// Bit 0 is never a digit.
    pub open spec fn wf(self) -> bool {
        !bm_has(self.bits, 0)
    }

    /// The set holding every digit 1..=9.
    pub fn full() -> (r: CandSet)
        ensures
            forall|d: int| bm_has(r.bits, d) <==> 1 <= d <= 9,
            r.wf(),
    {
        let r = CandSet { bits: 0b0000_0011_1111_1110u16 };
        proof {
            assert forall|d: int| bm_has(r.bits, d) <==> 1 <= d <= 9 by {
                if 0 <= d <= 9 {
                    let du = d as u16;
                    assert(((0b0000_0011_1111_1110u16 >> du) & 1u16 == 1u16) <==> (1u16 <= du && du
                        <= 9)) by (bit_vector);
                }
            }
        }
        r
    }

    pub fn contains(&self, d: usize) -> (r: bool)
        requires
            1 <= d <= 9,
        ensures
            r == bm_has(self.bits, d as int),
    {
        bm_test(self.bits, d)
    }

    /// The set without digit `d`.
    pub fn without(&self, d: usize) -> (r: CandSet)
        requires
            1 <= d <= 9,
        ensures
            forall|e: int| bm_has(r.bits, e) <==> (bm_has(self.bits, e) && e != d),
            r.wf() <== self.wf(),
    {
        CandSet { bits: bm_clear_bit(self.bits, d) }
    }

    /// How many digits remain.
    pub fn count(&self) -> (r: usize)
        ensures
            r == bm_count(self.bits),
    {
        bm_len(self.bits)
    }

    /// The least remaining digit.
    pub fn first(&self) -> (r: usize)
        requires
            bm_count(self.bits) > 0,
            self.wf(),
        ensures
            1 <= r <= 9,
            bm_has(self.bits, r as int),
            forall|e: int| 0 <= e < r ==> !bm_has(self.bits, e),
    {
        let r = bm_first(self.bits);
        r
    }
}

/// With bit 0 clear, the count is at most 9.
pub proof fn lemma_wf_count_le_9(b: u16)
    requires
        !bm_has(b, 0),
    ensures
        bm_count(b) <= 9,
{
    lemma_count_from_bound(b, 1);
}

} // verus!
