use vstd::prelude::*;

use crate::cand::{bm_count, bm_has, bm_set, lemma_bm_set_card, CandSet};
use crate::units::{cid, lemma_cid, same_unit, unit_wf};

verus! {

broadcast use vstd::set::group_set_axioms;

// ---------------------------------------------------------------------------
// The mathematical model of the search state
// ---------------------------------------------------------------------------

/// One cell: a fixed value, or the set of digits still possible.
#[derive(Clone, Copy, Debug)]
pub enum Case {
    Val(usize),
    Possibilities(CandSet),
}

pub open spec fn grid_wf(g: Seq<Case>) -> bool {
    &&& g.len() == 81
    &&& forall|c: int|
        0 <= c < 81 ==> match #[trigger] g[c] {
            Case::Val(v) => 1 <= v <= 9,
            Case::Possibilities(b) => !bm_has(b.bits, 0),
        }
}

/// No open cell keeps the value of a fixed cell of its unit.
pub open spec fn prop_ok(g: Seq<Case>) -> bool {
    forall|a: int, b: int|
        0 <= a < 81 && 0 <= b < 81 && a != b && same_unit(a, b) && (#[trigger] g[a]) is Val && (
        #[trigger] g[b]) is Possibilities ==> !bm_has(g[b]->Possibilities_0.bits, g[a]->Val_0 as int)
}

/// Fixed cells that share a unit hold different values.
pub open spec fn vals_ok(g: Seq<Case>) -> bool {
    forall|a: int, b: int|
        0 <= a < 81 && 0 <= b < 81 && a != b && same_unit(a, b) && (#[trigger] g[a]) is Val && (
        #[trigger] g[b]) is Val ==> g[a]->Val_0 != g[b]->Val_0
}

/// A complete valid assignment of digits to the 81 cells.
pub open spec fn sol_ok(sol: Seq<int>) -> bool {
    &&& sol.len() == 81
    &&& forall|c: int| 0 <= c < 81 ==> 1 <= #[trigger] sol[c] <= 9
    &&& forall|a: int, b: int|
        #![trigger sol[a], sol[b]]
        0 <= a < 81 && 0 <= b < 81 && a != b && same_unit(a, b) ==> sol[a] != sol[b]
}

/// The solution matches every fixed cell and picks a remaining candidate of
/// every open cell.
pub open spec fn compat(sol: Seq<int>, g: Seq<Case>) -> bool {
    forall|c: int|
        0 <= c < 81 ==> match #[trigger] g[c] {
            Case::Val(v) => sol[c] == v as int,
            Case::Possibilities(b) => bm_has(b.bits, sol[c]),
        }
}

pub open spec fn givens_ok(cases: Seq<usize>) -> bool {
    cases.len() == 81 && forall|c: int| 0 <= c < 81 ==> (#[trigger] cases[c]) <= 9
}

/// The solution agrees with every given digit.
pub open spec fn gcompat(sol: Seq<int>, cases: Seq<usize>) -> bool {
    forall|c: int| 0 <= c < 81 && (#[trigger] cases[c]) != 0 ==> sol[c] == cases[c] as int
}

/// The given digits do not already clash inside a unit.
pub open spec fn givens_consistent(cases: Seq<usize>) -> bool {
    forall|a: int, b: int|
        0 <= a < 81 && 0 <= b < 81 && a != b && same_unit(a, b) && (#[trigger] cases[a]) != 0 && (
        #[trigger] cases[b]) != 0 ==> cases[a] != cases[b]
}

/// The digits of a grid, 0 for a cell still open.
pub open spec fn grid_vals(g: Seq<Case>) -> Seq<int> {
    Seq::new(
        81,
        |c: int|
            match g[c] {
                Case::Val(v) => v as int,
                Case::Possibilities(_) => 0,
            },
    )
}

/// Every given digit is still fixed in the grid.
pub open spec fn grid_fixes(g: Seq<Case>, cases: Seq<usize>) -> bool {
    forall|c: int| 0 <= c < 81 && (#[trigger] cases[c]) != 0 ==> g[c] == Case::Val(cases[c])
}

pub open spec fn all_fixed(g: Seq<Case>) -> bool {
    forall|c: int| 0 <= c < 81 ==> (#[trigger] g[c]) is Val
}

/// A grid of fixed, pairwise consistent cells carries a valid solution.
pub proof fn lemma_fixed_grid_solution(g: Seq<Case>)
    requires
        grid_wf(g),
        vals_ok(g),
        all_fixed(g),
    ensures
        sol_ok(grid_vals(g)),
        compat(grid_vals(g), g),
{
}

/// A grid built from a complete set of givens has every cell fixed and
/// reads back as exactly those givens: solving such an input is a no-op.
pub proof fn lemma_complete_givens_read_back(cases: Seq<usize>, g: Seq<Case>)
    requires
        givens_ok(cases),
        forall|c: int| 0 <= c < 81 ==> (#[trigger] cases[c]) != 0,
        grid_fixes(g, cases),
        g.len() == 81,
    ensures
        all_fixed(g),
        forall|c: int| 0 <= c < 81 ==> grid_vals(g)[c] == #[trigger] cases[c] as int,
{
    assert forall|c: int| 0 <= c < 81 implies (#[trigger] g[c]) is Val by {
        assert(cases[c] != 0);
        assert(g[c] == Case::Val(cases[c]));
    }
    assert forall|c: int| 0 <= c < 81 implies grid_vals(g)[c] == #[trigger] cases[c] as int by {
        assert(g[c] == Case::Val(cases[c]));
    }
}

// ---------------------------------------------------------------------------
// The termination potential: candidates left, summed as powers of two
// ---------------------------------------------------------------------------

pub open spec fn case_weight(x: Case) -> nat {
    match x {
        Case::Val(_) => 0,
        Case::Possibilities(b) => bm_count(b.bits),
    }
}

pub open spec fn tc_from(g: Seq<Case>, i: int) -> nat
    decreases 81 - i,
{
    if i >= 81 || i < 0 {
        0
    } else {
        case_weight(g[i]) + tc_from(g, i + 1)
    }
}

/// Total number of candidates left in the grid.
pub open spec fn tc(g: Seq<Case>) -> nat {
    tc_from(g, 0)
}

pub open spec fn pow2(n: nat) -> nat
    decreases n,
{
    if n == 0 {
        1
    } else {
        2 * pow2((n - 1) as nat)
    }
}

pub proof fn lemma_pow2_pos(n: nat)
    ensures
        pow2(n) >= 1,
    decreases n,
{
    if n > 0 {
        lemma_pow2_pos((n - 1) as nat);
    }
}

pub proof fn lemma_pow2_mono(m: nat, n: nat)
    requires
        m < n,
    ensures
        pow2(m) < pow2(n),
    decreases n,
{
    lemma_pow2_pos(m);
    if m + 1 < n {
        lemma_pow2_mono(m, (n - 1) as nat);
    } else {
        lemma_pow2_pos((n - 1) as nat);
    }
}

pub proof fn lemma_tc_from_le(g1: Seq<Case>, g2: Seq<Case>, i: int)
    requires
        g1.len() == 81,
        g2.len() == 81,
        0 <= i,
        forall|c: int| 0 <= c < 81 ==> case_weight(#[trigger] g2[c]) <= case_weight(g1[c]),
    ensures
        tc_from(g2, i) <= tc_from(g1, i),
    decreases 81 - i,
{
    if i < 81 {
        lemma_tc_from_le(g1, g2, i + 1);
    }
}

/// Pointwise smaller everywhere, and smaller by a known amount at one cell.
pub proof fn lemma_tc_from_gap(g1: Seq<Case>, g2: Seq<Case>, i: int, x: int)
    requires
        g1.len() == 81,
        g2.len() == 81,
        0 <= i,
        0 <= x < 81,
        forall|c: int| 0 <= c < 81 ==> case_weight(#[trigger] g2[c]) <= case_weight(g1[c]),
    ensures
        i <= x ==> tc_from(g2, i) + case_weight(g1[x]) <= tc_from(g1, i) + case_weight(g2[x]),
        tc_from(g2, i) <= tc_from(g1, i),
    decreases 81 - i,
{
    if i < 81 {
        lemma_tc_from_gap(g1, g2, i + 1, x);
    }
}

pub proof fn lemma_tc_from_update(g: Seq<Case>, x: int, v: Case, i: int)
    requires
        0 <= i,
        0 <= x < 81,
        g.len() == 81,
    ensures
        i <= x ==> tc_from(g.update(x, v), i) + case_weight(g[x]) == tc_from(g, i) + case_weight(v),
        i > x ==> tc_from(g.update(x, v), i) == tc_from(g, i),
    decreases 81 - i,
{
    if i < 81 {
        lemma_tc_from_update(g, x, v, i + 1);
    }
}

pub proof fn lemma_tc_from_lb(g: Seq<Case>, x: int, i: int)
    requires
        0 <= i <= x < 81,
        g.len() == 81,
    ensures
        tc_from(g, i) >= case_weight(g[x]),
    decreases 81 - i,
{
    if i < x {
        lemma_tc_from_lb(g, x, i + 1);
    }
}

// ---------------------------------------------------------------------------
// Pigeonhole reasoning for the subset-elimination pass
// ---------------------------------------------------------------------------

/// An injection between finite sets bounds their sizes.
pub proof fn lemma_inj_le(a: Set<int>, b: Set<int>, f: spec_fn(int) -> int)
    requires
        a.finite(),
        b.finite(),
        forall|x: int| a.contains(x) ==> b.contains(#[trigger] f(x)),
        forall|x: int, y: int|
            a.contains(x) && a.contains(y) && #[trigger] f(x) == #[trigger] f(y) ==> x == y,
    ensures
        a.len() <= b.len(),
    decreases a.len(),
{
    if a.len() > 0 {
        assert(exists|y: int| a.contains(y)) by {
            if forall|y: int| !a.contains(y) {
                assert(a =~= Set::empty());
            }
        }
        let x = choose|y: int| a.contains(y);
        let a2 = a.remove(x);
        let b2 = b.remove(f(x));
        assert(b.contains(f(x)));
        assert(a =~= a2.insert(x));
        assert(b =~= b2.insert(f(x)));
        assert(!a2.contains(x));
        assert(!b2.contains(f(x)));
        assert(a.len() == a2.len() + 1);
        assert(b.len() == b2.len() + 1);
        lemma_inj_le(a2, b2, f);
    }
}

pub open spec fn ucell(u: Seq<(usize, usize)>, p: int) -> int {
    cid(u[p])
}

/// The cells of a unit are nine distinct in-range indices.
pub proof fn lemma_unit_cells(u: Seq<(usize, usize)>)
    requires
        unit_wf(u),
    ensures
        forall|p: int| 0 <= p < 9 ==> 0 <= #[trigger] ucell(u, p) < 81,
        forall|p: int, q: int|
            0 <= p < 9 && 0 <= q < 9 && p != q ==> #[trigger] ucell(u, p) != #[trigger] ucell(u, q),
        forall|p: int, q: int|
            0 <= p < 9 && 0 <= q < 9 ==> same_unit(#[trigger] ucell(u, p), #[trigger] ucell(u, q)),
{
    assert forall|p: int| 0 <= p < 9 implies 0 <= #[trigger] ucell(u, p) < 81 by {
        lemma_cid(u[p].0 as int, u[p].1 as int);
    }
    assert forall|p: int, q: int|
        0 <= p < 9 && 0 <= q < 9 && p != q implies #[trigger] ucell(u, p) != #[trigger] ucell(
        u,
        q,
    ) by {
        lemma_cid(u[p].0 as int, u[p].1 as int);
        lemma_cid(u[q].0 as int, u[q].1 as int);
        if p < q {
            assert(u[p] != u[q]);
        } else {
            assert(u[q] != u[p]);
        }
        if ucell(u, p) == ucell(u, q) {
            assert(u[p].0 as int == ucell(u, p) / 9 && u[p].1 as int == ucell(u, p) % 9);
            assert(u[q].0 as int == ucell(u, q) / 9 && u[q].1 as int == ucell(u, q) % 9);
            assert(false);
        }
    }
}

/// In a valid solution, every digit appears somewhere in every unit.
pub proof fn lemma_unit_surjective(u: Seq<(usize, usize)>, sol: Seq<int>, e: int)
    requires
        unit_wf(u),
        sol_ok(sol),
        1 <= e <= 9,
    ensures
        exists|p: int| 0 <= p < 9 && sol[#[trigger] ucell(u, p)] == e,
{
    lemma_unit_cells(u);
    if forall|p: int| !(0 <= p < 9 && sol[#[trigger] ucell(u, p)] == e) {
        let f = |p: int| sol[ucell(u, p)];
        vstd::set_lib::lemma_int_range(0, 9);
        vstd::set_lib::lemma_int_range(1, 10);
        let b = vstd::set_lib::set_int_range(1, 10).remove(e);
        assert(vstd::set_lib::set_int_range(1, 10) =~= b.insert(e));
        assert forall|p: int| vstd::set_lib::set_int_range(0, 9).contains(p) implies b.contains(
            #[trigger] f(p),
        ) by {
            assert(1 <= sol[ucell(u, p)] <= 9);
            assert(sol[ucell(u, p)] != e);
        }
        assert forall|p: int, q: int|
            vstd::set_lib::set_int_range(0, 9).contains(p) && vstd::set_lib::set_int_range(
                0,
                9,
            ).contains(q) && #[trigger] f(p) == #[trigger] f(q) implies p == q by {
            if p != q {
                assert(sol[ucell(u, p)] != sol[ucell(u, q)]);
            }
        }
        lemma_inj_le(vstd::set_lib::set_int_range(0, 9), b, f);
        assert(false);
    }
}

/// A closed group: the digits of `dmask` have, inside the unit, exactly the
/// candidate cells of `cmask`, and there are as many digits as cells. Then
/// any solution of the current grid places, at every cell of the group, one
/// of the group's digits: narrowing to `dmask` keeps every solution.
pub proof fn lemma_closed_group(
    g: Seq<Case>,
    u: Seq<(usize, usize)>,
    cmask: u16,
    dmask: u16,
    sol: Seq<int>,
    p0: int,
)
    requires
        grid_wf(g),
        prop_ok(g),
        unit_wf(u),
        forall|e: int, p: int|
            #![trigger bm_has(dmask, e), bm_has(cmask, p)]
            bm_has(dmask, e) && 0 <= p < 9 ==> (bm_has(cmask, p) <==> (g[ucell(u, p)]
                is Possibilities && bm_has(g[ucell(u, p)]->Possibilities_0.bits, e))),
        !bm_has(cmask, 9),
        !bm_has(dmask, 0),
        bm_count(cmask) == bm_count(dmask),
        sol_ok(sol),
        compat(sol, g),
        0 <= p0 < 9,
        bm_has(cmask, p0),
    ensures
        bm_has(dmask, sol[ucell(u, p0)]),
{
    lemma_unit_cells(u);
    let e0 = sol[ucell(u, p0)];
    assert(1 <= e0 <= 9);
    let fp = |e: int| choose|p: int| 0 <= p < 9 && sol[ucell(u, p)] == e;
    assert forall|e: int| bm_has(dmask, e) implies 0 <= #[trigger] fp(e) < 9 && sol[ucell(
        u,
        fp(e),
    )] == e && bm_has(cmask, fp(e)) by {
        assert(1 <= e <= 9);
        lemma_unit_surjective(u, sol, e);
        let p = fp(e);
        assert(0 <= p < 9 && sol[ucell(u, p)] == e);
        match g[ucell(u, p)] {
            Case::Val(v) => {
                assert(sol[ucell(u, p)] == v as int);
                assert(v as int == e);
                // the group is not empty: position p0 holds an open cell with
                // candidate e, and the fixed cell at p clashes with it
                assert(g[ucell(u, p0)] is Possibilities && bm_has(
                    g[ucell(u, p0)]->Possibilities_0.bits,
                    e,
                ));
                assert(p != p0);
                assert(ucell(u, p) != ucell(u, p0));
                assert(same_unit(ucell(u, p), ucell(u, p0)));
                assert(false);
            },
            Case::Possibilities(b) => {
                assert(bm_has(b.bits, e));
            },
        }
    }
    if !bm_has(dmask, e0) {
        lemma_bm_set_card(cmask);
        lemma_bm_set_card(dmask);
        let cset = bm_set(cmask);
        let dset = bm_set(dmask);
        let cset2 = cset.remove(p0);
        assert(cset =~= cset2.insert(p0));
        assert(cset.len() == cset2.len() + 1);
        assert forall|e: int| dset.contains(e) implies cset2.contains(#[trigger] fp(e)) by {
            assert(bm_has(dmask, e));
            assert(bm_has(cmask, fp(e)));
            if fp(e) == p0 {
                assert(sol[ucell(u, p0)] == e);
                assert(e == e0);
                assert(false);
            }
        }
        assert forall|e1: int, e2: int|
            dset.contains(e1) && dset.contains(e2) && #[trigger] fp(e1) == #[trigger] fp(e2)
            implies e1 == e2 by {
            assert(sol[ucell(u, fp(e1))] == e1);
            assert(sol[ucell(u, fp(e2))] == e2);
        }
        lemma_inj_le(dset, cset2, fp);
        assert(false);
    }
}

} // verus!
