use vstd::prelude::*;

use crate::cand::{bm_count, bm_has, lemma_wf_count_le_9, CandSet};
use crate::model::{
    all_fixed, case_weight, compat, gcompat, givens_consistent, givens_ok, grid_fixes, grid_vals,
    grid_wf, lemma_closed_group, lemma_fixed_grid_solution, lemma_pow2_mono, lemma_pow2_pos,
    lemma_tc_from_gap, lemma_tc_from_le, lemma_tc_from_update, pow2, prop_ok, sol_ok, tc, ucell,
    vals_ok, Case,
};
use crate::queue::{
    kpq_clone, kpq_new, kpq_peek, kpq_push, kpq_remove, kpq_set_priority, queue_entries, Kpq,
};
use crate::sudoku::Sudoku;
use crate::units::{
    constraints, lemma_cid, lemma_contains_after_push, peer_list_wf, peers_wf, same_unit, units_wf,
};

pub use crate::units::parts;

verus! {

/// Why a solve gave up.
#[derive(Clone, Copy, Debug, PartialEq, Eq, Structural)]
pub enum SolveError {
    /// A contradiction was reached with no snapshot left to return to: the
    /// puzzle admits no solution.
    Unsolvable,
}

/// The queue holds exactly the open cells, each with priority
/// 9 - (number of remaining candidates).
pub open spec fn sync_ok(g: Seq<Case>, qm: Map<usize, usize>) -> bool {
    &&& forall|k: usize| #[trigger] qm.dom().contains(k) ==> k < 81
    &&& forall|c: int|
        0 <= c < 81 ==> ((#[trigger] g[c]) is Possibilities <==> qm.dom().contains(c as usize))
    &&& forall|c: int|
        0 <= c < 81 && (#[trigger] g[c]) is Possibilities ==> qm[c as usize] as int + bm_count(
            g[c]->Possibilities_0.bits,
        ) == 9
}

struct Instance {
    sudoku: Vec<Case>,
    queue: Kpq,
    smart: usize,
    back: usize,
}

impl Instance {
    spec fn ctr_wf(self) -> bool {
        self.back <= self.smart && self.smart - self.back <= 27 && self.smart <= 53
    }

    spec fn wf(self) -> bool {
        &&& grid_wf(self.sudoku@)
        &&& prop_ok(self.sudoku@)
        &&& sync_ok(self.sudoku@, queue_entries(self.queue))
        &&& self.ctr_wf()
    }
}

/// The solver: the live search state, the snapshot stack for backtracking,
/// and the immutable unit and peer tables.
pub struct Solver {
    instance: Instance,
    stack: Vec<Instance>,
    units: Vec<Vec<(usize, usize)>>,
    peers: Vec<Vec<usize>>,
    givens: Ghost<Seq<usize>>,
}

impl Solver {
    /// The live grid.
    pub closed spec fn grid(self) -> Seq<Case> {
        self.instance.sudoku@
    }

    /// The digits the puzzle was built from.
    pub closed spec fn givens(self) -> Seq<usize> {
        self.givens@
    }

    /// How many snapshots the search stack holds.
    pub closed spec fn snapshots(self) -> nat {
        self.stack@.len()
    }

    /// The internal invariant: every held state is well formed, keeps the
    /// given digits fixed, and no solution of the givens is ever lost —
    /// each one stays compatible with the live state or with a snapshot.
    pub closed spec fn inv(self) -> bool {
        &&& units_wf(self.units@)
        &&& peers_wf(self.peers@)
        &&& givens_ok(self.givens@)
        &&& self.instance.wf()
        &&& forall|k: int| 0 <= k < self.stack@.len() ==> (#[trigger] self.stack@[k]).wf()
        &&& grid_fixes(self.instance.sudoku@, self.givens@)
        &&& forall|k: int|
            0 <= k < self.stack@.len() ==> grid_fixes(
                (#[trigger] self.stack@[k]).sudoku@,
                self.givens@,
            )
        &&& forall|sol: Seq<int>|
            #![trigger gcompat(sol, self.givens@)]
            (sol_ok(sol) && gcompat(sol, self.givens@)) ==> (compat(sol, self.instance.sudoku@)
                || exists|k: int|
                0 <= k < self.stack@.len() && compat(sol, (#[trigger] self.stack@[k]).sudoku@))
        &&& (givens_consistent(self.givens@) ==> vals_ok(self.instance.sudoku@) && forall|k: int|
            0 <= k < self.stack@.len() ==> vals_ok((#[trigger] self.stack@[k]).sudoku@))
    }

    /// How many snapshots are pending; 0 after a solve means no guess is
    /// still speculative.
    pub fn stack_len(&self) -> (r: usize)
        ensures
            r as nat == self.snapshots(),
    {
        self.stack.len()
    }

    /// Build the search state from the given digits: given cells are fixed,
    /// every other cell starts with all digits its peers' givens allow, and
    /// the queue holds every open cell.
    pub fn new(sudoku: &Sudoku) -> (r: Solver)
        requires
            sudoku.wf(),
        ensures
            r.inv(),
            r.givens() == sudoku.cases@,
            r.snapshots() == 0,
            forall|c: int|
                0 <= c < 81 && (#[trigger] sudoku.cases@[c]) != 0 ==> r.grid()[c] == Case::Val(
                    sudoku.cases@[c],
                ),
            forall|c: int|
                0 <= c < 81 && (#[trigger] sudoku.cases@[c]) == 0 ==> (r.grid()[c] is Possibilities
                    && (forall|e: int|
                    bm_has(r.grid()[c]->Possibilities_0.bits, e) <==> (1 <= e <= 9 && forall|o: int|
                        0 <= o < 81 && o != c && same_unit(c, o) ==> #[trigger] sudoku.cases@[o]
                            != e))),
    {
        let ghost cases = sudoku.cases@;
        let units = parts();
        let peers = constraints();
        let full = CandSet::full();
        let mut grid: Vec<Case> = Vec::new();
        let mut c: usize = 0;
        while c < 81
            invariant
                c <= 81,
                grid@.len() == c as int,
                cases == sudoku.cases@,
                sudoku.wf(),
                forall|x: int|
                    0 <= x < c as int ==> #[trigger] grid@[x] == (if cases[x] != 0 {
                        Case::Val(cases[x])
                    } else {
                        Case::Possibilities(full)
                    }),
                forall|e: int| bm_has(full.bits, e) <==> 1 <= e <= 9,
            decreases 81 - c,
        {
            let gv = sudoku.cases[c];
            if gv != 0 {
                grid.push(Case::Val(gv));
            } else {
                grid.push(Case::Possibilities(full));
            }
            c += 1;
        }
        let mut queue = kpq_new();
        let mut c: usize = 0;
        while c < 81
            invariant
                c <= 81,
                grid@.len() == 81,
                cases == sudoku.cases@,
                sudoku.wf(),
                peers_wf(peers@),
                forall|x: int|
                    c as int <= x < 81 ==> #[trigger] grid@[x] == (if cases[x] != 0 {
                        Case::Val(cases[x])
                    } else {
                        Case::Possibilities(full)
                    }),
                forall|e: int| bm_has(full.bits, e) <==> 1 <= e <= 9,
                forall|x: int|
                    0 <= x < c as int && cases[x] != 0 ==> #[trigger] grid@[x] == Case::Val(
                        cases[x],
                    ),
                forall|x: int|
                    0 <= x < c as int && cases[x] == 0 ==> (#[trigger] grid@[x]) is Possibilities
                        && (forall|e: int|
                        bm_has(grid@[x]->Possibilities_0.bits, e) <==> (1 <= e <= 9 && forall|
                            j: int,
                        |
                            0 <= j < peers@[x]@.len() ==> cases[#[trigger] peers@[x]@[j] as int]
                                != e)),
                forall|k: usize|
                    #[trigger] queue_entries(queue).dom().contains(k) <==> (k < c && cases[k as int]
                        == 0),
                forall|x: int|
                    0 <= x < c as int && cases[x] == 0 ==> queue_entries(queue)[x as usize] as int
                        + bm_count(grid@[x]->Possibilities_0.bits) == 9,
            decreases 81 - c,
        {
            let cell = grid[c];
            match cell {
                Case::Val(_) => {},
                Case::Possibilities(b0) => {
                    let ghost pl = peers@[c as int]@;
                    let mut b = b0;
                    let n = peers[c].len();
                    let mut k: usize = 0;
                    while k < n
                        invariant
                            k <= n,
                            c < 81,
                            n == pl.len(),
                            pl == peers@[c as int]@,
                            peers_wf(peers@),
                            cases == sudoku.cases@,
                            sudoku.wf(),
                            forall|e: int| bm_has(b0.bits, e) <==> 1 <= e <= 9,
                            forall|e: int|
                                bm_has(b.bits, e) <==> (bm_has(b0.bits, e) && forall|j: int|
                                    0 <= j < k as int ==> cases[#[trigger] pl[j] as int] != e),
                        decreases n - k,
                    {
                        let o = peers[c][k];
                        let ov = sudoku.cases[o];
                        if ov != 0 {
                            b = b.without(ov);
                        }
                        k += 1;
                    }
                    proof {
                        lemma_wf_count_le_9(b.bits);
                    }
                    grid[c] = Case::Possibilities(b);
                    let cnt = b.count();
                    kpq_push(&mut queue, c, 9 - cnt);
                },
            }
            c += 1;
        }
        let r = Solver {
            instance: Instance { sudoku: grid, queue, smart: 0, back: 0 },
            stack: Vec::new(),
            units,
            peers,
            givens: Ghost(cases),
        };
        proof {
            let g = r.instance.sudoku@;
            assert forall|a: int, b: int|
                0 <= a < 81 && 0 <= b < 81 && a != b && same_unit(a, b) && (#[trigger] g[a]) is Val
                    && (#[trigger] g[b]) is Possibilities implies !bm_has(
                g[b]->Possibilities_0.bits,
                g[a]->Val_0 as int,
            ) by {
                let l = r.peers@[b]@;
                assert(peer_list_wf(l, b));
                assert(same_unit(b, a));
                assert(l.contains(a as usize));
                let j = choose|j: int| 0 <= j < l.len() && l[j] == a as usize;
                assert(cases[l[j] as int] != g[a]->Val_0 as int || !bm_has(
                    g[b]->Possibilities_0.bits,
                    g[a]->Val_0 as int,
                ));
            }
            assert(prop_ok(g));
            assert forall|sol: Seq<int>|
                #![trigger gcompat(sol, r.givens@)]
                (sol_ok(sol) && gcompat(sol, r.givens@)) implies compat(sol, g) by {
                assert forall|c2: int| 0 <= c2 < 81 implies match #[trigger] g[c2] {
                    Case::Val(v) => sol[c2] == v as int,
                    Case::Possibilities(bb) => bm_has(bb.bits, sol[c2]),
                } by {
                    match g[c2] {
                        Case::Val(v) => {
                            assert(cases[c2] != 0);
                            assert(sol[c2] == cases[c2] as int);
                        },
                        Case::Possibilities(bb) => {
                            assert(cases[c2] == 0);
                            let e = sol[c2];
                            assert(1 <= e <= 9);
                            assert forall|j: int|
                                0 <= j < r.peers@[c2]@.len() implies cases[#[trigger] r.peers@[c2]@[j] as int]
                                != e by {
                                let o = r.peers@[c2]@[j] as int;
                                assert(peer_list_wf(r.peers@[c2]@, c2));
                                assert(0 <= o < 81 && o != c2 && same_unit(c2, o));
                                if cases[o] == e {
                                    assert(sol[o] == cases[o] as int);
                                    assert(sol[o] != sol[c2]);
                                    assert(false);
                                }
                            }
                            assert(bm_has(bb.bits, e));
                        },
                    }
                }
            }
            if givens_consistent(cases) {
                assert forall|a: int, b: int|
                    0 <= a < 81 && 0 <= b < 81 && a != b && same_unit(a, b) && (#[trigger] g[a])
                        is Val && (#[trigger] g[b]) is Val implies g[a]->Val_0 != g[b]->Val_0 by {
                    assert(cases[a] != 0 && cases[b] != 0);
                }
            }
            assert(r.inv());
            assert forall|c: int|
                0 <= c < 81 && (#[trigger] cases[c]) == 0 implies (g[c] is Possibilities && (forall|
                e: int,
            |
                bm_has(g[c]->Possibilities_0.bits, e) <==> (1 <= e <= 9 && forall|o: int|
                    0 <= o < 81 && o != c && same_unit(c, o) ==> #[trigger] cases[o] != e))) by {
                let l = r.peers@[c]@;
                assert(peer_list_wf(l, c));
                assert forall|e: int|
                    bm_has(g[c]->Possibilities_0.bits, e) <==> (1 <= e <= 9 && forall|o: int|
                        0 <= o < 81 && o != c && same_unit(c, o) ==> #[trigger] cases[o] != e) by {
                    if bm_has(g[c]->Possibilities_0.bits, e) {
                        assert forall|o: int|
                            0 <= o < 81 && o != c && same_unit(c, o) implies #[trigger] cases[o]
                            != e by {
                            assert(l.contains(o as usize));
                            let j = choose|j: int| 0 <= j < l.len() && l[j] == o as usize;
                            assert(cases[l[j] as int] != e);
                        }
                    } else {
                        if 1 <= e <= 9 && forall|o: int|
                            0 <= o < 81 && o != c && same_unit(c, o) ==> #[trigger] cases[o] != e {
                            assert forall|j: int|
                                0 <= j < l.len() implies cases[#[trigger] l[j] as int] != e by {
                                assert(0 <= l[j] < 81 && l[j] != c && same_unit(c, l[j] as int));
                            }
                            assert(bm_has(g[c]->Possibilities_0.bits, e));
                        }
                    }
                }
            }
        }
        r
    }
}

/// Mid-propagation shape: the fixed cell holds `val`; the open cells whose
/// index is in `done` have lost `val`; everything else is untouched.
spec fn commit_mid(g0: Seq<Case>, g: Seq<Case>, id: int, val: int, done: Seq<usize>) -> bool {
    forall|c: int|
        #![trigger g[c]]
        0 <= c < 81 && c != id ==> (if g0[c] is Possibilities {
            if done.contains(c as usize) {
                g[c] is Possibilities && (forall|e: int|
                    bm_has(g[c]->Possibilities_0.bits, e) <==> (bm_has(
                        g0[c]->Possibilities_0.bits,
                        e,
                    ) && e != val))
            } else {
                g[c] == g0[c]
            }
        } else {
            g[c] == g0[c]
        })
}

fn copy_grid(g: &Vec<Case>) -> (r: Vec<Case>)
    ensures
        r@ == g@,
{
    let mut r: Vec<Case> = Vec::new();
    let mut i: usize = 0;
    while i < g.len()
        invariant
            i <= g@.len(),
            r@ == g@.subrange(0, i as int),
        decreases g@.len() - i,
    {
        r.push(g[i]);
        proof {
            assert(r@ =~= g@.subrange(0, i as int + 1));
        }
        i += 1;
    }
    proof {
        assert(r@ =~= g@);
    }
    r
}

impl Solver {
    /// Fix cell `id` to `val` and propagate: the cell leaves the queue, and
    /// `val` is struck from every open peer, whose priority rises to match.
    fn commit(&mut self, id: usize, val: usize)
        requires
            old(self).instance.wf(),
            peers_wf(old(self).peers@),
            id < 81,
            1 <= val <= 9,
            old(self).instance.sudoku@[id as int] is Possibilities,
            bm_has(old(self).instance.sudoku@[id as int]->Possibilities_0.bits, val as int),
        ensures
            final(self).instance.wf(),
            final(self).stack == old(self).stack,
            final(self).units == old(self).units,
            final(self).peers == old(self).peers,
            final(self).givens == old(self).givens,
            final(self).instance.smart == old(self).instance.smart,
            final(self).instance.back == old(self).instance.back,
            final(self).instance.sudoku@.len() == 81,
            final(self).instance.sudoku@[id as int] == Case::Val(val),
            forall|c: int|
                0 <= c < 81 && c != id as int && !((#[trigger] old(self).instance.sudoku@[c])
                    is Possibilities) ==> final(self).instance.sudoku@[c] == old(
                    self,
                ).instance.sudoku@[c],
            forall|c: int|
                0 <= c < 81 && c != id as int && (#[trigger] old(self).instance.sudoku@[c])
                    is Possibilities ==> ((#[trigger] final(self).instance.sudoku@[c])
                    is Possibilities && (forall|e: int|
                    bm_has(final(self).instance.sudoku@[c]->Possibilities_0.bits, e) <==> (bm_has(
                        old(self).instance.sudoku@[c]->Possibilities_0.bits,
                        e,
                    ) && !(same_unit(id as int, c) && e == val as int)))),
            forall|sol: Seq<int>|
                #![trigger compat(sol, old(self).instance.sudoku@)]
                #![trigger compat(sol, final(self).instance.sudoku@)]
                sol_ok(sol) ==> (compat(sol, final(self).instance.sudoku@) <==> (compat(
                    sol,
                    old(self).instance.sudoku@,
                ) && sol[id as int] == val as int)),
            vals_ok(old(self).instance.sudoku@) ==> vals_ok(final(self).instance.sudoku@),
            grid_fixes(old(self).instance.sudoku@, old(self).givens@) ==> grid_fixes(
                final(self).instance.sudoku@,
                old(self).givens@,
            ),
            tc(final(self).instance.sudoku@) + case_weight(old(self).instance.sudoku@[id as int])
                <= tc(old(self).instance.sudoku@),
    {
        let ghost g0 = self.instance.sudoku@;
        let r = kpq_remove(&mut self.instance.queue, id);
        self.instance.sudoku[id] = Case::Val(val);
        let ghost pl = self.peers@[id as int]@;
        let n = self.peers[id].len();
        let mut k: usize = 0;
        while k < n
            invariant
                k <= n,
                id < 81,
                1 <= val <= 9,
                n == pl.len(),
                pl == self.peers@[id as int]@,
                peers_wf(self.peers@),
                grid_wf(g0),
                self.instance.sudoku@.len() == 81,
                self.instance.sudoku@[id as int] == Case::Val(val),
                commit_mid(g0, self.instance.sudoku@, id as int, val as int, pl.subrange(0, k as int)),
                sync_ok(self.instance.sudoku@, queue_entries(self.instance.queue)),
                self.stack == old(self).stack,
                self.units == old(self).units,
                self.peers == old(self).peers,
                self.givens == old(self).givens,
                self.instance.smart == old(self).instance.smart,
                self.instance.back == old(self).instance.back,
            decreases n - k,
        {
            let o = self.peers[id][k];
            let ghost done = pl.subrange(0, k as int);
            let ghost done2 = pl.subrange(0, k as int + 1);
            proof {
                assert(pl[k as int] == o);
                assert(done2 =~= done.push(o));
                assert(0 <= o < 81 && o as int != id as int && same_unit(id as int, o as int));
                assert forall|u: usize| done.contains(u) implies done2.contains(u) by {
                    lemma_contains_after_push(done, o, u);
                }
                lemma_contains_after_push(done, o, o);
                assert forall|u: usize| done2.contains(u) implies (done.contains(u) || u == o) by {
                    lemma_contains_after_push(done, o, u);
                }
            }
            let cell = self.instance.sudoku[o];
            match cell {
                Case::Val(_) => {},
                Case::Possibilities(b) => {
                    if b.contains(val) {
                        let nb = b.without(val);
                        self.instance.sudoku[o] = Case::Possibilities(nb);
                        proof {
                            assert(!bm_has(nb.bits, 0));
                            lemma_wf_count_le_9(nb.bits);
                        }
                        let cnt = nb.count();
                        let pr = kpq_set_priority(&mut self.instance.queue, o, 9 - cnt);
                        proof {
                            if pr is None {
                                assert(false);
                            }
                        }
                    }
                },
            }
            k += 1;
        }
        proof {
            let g = self.instance.sudoku@;
            assert(pl.subrange(0, n as int) =~= pl);
            assert(peer_list_wf(pl, id as int));
            // a cell other than id is touched exactly when it is an open peer
            assert forall|c: int|
                0 <= c < 81 && c != id as int && (#[trigger] g0[c]) is Possibilities implies ((
            #[trigger] g[c]) is Possibilities && (forall|e: int|
                bm_has(g[c]->Possibilities_0.bits, e) <==> (bm_has(g0[c]->Possibilities_0.bits, e)
                    && !(same_unit(id as int, c) && e == val as int)))) by {
                if same_unit(id as int, c) {
                    assert(pl.contains(c as usize));
                } else {
                    if pl.contains(c as usize) {
                        let j = choose|j: int| 0 <= j < pl.len() && pl[j] == c as usize;
                        assert(same_unit(id as int, pl[j] as int));
                        assert(false);
                    }
                    assert(g[c] == g0[c]);
                }
            }
            assert forall|c: int|
                0 <= c < 81 && c != id as int && !((#[trigger] g0[c]) is Possibilities) implies g[c]
                == g0[c] by {
                if pl.contains(c as usize) {
                }
            }
            // well-formed again: propagation holds for the new fixed cell and
            // shrinking keeps it for the old ones
            assert(grid_wf(g));
            assert forall|a: int, b: int|
                0 <= a < 81 && 0 <= b < 81 && a != b && same_unit(a, b) && (#[trigger] g[a]) is Val
                    && (#[trigger] g[b]) is Possibilities implies !bm_has(
                g[b]->Possibilities_0.bits,
                g[a]->Val_0 as int,
            ) by {
                assert(b != id as int);
                assert(g0[b] is Possibilities);
                if a == id as int {
                } else {
                    assert(g[a] == g0[a]);
                }
            }
            assert(prop_ok(g));
            // queue still mirrors the grid
            assert(sync_ok(g, queue_entries(self.instance.queue)));
            // solutions are exactly those of the old grid that pick val at id
            assert forall|sol: Seq<int>|
                #![trigger compat(sol, g0)]
                #![trigger compat(sol, g)]
                sol_ok(sol) implies (compat(sol, g) <==> (compat(sol, g0) && sol[id as int]
                == val as int)) by {
                if compat(sol, g) {
                    assert(sol[id as int] == val as int);
                    assert forall|c: int| 0 <= c < 81 implies match #[trigger] g0[c] {
                        Case::Val(v) => sol[c] == v as int,
                        Case::Possibilities(bb) => bm_has(bb.bits, sol[c]),
                    } by {
                        if c != id as int && g0[c] is Possibilities {
                            assert(bm_has(g[c]->Possibilities_0.bits, sol[c]));
                        }
                    }
                }
                if compat(sol, g0) && sol[id as int] == val as int {
                    assert forall|c: int| 0 <= c < 81 implies match #[trigger] g[c] {
                        Case::Val(v) => sol[c] == v as int,
                        Case::Possibilities(bb) => bm_has(bb.bits, sol[c]),
                    } by {
                        if c != id as int && g0[c] is Possibilities {
                            if same_unit(id as int, c) {
                                assert(sol[c] != sol[id as int]);
                            }
                            assert(bm_has(g[c]->Possibilities_0.bits, sol[c]));
                        }
                    }
                }
            }
            // distinct fixed values stay distinct: the new one was a live
            // candidate, so it clashed with no fixed peer
            if vals_ok(g0) {
                assert forall|a: int, b: int|
                    0 <= a < 81 && 0 <= b < 81 && a != b && same_unit(a, b) && (#[trigger] g[a])
                        is Val && (#[trigger] g[b]) is Val implies g[a]->Val_0 != g[b]->Val_0 by {
                    if a == id as int {
                        assert(g[b] == g0[b]);
                    } else if b == id as int {
                        assert(g[a] == g0[a]);
                    } else {
                        assert(g[a] == g0[a] && g[b] == g0[b]);
                    }
                }
            }
            // the candidate count can only drop
            assert forall|c: int|
                0 <= c < 81 implies case_weight(#[trigger] g[c]) <= case_weight(g0[c]) by {
                if c != id as int && g0[c] is Possibilities {
                    crate::cand::lemma_count_from_le(
                        g[c]->Possibilities_0.bits,
                        g0[c]->Possibilities_0.bits,
                        0,
                    );
                }
            }
            lemma_tc_from_gap(g0, g, 0, id as int);
        }
    }
}

impl Solver {
    /// One pass of subset elimination over the unit the `smart` counter
    /// schedules: find closed groups — k cells of the unit whose combined
    /// candidates are exactly k digits — and narrow each such cell to
    /// exactly those digits, resetting its priority to 9 - k.
    fn smart(&mut self)
        requires
            old(self).instance.wf(),
            units_wf(old(self).units@),
            old(self).instance.smart - old(self).instance.back <= 26,
        ensures
            final(self).instance.wf(),
            final(self).stack == old(self).stack,
            final(self).units == old(self).units,
            final(self).peers == old(self).peers,
            final(self).givens == old(self).givens,
            final(self).instance.smart - final(self).instance.back == old(self).instance.smart
                - old(self).instance.back + 1,
            forall|c: int|
                0 <= c < 81 && !((#[trigger] old(self).instance.sudoku@[c]) is Possibilities)
                    ==> final(self).instance.sudoku@[c] == old(self).instance.sudoku@[c],
            forall|c: int|
                0 <= c < 81 && (#[trigger] old(self).instance.sudoku@[c]) is Possibilities ==> ((
                #[trigger] final(self).instance.sudoku@[c]) is Possibilities && (forall|e: int|
                    bm_has(final(self).instance.sudoku@[c]->Possibilities_0.bits, e) ==> bm_has(
                        old(self).instance.sudoku@[c]->Possibilities_0.bits,
                        e,
                    ))),
            tc(final(self).instance.sudoku@) <= tc(old(self).instance.sudoku@),
            forall|sol: Seq<int>|
                #![trigger compat(sol, old(self).instance.sudoku@)]
                #![trigger compat(sol, final(self).instance.sudoku@)]
                sol_ok(sol) && compat(sol, old(self).instance.sudoku@) ==> compat(
                    sol,
                    final(self).instance.sudoku@,
                ),
            vals_ok(old(self).instance.sudoku@) ==> vals_ok(final(self).instance.sudoku@),
    {
        proof {
            vstd::arithmetic::div_mod::lemma_mod_bound(old(self).instance.smart as int, 27);
        }
        let u_idx = self.instance.smart % 27;
        let ghost g0 = self.instance.sudoku@;
        let ghost uu = self.units@[u_idx as int]@;
        // the unit's cells as flat indices
        let mut ucells: Vec<usize> = Vec::new();
        let mut p: usize = 0;
        while p < 9
            invariant
                p <= 9,
                u_idx < 27,
                *self == *old(self),
                units_wf(self.units@),
                uu == self.units@[u_idx as int]@,
                ucells@.len() == p as int,
                forall|t: int|
                    0 <= t < p as int ==> (#[trigger] ucells@[t]) as int == ucell(uu, t)
                        && ucells@[t] < 81,
            decreases 9 - p,
        {
            let xy = self.units[u_idx][p];
            proof {
                lemma_cid(xy.0 as int, xy.1 as int);
            }
            ucells.push(xy.0 * 9 + xy.1);
            p += 1;
        }
        // for each digit, the mask of unit positions that still offer it
        let mut cellmask: Vec<u16> = Vec::new();
        let mut d0: usize = 0;
        while d0 < 10
            invariant
                d0 <= 10,
                cellmask@.len() == d0 as int,
                forall|x: int| 0 <= x < d0 as int ==> #[trigger] cellmask@[x] == 0u16,
            decreases 10 - d0,
        {
            cellmask.push(0u16);
            d0 += 1;
        }
        proof {
            crate::cand::lemma_bm_zero();
        }
        let mut p: usize = 0;
        while p < 9
            invariant
                p <= 9,
                u_idx < 27,
                *self == *old(self),
                g0 == self.instance.sudoku@,
                grid_wf(g0),
                units_wf(self.units@),
                uu == self.units@[u_idx as int]@,
                ucells@.len() == 9,
                forall|t: int|
                    0 <= t < 9 ==> (#[trigger] ucells@[t]) as int == ucell(uu, t) && ucells@[t]
                        < 81,
                cellmask@.len() == 10,
                forall|e: int, q: int|
                    #![trigger bm_has(cellmask@[e], q)]
                    1 <= e <= 9 && 0 <= q <= 9 ==> (bm_has(cellmask@[e], q) <==> (q
                        < p as int && g0[ucell(uu, q)] is Possibilities && bm_has(
                        g0[ucell(uu, q)]->Possibilities_0.bits,
                        e,
                    ))),
            decreases 9 - p,
        {
            let id = ucells[p];
            let cell = self.instance.sudoku[id];
            match cell {
                Case::Val(_) => {},
                Case::Possibilities(b) => {
                    let mut d: usize = 1;
                    while d <= 9
                        invariant
                            1 <= d <= 10,
                            p < 9,
                            u_idx < 27,
                            *self == *old(self),
                            g0 == self.instance.sudoku@,
                            grid_wf(g0),
                            uu == self.units@[u_idx as int]@,
                            ucells@.len() == 9,
                            forall|t: int|
                                0 <= t < 9 ==> (#[trigger] ucells@[t]) as int == ucell(uu, t)
                                    && ucells@[t] < 81,
                            cellmask@.len() == 10,
                            g0[ucell(uu, p as int)] == Case::Possibilities(b),
                            forall|e: int, q: int|
                                #![trigger bm_has(cellmask@[e], q)]
                                1 <= e < d as int && 0 <= q <= 9 ==> (bm_has(cellmask@[e], q)
                                    <==> (q < p as int + 1 && g0[ucell(uu, q)] is Possibilities
                                    && bm_has(g0[ucell(uu, q)]->Possibilities_0.bits, e))),
                            forall|e: int, q: int|
                                #![trigger bm_has(cellmask@[e], q)]
                                d as int <= e <= 9 && 0 <= q <= 9 ==> (bm_has(cellmask@[e], q)
                                    <==> (q < p as int && g0[ucell(uu, q)] is Possibilities
                                    && bm_has(g0[ucell(uu, q)]->Possibilities_0.bits, e))),
                        decreases 10 - d,
                    {
                        if b.contains(d) {
                            let cur = cellmask[d];
                            let nm = crate::cand::bm_set_bit(cur, p);
                            cellmask[d] = nm;
                        }
                        d += 1;
                    }
                },
            }
            p += 1;
        }
        // group the digits by equal candidate-cell mask; a group is closed
        // when it has as many digits as cells
        let mut mods: Vec<(usize, u16)> = Vec::new();
        let mut d: usize = 1;
        while d <= 9
            invariant
                1 <= d <= 10,
                u_idx < 27,
                *self == *old(self),
                g0 == self.instance.sudoku@,
                grid_wf(g0),
                prop_ok(g0),
                units_wf(self.units@),
                uu == self.units@[u_idx as int]@,
                ucells@.len() == 9,
                forall|t: int|
                    0 <= t < 9 ==> (#[trigger] ucells@[t]) as int == ucell(uu, t) && ucells@[t]
                        < 81,
                cellmask@.len() == 10,
                forall|e: int, q: int|
                    #![trigger bm_has(cellmask@[e], q)]
                    1 <= e <= 9 && 0 <= q <= 9 ==> (bm_has(cellmask@[e], q) <==> (q < 9
                        && g0[ucell(uu, q)] is Possibilities && bm_has(
                        g0[ucell(uu, q)]->Possibilities_0.bits,
                        e,
                    ))),
                forall|m: int|
                    0 <= m < mods@.len() ==> (#[trigger] mods@[m]).0 < 81 && g0[mods@[m].0 as int]
                        is Possibilities && !bm_has(mods@[m].1, 0) && bm_count(mods@[m].1) >= 1 && (
                    forall|e: int|
                        bm_has(mods@[m].1, e) ==> bm_has(
                            g0[mods@[m].0 as int]->Possibilities_0.bits,
                            e,
                        )) && (forall|sol: Seq<int>|
                        #![trigger compat(sol, g0)]
                        sol_ok(sol) && compat(sol, g0) ==> bm_has(
                            mods@[m].1,
                            sol[mods@[m].0 as int],
                        )),
            decreases 10 - d,
        {
            let cm = cellmask[d];
            if cm != 0u16 {
                let mut dup = false;
                let mut e: usize = 1;
                while e < d
                    invariant
                        1 <= e <= d,
                        d <= 9,
                        cellmask@.len() == 10,
                        cm == cellmask@[d as int],
                        !dup <==> (forall|x: int| 1 <= x < e as int ==> #[trigger] cellmask@[x] != cm),
                    decreases d - e,
                {
                    if cellmask[e] == cm {
                        dup = true;
                    }
                    e += 1;
                }
                if !dup {
                    let mut dm: u16 = 0u16;
                    proof {
                        crate::cand::lemma_bm_zero();
                    }
                    let mut e: usize = 1;
                    while e <= 9
                        invariant
                            1 <= e <= 10,
                            d <= 9,
                            cellmask@.len() == 10,
                            cm == cellmask@[d as int],
                            forall|x: int|
                                #![trigger bm_has(dm, x)]
                                bm_has(dm, x) <==> (1 <= x < e as int && cellmask@[x] == cm),
                        decreases 10 - e,
                    {
                        if cellmask[e] == cm {
                            dm = crate::cand::bm_set_bit(dm, e);
                        }
                        e += 1;
                    }
                    proof {
                        assert(bm_has(dm, d as int));
                        crate::cand::lemma_count_from_has(dm, d as int, 0);
                    }
                    let kc = crate::cand::bm_len(cm);
                    let kd = crate::cand::bm_len(dm);
                    if kc == kd {
                        let mut p2: usize = 0;
                        while p2 < 9
                            invariant
                                p2 <= 9,
                                1 <= d <= 9,
                                u_idx < 27,
                                *self == *old(self),
                                g0 == self.instance.sudoku@,
                                grid_wf(g0),
                                prop_ok(g0),
                                units_wf(self.units@),
                                uu == self.units@[u_idx as int]@,
                                ucells@.len() == 9,
                                forall|t: int|
                                    0 <= t < 9 ==> (#[trigger] ucells@[t]) as int == ucell(uu, t)
                                        && ucells@[t] < 81,
                                cellmask@.len() == 10,
                                cm == cellmask@[d as int],
                                bm_count(cm) == bm_count(dm),
                                !bm_has(dm, 0),
                                bm_count(dm) >= 1,
                                forall|x: int|
                                    #![trigger bm_has(dm, x)]
                                    bm_has(dm, x) <==> (1 <= x <= 9 && cellmask@[x] == cm),
                                forall|e2: int, q: int|
                                    #![trigger bm_has(cellmask@[e2], q)]
                                    1 <= e2 <= 9 && 0 <= q <= 9 ==> (bm_has(cellmask@[e2], q)
                                        <==> (q < 9 && g0[ucell(uu, q)] is Possibilities && bm_has(
                                        g0[ucell(uu, q)]->Possibilities_0.bits,
                                        e2,
                                    ))),
                                forall|m: int|
                                    0 <= m < mods@.len() ==> (#[trigger] mods@[m]).0 < 81 && g0[mods@[m].0 as int]
                                        is Possibilities && !bm_has(mods@[m].1, 0) && bm_count(
                                        mods@[m].1,
                                    ) >= 1 && (forall|e2: int|
                                        bm_has(mods@[m].1, e2) ==> bm_has(
                                            g0[mods@[m].0 as int]->Possibilities_0.bits,
                                            e2,
                                        )) && (forall|sol: Seq<int>|
                                        #![trigger compat(sol, g0)]
                                        sol_ok(sol) && compat(sol, g0) ==> bm_has(
                                            mods@[m].1,
                                            sol[mods@[m].0 as int],
                                        )),
                            decreases 9 - p2,
                        {
                            if crate::cand::bm_test(cm, p2) {
                                let mid = ucells[p2];
                                proof {
                                    assert(cellmask@[d as int] == cm);
                                    assert(bm_has(cellmask@[d as int], p2 as int));
                                    assert(g0[ucell(uu, p2 as int)] is Possibilities && bm_has(
                                        g0[ucell(uu, p2 as int)]->Possibilities_0.bits,
                                        d as int,
                                    ));
                                    assert(!bm_has(cm, 9)) by {
                                        assert(1 <= d <= 9 && 0 <= 9 <= 9);
                                    }
                                    assert forall|e2: int|
                                        bm_has(dm, e2) implies bm_has(
                                        g0[mid as int]->Possibilities_0.bits,
                                        e2,
                                    ) by {
                                        assert(cellmask@[e2] == cm);
                                        assert(bm_has(cellmask@[e2], p2 as int));
                                    }
                                    assert forall|sol: Seq<int>|
                                        #![trigger compat(sol, g0)]
                                        sol_ok(sol) && compat(sol, g0) implies bm_has(
                                        dm,
                                        sol[mid as int],
                                    ) by {
                                        assert forall|e2: int, q: int|
                                            #![trigger bm_has(dm, e2), bm_has(cm, q)]
                                            bm_has(dm, e2) && 0 <= q < 9 implies (bm_has(cm, q)
                                                <==> (g0[ucell(uu, q)] is Possibilities && bm_has(
                                                g0[ucell(uu, q)]->Possibilities_0.bits,
                                                e2,
                                            ))) by {
                                            assert(cellmask@[e2] == cm);
                                            assert(1 <= e2 <= 9 && 0 <= q <= 9);
                                        }
                                        lemma_closed_group(g0, uu, cm, dm, sol, p2 as int);
                                    }
                                }
                                mods.push((mid, dm));
                            }
                            p2 += 1;
                        }
                    }
                }
            }
            d += 1;
        }
        // apply the narrowings, two-phase: the scan above never mutates
        let ghost modsv = mods@;
        let n = mods.len();
        let mut mi: usize = 0;
        while mi < n
            invariant
                mi <= n,
                n == modsv.len(),
                mods@ == modsv,
                g0 == old(self).instance.sudoku@,
                grid_wf(g0),
                self.stack == old(self).stack,
                self.units == old(self).units,
                self.peers == old(self).peers,
                self.givens == old(self).givens,
                self.instance.smart == old(self).instance.smart,
                self.instance.back == old(self).instance.back,
                self.instance.sudoku@.len() == 81,
                sync_ok(self.instance.sudoku@, queue_entries(self.instance.queue)),
                forall|m: int|
                    0 <= m < modsv.len() ==> (#[trigger] modsv[m]).0 < 81 && g0[modsv[m].0 as int]
                        is Possibilities && !bm_has(modsv[m].1, 0) && bm_count(modsv[m].1) >= 1 && (
                    forall|e: int|
                        bm_has(modsv[m].1, e) ==> bm_has(
                            g0[modsv[m].0 as int]->Possibilities_0.bits,
                            e,
                        )) && (forall|sol: Seq<int>|
                        #![trigger compat(sol, g0)]
                        sol_ok(sol) && compat(sol, g0) ==> bm_has(
                            modsv[m].1,
                            sol[modsv[m].0 as int],
                        )),
                forall|c: int|
                    0 <= c < 81 && !((#[trigger] g0[c]) is Possibilities)
                        ==> self.instance.sudoku@[c] == g0[c],
                forall|c: int|
                    0 <= c < 81 && (#[trigger] g0[c]) is Possibilities ==> ((
                    #[trigger] self.instance.sudoku@[c]) is Possibilities && (forall|e: int|
                        bm_has(self.instance.sudoku@[c]->Possibilities_0.bits, e) ==> bm_has(
                            g0[c]->Possibilities_0.bits,
                            e,
                        ))),
                forall|sol: Seq<int>|
                    #![trigger compat(sol, g0)]
                    sol_ok(sol) && compat(sol, g0) ==> compat(sol, self.instance.sudoku@),
            decreases n - mi,
        {
            let m = mods[mi];
            let mid = m.0;
            let dmv = m.1;
            let ghost gprev = self.instance.sudoku@;
            self.instance.sudoku[mid] = Case::Possibilities(CandSet { bits: dmv });
            proof {
                lemma_wf_count_le_9(dmv);
            }
            let cnt = crate::cand::bm_len(dmv);
            let pr = kpq_set_priority(&mut self.instance.queue, mid, 9 - cnt);
            proof {
                if pr is None {
                    assert(false);
                }
                assert forall|sol: Seq<int>|
                    #![trigger compat(sol, g0)]
                    sol_ok(sol) && compat(sol, g0) implies compat(sol, self.instance.sudoku@) by {
                    assert(compat(sol, gprev));
                    assert(bm_has(dmv, sol[mid as int]));
                    assert forall|c: int| 0 <= c < 81 implies match #[trigger] self.instance.sudoku@[c] {
                        Case::Val(v) => sol[c] == v as int,
                        Case::Possibilities(bb) => bm_has(bb.bits, sol[c]),
                    } by {
                        if c != mid as int {
                            assert(self.instance.sudoku@[c] == gprev[c]);
                        }
                    }
                }
            }
            mi += 1;
        }
        // the scheduling counters: one more pass, renormalised as needed
        let s = self.instance.smart + 1;
        self.instance.smart = s;
        if self.instance.back >= 27 {
            self.instance.back = self.instance.back - 27;
            self.instance.smart = self.instance.smart - 27;
        }
        proof {
            let g = self.instance.sudoku@;
            assert forall|c: int| 0 <= c < 81 implies match #[trigger] g[c] {
                Case::Val(v) => 1 <= v <= 9,
                Case::Possibilities(b) => !bm_has(b.bits, 0),
            } by {
                if g0[c] is Possibilities {
                    assert(!bm_has(g0[c]->Possibilities_0.bits, 0));
                } else {
                    assert(g[c] == g0[c]);
                }
            }
            assert(grid_wf(g));
            assert forall|a: int, b: int|
                0 <= a < 81 && 0 <= b < 81 && a != b && same_unit(a, b) && (#[trigger] g[a]) is Val
                    && (#[trigger] g[b]) is Possibilities implies !bm_has(
                g[b]->Possibilities_0.bits,
                g[a]->Val_0 as int,
            ) by {
                assert(g0[a] is Val && g[a] == g0[a]);
                assert(g0[b] is Possibilities);
            }
            assert(prop_ok(g));
            if vals_ok(g0) {
                assert forall|a: int, b: int|
                    0 <= a < 81 && 0 <= b < 81 && a != b && same_unit(a, b) && (#[trigger] g[a])
                        is Val && (#[trigger] g[b]) is Val implies g[a]->Val_0 != g[b]->Val_0 by {
                    assert(g[a] == g0[a] && g[b] == g0[b]);
                }
            }
            assert forall|c: int|
                0 <= c < 81 implies case_weight(#[trigger] g[c]) <= case_weight(g0[c]) by {
                if g0[c] is Possibilities {
                    crate::cand::lemma_count_from_le(
                        g[c]->Possibilities_0.bits,
                        g0[c]->Possibilities_0.bits,
                        0,
                    );
                }
            }
            lemma_tc_from_le(g0, g, 0);
        }
    }
}

spec fn phi_stack(s: Seq<Instance>) -> nat
    decreases s.len(),
{
    if s.len() == 0 {
        0
    } else {
        phi_stack(s.drop_last()) + pow2(tc(s.last().sudoku@))
    }
}

impl Solver {
    /// Run the search to completion. Forced cells are committed at once; a
    /// cell with no candidate left rewinds to the latest snapshot; after a
    /// full deduction sweep without progress a speculative guess is taken,
    /// with a snapshot (minus the tried digit) saved first; otherwise one
    /// Smart Deduction pass runs. `Ok` means every cell is fixed; `Err`
    /// means the given digits admit no solution at all.
    pub fn solve(&mut self) -> (r: Result<(), SolveError>)
        requires
            old(self).inv(),
        ensures
            final(self).inv(),
            final(self).givens() == old(self).givens(),
            grid_fixes(final(self).grid(), final(self).givens()),
            r is Ok ==> all_fixed(final(self).grid()),
            r is Ok && givens_consistent(old(self).givens()) ==> sol_ok(
                grid_vals(final(self).grid()),
            ) && gcompat(grid_vals(final(self).grid()), old(self).givens()),
            r is Err ==> forall|sol: Seq<int>|
                !(sol_ok(sol) && gcompat(sol, old(self).givens())),
            all_fixed(old(self).grid()) ==> r is Ok && final(self).grid() == old(self).grid(),
    {
        loop
            invariant
                self.inv(),
                self.givens == old(self).givens,
                all_fixed(old(self).instance.sudoku@) ==> self.instance.sudoku@ == old(
                    self,
                ).instance.sudoku@,
            decreases
                    phi_stack(self.stack@) + pow2(tc(self.instance.sudoku@)),
                    27 - (self.instance.smart - self.instance.back),
        {
            let ghost pre = *self;
            let m = kpq_peek(&self.instance.queue);
            match m {
                Option::None => {
                    proof {
                        let g = self.instance.sudoku@;
                        assert forall|c: int| 0 <= c < 81 implies (#[trigger] g[c]) is Val by {
                            if g[c] is Possibilities {
                                assert(queue_entries(self.instance.queue).dom().contains(
                                    c as usize,
                                ));
                                assert(false);
                            }
                        }
                        assert(grid_fixes(g, self.givens@));
                        if givens_consistent(self.givens@) {
                            lemma_fixed_grid_solution(g);
                            assert forall|c: int|
                                0 <= c < 81 && (#[trigger] self.givens@[c]) != 0 implies grid_vals(
                                g,
                            )[c] == self.givens@[c] as int by {
                                assert(g[c] == Case::Val(self.givens@[c]));
                            }
                        }
                    }
                    return Result::Ok(());
                },
                Option::Some(kp) => {
                    let id = kp.0;
                    let p = kp.1;
                    let ghost qm = queue_entries(self.instance.queue);
                    let ghost g0 = self.instance.sudoku@;
                    proof {
                        assert(qm.dom().contains(id));
                        assert(id < 81);
                        assert(g0[id as int] is Possibilities);
                        if all_fixed(pre.instance.sudoku@) {
                            assert(false);
                        }
                    }
                    let ghost b0 = g0[id as int]->Possibilities_0;
                    proof {
                        assert(qm[id] as int + bm_count(b0.bits) == 9);
                    }
                    if p == 8 {
                        proof {
                            assert(bm_count(b0.bits) == 1);
                        }
                        self.instance.back = self.instance.smart;
                        let cell = self.instance.sudoku[id];
                        let b = match cell {
                            Case::Possibilities(b) => b,
                            Case::Val(_) => {
                                proof {
                                    assert(false);
                                }
                                CandSet::full()
                            },
                        };
                        let v = b.first();
                        proof {
                            crate::cand::lemma_count_one(b.bits, v as int);
                        }
                        self.commit(id, v);
                        proof {
                            assert forall|sol: Seq<int>|
                                #![trigger gcompat(sol, self.givens@)]
                                (sol_ok(sol) && gcompat(sol, self.givens@)) implies (compat(
                                sol,
                                self.instance.sudoku@,
                            ) || exists|k: int|
                                0 <= k < self.stack@.len() && compat(
                                    sol,
                                    (#[trigger] self.stack@[k]).sudoku@,
                                )) by {
                                assert(gcompat(sol, pre.givens@));
                                if compat(sol, g0) {
                                    assert(bm_has(b0.bits, sol[id as int]));
                                    assert(sol[id as int] == v as int);
                                    assert(compat(sol, self.instance.sudoku@));
                                }
                            }
                            assert(self.inv());
                            // the committed cell had one candidate: the grid
                            // strictly lost weight
                            assert(tc(self.instance.sudoku@) < tc(g0));
                            lemma_pow2_mono(tc(self.instance.sudoku@), tc(g0));
                        }
                    } else if p == 9 {
                        proof {
                            assert(bm_count(b0.bits) == 0);
                            crate::cand::lemma_count_from_zero(b0.bits, 0);
                            assert forall|sol: Seq<int>| sol_ok(sol) implies !compat(sol, g0) by {
                                if compat(sol, g0) {
                                    assert(bm_has(b0.bits, sol[id as int]));
                                }
                            }
                        }
                        let popped = self.stack.pop();
                        match popped {
                            Option::Some(prev) => {
                                proof {
                                    lemma_pow2_pos(tc(g0));
                                    assert(self.stack@ =~= pre.stack@.drop_last());
                                    assert(pre.stack@.last() == prev);
                                }
                                self.instance = prev;
                                proof {
                                    assert forall|sol: Seq<int>|
                                        #![trigger gcompat(sol, self.givens@)]
                                        (sol_ok(sol) && gcompat(sol, self.givens@)) implies (compat(
                                        sol,
                                        self.instance.sudoku@,
                                    ) || exists|k: int|
                                        0 <= k < self.stack@.len() && compat(
                                            sol,
                                            (#[trigger] self.stack@[k]).sudoku@,
                                        )) by {
                                        assert(gcompat(sol, pre.givens@));
                                        assert(!compat(sol, g0));
                                        if exists|k: int|
                                            0 <= k < pre.stack@.len() && compat(
                                                sol,
                                                (#[trigger] pre.stack@[k]).sudoku@,
                                            ) {
                                            let kk = choose|k: int|
                                                0 <= k < pre.stack@.len() && compat(
                                                    sol,
                                                    (#[trigger] pre.stack@[k]).sudoku@,
                                                );
                                            if kk == pre.stack@.len() - 1 {
                                                assert(compat(sol, self.instance.sudoku@));
                                            } else {
                                                assert(self.stack@[kk] == pre.stack@[kk]);
                                            }
                                        }
                                    }
                                    assert(self.inv());
                                }
                            },
                            Option::None => {
                                proof {
                                    assert forall|sol: Seq<int>|
                                        !(sol_ok(sol) && gcompat(
                                            sol,
                                            old(self).givens@,
                                        )) by {
                                        if sol_ok(sol) && gcompat(sol, old(self).givens@) {
                                            assert(gcompat(sol, pre.givens@));
                                            assert(pre.stack@.len() == 0);
                                            assert(compat(sol, g0));
                                            assert(!compat(sol, g0));
                                        }
                                    }
                                }
                                return Result::Err(SolveError::Unsolvable);
                            },
                        }
                    } else if self.instance.smart - self.instance.back == 27 {
                        proof {
                            assert(p as int + bm_count(b0.bits) == 9);
                            assert(p <= 7);
                            assert(bm_count(b0.bits) >= 2);
                        }
                        let cell = self.instance.sudoku[id];
                        let b = match cell {
                            Case::Possibilities(b) => b,
                            Case::Val(_) => {
                                proof {
                                    assert(false);
                                }
                                CandSet::full()
                            },
                        };
                        let v = b.first();
                        let nb = b.without(v);
                        proof {
                            assert(!bm_has(nb.bits, 0));
                            lemma_wf_count_le_9(nb.bits);
                            crate::cand::lemma_count_from_remove(b.bits, nb.bits, v as int, 0);
                        }
                        let mut snap_grid = copy_grid(&self.instance.sudoku);
                        snap_grid[id] = Case::Possibilities(nb);
                        let mut snap_queue = kpq_clone(&self.instance.queue);
                        let ncnt = nb.count();
                        let pr = kpq_set_priority(&mut snap_queue, id, 9 - ncnt);
                        proof {
                            if pr is None {
                                assert(false);
                            }
                        }
                        let snap = Instance {
                            sudoku: snap_grid,
                            queue: snap_queue,
                            smart: self.instance.smart,
                            back: self.instance.back,
                        };
                        proof {
                            let sg = snap.sudoku@;
                            assert(sg == g0.update(id as int, Case::Possibilities(nb)));
                            lemma_tc_from_update(g0, id as int, Case::Possibilities(nb), 0);
                            assert(tc(sg) + 1 == tc(g0));
                            // the snapshot is a well-formed instance
                            assert forall|a: int, c: int|
                                0 <= a < 81 && 0 <= c < 81 && a != c && same_unit(a, c) && (
                                #[trigger] sg[a]) is Val && (#[trigger] sg[c]) is Possibilities
                                implies !bm_has(
                                sg[c]->Possibilities_0.bits,
                                sg[a]->Val_0 as int,
                            ) by {
                                assert(sg[a] == g0[a]);
                                if c != id as int {
                                    assert(sg[c] == g0[c]);
                                }
                            }
                            assert(snap.wf());
                            assert(grid_fixes(sg, self.givens@)) by {
                                assert forall|c: int|
                                    0 <= c < 81 && (#[trigger] self.givens@[c]) != 0 implies sg[c]
                                    == Case::Val(self.givens@[c]) by {
                                    assert(g0[c] == Case::Val(self.givens@[c]));
                                    assert(c != id as int);
                                }
                            }
                            if givens_consistent(self.givens@) {
                                assert forall|a: int, c: int|
                                    0 <= a < 81 && 0 <= c < 81 && a != c && same_unit(a, c) && (
                                    #[trigger] sg[a]) is Val && (#[trigger] sg[c]) is Val
                                    implies sg[a]->Val_0 != sg[c]->Val_0 by {
                                    assert(sg[a] == g0[a] && sg[c] == g0[c]);
                                }
                            }
                        }
                        let ghost old_stack = self.stack@;
                        self.stack.push(snap);
                        self.commit(id, v);
                        proof {
                            assert(self.stack@.drop_last() =~= old_stack);
                            assert(self.stack@.last() == snap);
                            assert(phi_stack(self.stack@) == phi_stack(old_stack) + pow2(
                                tc(snap.sudoku@),
                            ));
                            // solutions split: those picking v follow the live
                            // state, the rest stay with the snapshot
                            assert forall|sol: Seq<int>|
                                #![trigger gcompat(sol, self.givens@)]
                                (sol_ok(sol) && gcompat(sol, self.givens@)) implies (compat(
                                sol,
                                self.instance.sudoku@,
                            ) || exists|k: int|
                                0 <= k < self.stack@.len() && compat(
                                    sol,
                                    (#[trigger] self.stack@[k]).sudoku@,
                                )) by {
                                assert(gcompat(sol, pre.givens@));
                                if compat(sol, g0) {
                                    if sol[id as int] == v as int {
                                        assert(compat(sol, self.instance.sudoku@));
                                    } else {
                                        let sg = snap.sudoku@;
                                        assert forall|c: int|
                                            0 <= c < 81 implies match #[trigger] sg[c] {
                                            Case::Val(vv) => sol[c] == vv as int,
                                            Case::Possibilities(bb) => bm_has(bb.bits, sol[c]),
                                        } by {
                                            if c != id as int {
                                                assert(sg[c] == g0[c]);
                                            } else {
                                                assert(bm_has(b0.bits, sol[c]));
                                            }
                                        }
                                        assert(self.stack@[self.stack@.len() - 1] == snap);
                                        assert(compat(
                                            sol,
                                            self.stack@[self.stack@.len() - 1].sudoku@,
                                        ));
                                    }
                                } else {
                                    let kk = choose|k: int|
                                        0 <= k < pre.stack@.len() && compat(
                                            sol,
                                            (#[trigger] pre.stack@[k]).sudoku@,
                                        );
                                    assert(self.stack@[kk] == pre.stack@[kk]);
                                }
                            }
                            assert(self.inv());
                            // the potential drops: the snapshot lost one
                            // candidate, the live grid at least two
                            let t = tc(g0);
                            crate::model::lemma_tc_from_lb(g0, id as int, 0);
                            assert(t >= 2);
                            assert(tc(self.instance.sudoku@) + 2 <= t);
                            assert(pow2(t) == 2 * pow2((t - 1) as nat));
                            lemma_pow2_mono((t - 2) as nat, (t - 1) as nat);
                            if tc(self.instance.sudoku@) < (t - 2) as nat {
                                lemma_pow2_mono(tc(self.instance.sudoku@), (t - 2) as nat);
                            }
                            assert(pow2(tc(snap.sudoku@)) + pow2(tc(self.instance.sudoku@)) < pow2(
                                t,
                            ));
                        }
                    } else {
                        proof {
                            assert(self.instance.smart - self.instance.back <= 26);
                        }
                        let ghost tpre = tc(self.instance.sudoku@);
                        self.smart();
                        proof {
                            assert forall|sol: Seq<int>|
                                #![trigger gcompat(sol, self.givens@)]
                                (sol_ok(sol) && gcompat(sol, self.givens@)) implies (compat(
                                sol,
                                self.instance.sudoku@,
                            ) || exists|k: int|
                                0 <= k < self.stack@.len() && compat(
                                    sol,
                                    (#[trigger] self.stack@[k]).sudoku@,
                                )) by {
                                assert(gcompat(sol, pre.givens@));
                                if compat(sol, g0) {
                                    assert(compat(sol, self.instance.sudoku@));
                                }
                            }
                            assert(grid_fixes(self.instance.sudoku@, self.givens@)) by {
                                assert forall|c: int|
                                    0 <= c < 81 && (#[trigger] self.givens@[c]) != 0
                                    implies self.instance.sudoku@[c] == Case::Val(
                                    self.givens@[c],
                                ) by {
                                    assert(g0[c] == Case::Val(self.givens@[c]));
                                    assert(!(g0[c] is Possibilities));
                                }
                            }
                            assert(self.inv());
                            if tc(self.instance.sudoku@) < tpre {
                                lemma_pow2_mono(tc(self.instance.sudoku@), tpre);
                            }
                        }
                    }
                },
            }
        }
    }

    /// Read the grid back out: fixed cells as their digit, open cells as 0.
    pub fn into_sudoku(self) -> (r: Sudoku)
        requires
            self.inv(),
        ensures
            r.wf(),
            forall|c: int| 0 <= c < 81 ==> (#[trigger] r.cases@[c]) as int == grid_vals(
                self.grid(),
            )[c],
    {
        let mut cases: Vec<usize> = Vec::new();
        let mut c: usize = 0;
        while c < 81
            invariant
                c <= 81,
                cases@.len() == c as int,
                self.instance.sudoku@.len() == 81,
                grid_wf(self.instance.sudoku@),
                forall|x: int|
                    0 <= x < c as int ==> (#[trigger] cases@[x]) as int == grid_vals(
                        self.instance.sudoku@,
                    )[x] && cases@[x] <= 9,
            decreases 81 - c,
        {
            let cell = self.instance.sudoku[c];
            let v = match cell {
                Case::Val(v) => v,
                Case::Possibilities(_) => 0,
            };
            cases.push(v);
            c += 1;
        }
        Sudoku { cases }
    }

    /// Propagation consistency: under the solver invariant, no open cell
    /// retains a digit that is fixed anywhere in its unit.
    pub proof fn lemma_propagation_consistent(self, a: int, b: int)
        requires
            self.inv(),
            0 <= a < 81,
            0 <= b < 81,
            a != b,
            same_unit(a, b),
            self.grid()[a] is Val,
            self.grid()[b] is Possibilities,
        ensures
            !bm_has(self.grid()[b]->Possibilities_0.bits, self.grid()[a]->Val_0 as int),
    {
    }
}

} // verus!



