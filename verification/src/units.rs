use vstd::prelude::*;

verus! {

// ---------------------------------------------------------------------------
// Grid geometry. Cells are addressed flat: cell (i, j) has index i*9 + j.
// ---------------------------------------------------------------------------

pub open spec fn row_of(c: int) -> int {
    c / 9
}

pub open spec fn col_of(c: int) -> int {
    c % 9
}

pub open spec fn box_of(c: int) -> int {
    (c / 9) / 3 * 3 + (c % 9) / 3
}

/// Two cells share a row, a column, or a 3×3 box.
pub open spec fn same_unit(a: int, b: int) -> bool {
    row_of(a) == row_of(b) || col_of(a) == col_of(b) || box_of(a) == box_of(b)
}

pub open spec fn cid(c: (usize, usize)) -> int {
    c.0 as int * 9 + c.1 as int
}

/// The flat index of cell (x, y), as a `usize`.
pub open spec fn pid(x: int, y: int) -> usize {
    (x * 9 + y) as usize
}

pub proof fn lemma_cid(i: int, j: int)
    requires
        0 <= i < 9,
        0 <= j < 9,
    ensures
        (i * 9 + j) / 9 == i,
        (i * 9 + j) % 9 == j,
        0 <= i * 9 + j < 81,
{
    vstd::arithmetic::div_mod::lemma_fundamental_div_mod_converse(i * 9 + j, 9, i, j);
}

pub proof fn lemma_decomp(c: int)
    requires
        0 <= c < 81,
    ensures
        c == 9 * (c / 9) + c % 9,
        0 <= c % 9 < 9,
        0 <= c / 9 < 9,
{
    vstd::arithmetic::div_mod::lemma_fundamental_div_mod(c, 9);
    vstd::arithmetic::div_mod::lemma_mod_bound(c, 9);
    let q = c / 9;
    if q >= 9 {
        assert(9 * q >= 81);
        assert(false);
    }
    if q < 0 {
        assert(9 * q <= -9);
        assert(false);
    }
}

pub proof fn lemma_div3_range(x: int, q: int)
    requires
        3 * q <= x < 3 * q + 3,
    ensures
        x / 3 == q,
{
    vstd::arithmetic::div_mod::lemma_fundamental_div_mod_converse(x, 3, q, x - 3 * q);
}

pub proof fn lemma_decomp3(c: int)
    requires
        0 <= c < 9,
    ensures
        c == 3 * (c / 3) + c % 3,
        0 <= c % 3 < 3,
        0 <= c / 3 < 3,
{
    vstd::arithmetic::div_mod::lemma_fundamental_div_mod(c, 3);
    vstd::arithmetic::div_mod::lemma_mod_bound(c, 3);
    let q = c / 3;
    if q >= 3 {
        assert(3 * q >= 9);
        assert(false);
    }
    if q < 0 {
        assert(3 * q <= -3);
        assert(false);
    }
}

// ---------------------------------------------------------------------------
// Units: the 27 groups of 9 cells (rows, columns, boxes)
// ---------------------------------------------------------------------------

/// Nine in-range, pairwise distinct cells that pairwise share a unit.
pub open spec fn unit_wf(u: Seq<(usize, usize)>) -> bool {
    &&& u.len() == 9
    &&& forall|p: int| 0 <= p < 9 ==> (#[trigger] u[p]).0 < 9 && u[p].1 < 9
    &&& forall|p: int, q: int| 0 <= p < q < 9 ==> u[p] != u[q]
    &&& forall|p: int, q: int|
        0 <= p < 9 && 0 <= q < 9 ==> same_unit(cid(#[trigger] u[p]), cid(#[trigger] u[q]))
}

pub open spec fn units_wf(us: Seq<Vec<(usize, usize)>>) -> bool {
    us.len() == 27 && forall|k: int| 0 <= k < 27 ==> unit_wf(#[trigger] us[k]@)
}

/// Cell `p` of unit `k`: the 9 rows come first, then the 9 columns, then the
/// 9 boxes in reading order.
pub open spec fn unit_cell(k: int, p: int) -> (usize, usize) {
    if k < 9 {
        (k as usize, p as usize)
    } else if k < 18 {
        (p as usize, (k - 9) as usize)
    } else {
        ((3 * ((k - 18) / 3) + p / 3) as usize, (3 * ((k - 18) % 3) + p % 3) as usize)
    }
}

/// The 27 units: the 9 rows, then the 9 columns, then the 9 boxes.
pub fn parts() -> (r: Vec<Vec<(usize, usize)>>)
    ensures
        units_wf(r@),
        forall|k: int, p: int|
            0 <= k < 27 && 0 <= p < 9 ==> #[trigger] r@[k]@[p] == unit_cell(k, p),
{
    let mut r: Vec<Vec<(usize, usize)>> = Vec::new();
    let mut i: usize = 0;
    while i < 9
        invariant
            i <= 9,
            r@.len() == i as int,
            forall|k: int| 0 <= k < i as int ==> unit_wf(#[trigger] r@[k]@),
            forall|k: int, p: int|
                0 <= k < i as int && 0 <= p < 9 ==> #[trigger] r@[k]@[p] == unit_cell(k, p),
        decreases 9 - i,
    {
        let mut u: Vec<(usize, usize)> = Vec::new();
        let mut j: usize = 0;
        while j < 9
            invariant
                j <= 9,
                i < 9,
                u@.len() == j as int,
            forall|p: int| 0 <= p < j as int ==> #[trigger] u@[p] == (i, p as usize),
            decreases 9 - j,
        {
            u.push((i, j));
            j += 1;
        }
        proof {
            assert forall|p: int, q: int|
                0 <= p < 9 && 0 <= q < 9 implies same_unit(
                cid(#[trigger] u@[p]),
                cid(#[trigger] u@[q]),
            ) by {
                lemma_cid(i as int, p);
                lemma_cid(i as int, q);
            }
            assert(unit_wf(u@));
        }
        r.push(u);
        i += 1;
    }
    let mut jc: usize = 0;
    while jc < 9
        invariant
            jc <= 9,
            r@.len() == 9 + jc as int,
            forall|k: int| 0 <= k < 9 + jc as int ==> unit_wf(#[trigger] r@[k]@),
            forall|k: int, p: int|
                0 <= k < 9 + jc as int && 0 <= p < 9 ==> #[trigger] r@[k]@[p] == unit_cell(k, p),
        decreases 9 - jc,
    {
        let mut u: Vec<(usize, usize)> = Vec::new();
        let mut p: usize = 0;
        while p < 9
            invariant
                p <= 9,
                jc < 9,
                u@.len() == p as int,
            forall|t: int| 0 <= t < p as int ==> #[trigger] u@[t] == (t as usize, jc),
            decreases 9 - p,
        {
            u.push((p, jc));
            p += 1;
        }
        proof {
            assert forall|t: int, q: int|
                0 <= t < 9 && 0 <= q < 9 implies same_unit(
                cid(#[trigger] u@[t]),
                cid(#[trigger] u@[q]),
            ) by {
                lemma_cid(t, jc as int);
                lemma_cid(q, jc as int);
            }
            assert(unit_wf(u@));
        }
        r.push(u);
        jc += 1;
    }
    let mut bi: usize = 0;
    while bi < 9
        invariant
            bi <= 9,
            r@.len() == 18 + bi as int,
            forall|k: int| 0 <= k < 18 + bi as int ==> unit_wf(#[trigger] r@[k]@),
            forall|k: int, p: int|
                0 <= k < 18 + bi as int && 0 <= p < 9 ==> #[trigger] r@[k]@[p] == unit_cell(k, p),
        decreases 9 - bi,
    {
        proof {
            lemma_decomp3(bi as int);
        }
        let bx = bi / 3;
        let by = bi % 3;
        let mut u: Vec<(usize, usize)> = Vec::new();
        let mut p: usize = 0;
        while p < 9
            invariant
                p <= 9,
                bx < 3,
                by < 3,
                u@.len() == p as int,
            forall|t: int|
                0 <= t < p as int ==> #[trigger] u@[t] == (
                    (3 * bx as int + t / 3) as usize,
                    (3 * by as int + t % 3) as usize,
                ),
            decreases 9 - p,
        {
            proof {
                lemma_decomp3(p as int);
            }
            u.push((3 * bx + p / 3, 3 * by + p % 3));
            p += 1;
        }
        proof {
            assert forall|t: int, q: int| 0 <= t < q < 9 implies u@[t] != u@[q] by {
                lemma_decomp3(t);
                lemma_decomp3(q);
            }
            assert forall|t: int, q: int|
                0 <= t < 9 && 0 <= q < 9 implies same_unit(
                cid(#[trigger] u@[t]),
                cid(#[trigger] u@[q]),
            ) by {
                lemma_decomp3(t);
                lemma_decomp3(q);
                let xt = 3 * bx as int + t / 3;
                let yt = 3 * by as int + t % 3;
                let xq = 3 * bx as int + q / 3;
                let yq = 3 * by as int + q % 3;
                lemma_cid(xt, yt);
                lemma_cid(xq, yq);
                lemma_div3_range(xt, bx as int);
                lemma_div3_range(yt, by as int);
                lemma_div3_range(xq, bx as int);
                lemma_div3_range(yq, by as int);
                assert(box_of(cid(u@[t])) == 3 * bx as int + by as int);
                assert(box_of(cid(u@[q])) == 3 * bx as int + by as int);
            }
            assert(unit_wf(u@));
        }
        r.push(u);
        bi += 1;
    }
    r
}

// ---------------------------------------------------------------------------
// Peer lists: for every cell, every other cell that shares a unit with it
// ---------------------------------------------------------------------------

pub open spec fn peer_list_wf(l: Seq<usize>, c: int) -> bool {
    &&& forall|k: int| 0 <= k < l.len() ==> (#[trigger] l[k]) < 81 && l[k] != c && same_unit(c, l[k] as int)
    &&& forall|o: int| 0 <= o < 81 && o != c && same_unit(c, o) ==> l.contains(o as usize)
}

pub open spec fn peers_wf(ps: Seq<Vec<usize>>) -> bool {
    ps.len() == 81 && forall|c: int| 0 <= c < 81 ==> peer_list_wf((#[trigger] ps[c])@, c)
}

pub proof fn lemma_contains_after_push(s: Seq<usize>, v: usize, u: usize)
    requires
        s.contains(u) || u == v,
    ensures
        s.push(v).contains(u),
{
    if s.contains(u) {
        let i = choose|i: int| 0 <= i < s.len() && s[i] == u;
        assert(s.push(v)[i] == u);
    } else {
        assert(s.push(v)[s.len() as int] == v);
    }
}

/// The peer list of one cell (xc, yc): its column, its row, and the rest of
/// its box.
fn peer_list(xc: usize, yc: usize) -> (l: Vec<usize>)
    requires
        xc < 9,
        yc < 9,
    ensures
        peer_list_wf(l@, xc as int * 9 + yc as int),
{
    let ghost c: int = xc as int * 9 + yc as int;
    proof {
        lemma_cid(xc as int, yc as int);
        lemma_decomp3(xc as int);
        lemma_decomp3(yc as int);
    }
    let mut l: Vec<usize> = Vec::new();
    let mut x: usize = 0;
    while x < 9
        invariant
            x <= 9,
            xc < 9,
            yc < 9,
            c == xc as int * 9 + yc as int,
            row_of(c) == xc as int,
            col_of(c) == yc as int,
            forall|k: int|
                0 <= k < l@.len() ==> (#[trigger] l@[k]) < 81 && l@[k] != c && same_unit(
                    c,
                    l@[k] as int,
                ),
            forall|xo: int|
                0 <= xo < x as int && xo != xc as int ==> l@.contains(#[trigger] pid(xo, yc as int)),
        decreases 9 - x,
    {
        if x != xc {
            let ghost old_l = l@;
            let v = x * 9 + yc;
            proof {
                lemma_cid(x as int, yc as int);
            }
            l.push(v);
            proof {
                assert forall|xo: int|
                    0 <= xo < x as int + 1 && xo != xc as int implies l@.contains(
                    #[trigger] pid(xo, yc as int),
                ) by {
                    lemma_contains_after_push(old_l, v, pid(xo, yc as int));
                }
            }
        }
        x += 1;
    }
    let mut y: usize = 0;
    while y < 9
        invariant
            y <= 9,
            xc < 9,
            yc < 9,
            c == xc as int * 9 + yc as int,
            row_of(c) == xc as int,
            col_of(c) == yc as int,
            forall|k: int|
                0 <= k < l@.len() ==> (#[trigger] l@[k]) < 81 && l@[k] != c && same_unit(
                    c,
                    l@[k] as int,
                ),
            forall|xo: int|
                0 <= xo < 9 && xo != xc as int ==> l@.contains(#[trigger] pid(xo, yc as int)),
            forall|yo: int|
                0 <= yo < y as int && yo != yc as int ==> l@.contains(#[trigger] pid(xc as int, yo)),
        decreases 9 - y,
    {
        if y != yc {
            let ghost old_l = l@;
            let v = xc * 9 + y;
            proof {
                lemma_cid(xc as int, y as int);
            }
            l.push(v);
            proof {
                assert forall|xo: int|
                    0 <= xo < 9 && xo != xc as int implies l@.contains(
                    #[trigger] pid(xo, yc as int),
                ) by {
                    lemma_contains_after_push(old_l, v, pid(xo, yc as int));
                }
                assert forall|yo: int|
                    0 <= yo < y as int + 1 && yo != yc as int implies l@.contains(
                    #[trigger] pid(xc as int, yo),
                ) by {
                    lemma_contains_after_push(old_l, v, pid(xc as int, yo));
                }
            }
        }
        y += 1;
    }
    let gridx = (xc / 3) * 3;
    let gridy = (yc / 3) * 3;
    let mut x: usize = gridx;
    while x < gridx + 3
        invariant
            gridx == 3 * (xc as int / 3),
            gridy == 3 * (yc as int / 3),
            gridx <= x <= gridx + 3,
            gridx + 3 <= 9,
            gridy + 3 <= 9,
            xc < 9,
            yc < 9,
            c == xc as int * 9 + yc as int,
            row_of(c) == xc as int,
            col_of(c) == yc as int,
            box_of(c) == 3 * (xc as int / 3) + yc as int / 3,
            forall|k: int|
                0 <= k < l@.len() ==> (#[trigger] l@[k]) < 81 && l@[k] != c && same_unit(
                    c,
                    l@[k] as int,
                ),
            forall|xo: int|
                0 <= xo < 9 && xo != xc as int ==> l@.contains(#[trigger] pid(xo, yc as int)),
            forall|yo: int|
                0 <= yo < 9 && yo != yc as int ==> l@.contains(#[trigger] pid(xc as int, yo)),
            forall|xo: int, yo: int|
                gridx <= xo < x as int && gridy <= yo < gridy + 3 && xo != xc as int && yo
                    != yc as int ==> l@.contains(#[trigger] pid(xo, yo)),
        decreases gridx + 3 - x,
    {
        let mut y: usize = gridy;
        while y < gridy + 3
            invariant
                gridx == 3 * (xc as int / 3),
                gridy == 3 * (yc as int / 3),
                gridx <= x < gridx + 3,
                gridy <= y <= gridy + 3,
                gridx + 3 <= 9,
                gridy + 3 <= 9,
                xc < 9,
                yc < 9,
                c == xc as int * 9 + yc as int,
                row_of(c) == xc as int,
                col_of(c) == yc as int,
                box_of(c) == 3 * (xc as int / 3) + yc as int / 3,
                forall|k: int|
                    0 <= k < l@.len() ==> (#[trigger] l@[k]) < 81 && l@[k] != c && same_unit(
                        c,
                        l@[k] as int,
                    ),
                forall|xo: int|
                    0 <= xo < 9 && xo != xc as int ==> l@.contains(#[trigger] pid(xo, yc as int)),
                forall|yo: int|
                    0 <= yo < 9 && yo != yc as int ==> l@.contains(#[trigger] pid(xc as int, yo)),
                forall|xo: int, yo: int|
                    gridx <= xo < x as int && gridy <= yo < gridy + 3 && xo != xc as int && yo
                        != yc as int ==> l@.contains(#[trigger] pid(xo, yo)),
                forall|yo: int|
                    gridy <= yo < y as int && yo != yc as int && x as int != xc as int
                        ==> l@.contains(#[trigger] pid(x as int, yo)),
            decreases gridy + 3 - y,
        {
            if x != xc && y != yc {
                let ghost old_l = l@;
                let v = x * 9 + y;
                proof {
                    lemma_cid(x as int, y as int);
                    lemma_div3_range(x as int, xc as int / 3);
                    lemma_div3_range(y as int, yc as int / 3);
                    assert(box_of(x as int * 9 + y as int) == box_of(c));
                }
                l.push(v);
                proof {
                    assert forall|xo: int|
                        0 <= xo < 9 && xo != xc as int implies l@.contains(
                        #[trigger] pid(xo, yc as int),
                    ) by {
                        lemma_contains_after_push(old_l, v, pid(xo, yc as int));
                    }
                    assert forall|yo: int|
                        0 <= yo < 9 && yo != yc as int implies l@.contains(
                        #[trigger] pid(xc as int, yo),
                    ) by {
                        lemma_contains_after_push(old_l, v, pid(xc as int, yo));
                    }
                    assert forall|xo: int, yo: int|
                        gridx <= xo < x as int && gridy <= yo < gridy + 3 && xo != xc as int && yo
                            != yc as int implies l@.contains(#[trigger] pid(xo, yo)) by {
                        lemma_contains_after_push(old_l, v, pid(xo, yo));
                    }
                    assert forall|yo: int|
                        gridy <= yo < y as int + 1 && yo != yc as int && x as int != xc as int
                            implies l@.contains(#[trigger] pid(x as int, yo)) by {
                        lemma_contains_after_push(old_l, v, pid(x as int, yo));
                    }
                }
            }
            y += 1;
        }
        x += 1;
    }
    proof {
        assert forall|o: int| 0 <= o < 81 && o != c && same_unit(c, o) implies l@.contains(
            o as usize,
        ) by {
            lemma_decomp(o);
            let xo = o / 9;
            let yo = o % 9;
            assert(o == xo * 9 + yo);
            assert(o as usize == pid(xo, yo));
            if yo == yc as int {
                assert(xo != xc as int);
                assert(l@.contains(pid(xo, yc as int)));
            } else if xo == xc as int {
                assert(l@.contains(pid(xc as int, yo)));
            } else {
                assert(box_of(o) == box_of(c));
                lemma_decomp3(xo);
                lemma_decomp3(yo);
                assert(xo / 3 == xc as int / 3 && yo / 3 == yc as int / 3);
                assert(l@.contains(pid(xo, yo)));
            }
        }
    }
    l
}

/// The 81 peer lists, indexed by flat cell index.
pub fn constraints() -> (r: Vec<Vec<usize>>)
    ensures
        peers_wf(r@),
{
    let mut r: Vec<Vec<usize>> = Vec::new();
    let mut xc: usize = 0;
    while xc < 9
        invariant
            xc <= 9,
            r@.len() == 9 * xc as int,
            forall|c: int| 0 <= c < 9 * xc as int ==> peer_list_wf((#[trigger] r@[c])@, c),
        decreases 9 - xc,
    {
        let mut yc: usize = 0;
        while yc < 9
            invariant
                xc < 9,
                yc <= 9,
                r@.len() == 9 * xc as int + yc as int,
                forall|c: int|
                    0 <= c < 9 * xc as int + yc as int ==> peer_list_wf((#[trigger] r@[c])@, c),
            decreases 9 - yc,
        {
            let l = peer_list(xc, yc);
            proof {
                lemma_cid(xc as int, yc as int);
            }
            r.push(l);
            yc += 1;
        }
        xc += 1;
    }
    r
}

} // verus!
