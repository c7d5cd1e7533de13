//! The local-search optimizer and the two initial-partition strategies: a
//! deterministic tiling for the divisible case and a randomized greedy fill
//! with a bounded retry budget for the rest.

use vstd::prelude::*;

use crate::base::{
    balanced, best_member_in, circ_balanced, dom_has, grids_equal, has_swapable_in, swap_ok,
    heuristic_value_in, mun_has, mun_votes, score_of, score_v, state_equiv, view_of, PartitionError,
    Circonsciption, Problem, State, StateView,
};
use crate::base::{copy_cells, dom_contains, lemma_circ_wf_of_views, lemma_state_equiv_carries, lemma_view_of_equiv, mun_find};
use vstd::assert_by_contradiction;
use rand::distributions::Distribution;

verus! {

/// Relies on rand_distr's `WeightedAliasIndex` over `u64` weights and on
/// rand's `thread_rng`: draws an index with probability proportional to its
/// weight. The drawn index depends on the thread's generator, so nothing is
/// promised of it beyond its range. Construction fails exactly on an empty
/// list, more than `u32::MAX` entries, an entry above `u64::MAX` divided by
/// the length, or an all-zero list.
#[verifier::external_body]
fn sample_weighted(weights: &Vec<u64>) -> (r: Option<usize>)
    ensures
        r matches Some(i) ==> i < weights@.len(),
        (r is Some) <==> (1 <= weights@.len() <= u32::MAX && (forall|k: int|
            0 <= k < weights@.len() ==> weights@[k] <= u64::MAX as int / weights@.len() as int)
            && (exists|k: int| 0 <= k < weights@.len() && weights@[k] > 0)),
{
    match rand_distr::weighted_alias::WeightedAliasIndex::new(weights.clone()) {
        Ok(dist) => Some(dist.sample(&mut rand::thread_rng())),
        Err(_) => None,
    }
}

/// Contribution of one neighbouring position to the enclosure heuristic:
/// positions off the grid count one, assigned cells count two.
pub open spec fn nb_weight_spec(s: State, pb: Problem, x: int, y: int) -> int {
    if !pb.in_grid(x, y) {
        1
    } else if s.grid@[x]@[y] != 0 {
        2
    } else {
        0
    }
}

/// The enclosure heuristic of a cell: five plus the weights of the nine
/// positions of the surrounding box. Cells near the grid edge or near
/// assigned cells score higher, to reduce fragmentation when seeding and
/// growing districts.
pub open spec fn enclosure(s: State, pb: Problem, x: int, y: int) -> int {
    5 + nb_weight_spec(s, pb, x - 1, y - 1) + nb_weight_spec(s, pb, x - 1, y) + nb_weight_spec(
        s,
        pb,
        x - 1,
        y + 1,
    ) + nb_weight_spec(s, pb, x, y - 1) + nb_weight_spec(s, pb, x, y) + nb_weight_spec(
        s,
        pb,
        x,
        y + 1,
    ) + nb_weight_spec(s, pb, x + 1, y - 1) + nb_weight_spec(s, pb, x + 1, y) + nb_weight_spec(
        s,
        pb,
        x + 1,
        y + 1,
    )
}

/// One neighbour weight, the offsets given as `0..=2` standing for the
/// offsets `-1..=1`.
fn nb_weight(sol: &State, pb: &Problem, x: usize, y: usize, ox: usize, oy: usize) -> (r: u64)
    requires
        pb.wf(),
        sol.grid@.len() == pb.lx,
        forall|i: int| 0 <= i < pb.lx ==> #[trigger] sol.grid@[i]@.len() == pb.ly,
        x < pb.lx,
        y < pb.ly,
        ox <= 2,
        oy <= 2,
    ensures
        r == nb_weight_spec(*sol, *pb, x + ox - 1, y + oy - 1),
        r <= 2,
{
    proof {
        assert(pb.lx <= pb.n && pb.ly <= pb.n) by (nonlinear_arith)
            requires
                pb.n == pb.lx * pb.ly,
                1 <= pb.lx,
                1 <= pb.ly,
        ;
    }
    if x + ox == 0 || y + oy == 0 {
        return 1;
    }
    let tx = x + ox - 1;
    let ty = y + oy - 1;
    if tx >= pb.lx || ty >= pb.ly {
        return 1;
    }
    if sol.grid[tx][ty] != 0 {
        2
    } else {
        0
    }
}

/// The sampling weight of an unassigned cell: the square of its enclosure
/// heuristic.
fn filling_heuristic(cell: (usize, usize), sol: &State, pb: &Problem) -> (r: u64)
    requires
        pb.wf(),
        sol.grid@.len() == pb.lx,
        forall|i: int| 0 <= i < pb.lx ==> #[trigger] sol.grid@[i]@.len() == pb.ly,
        cell.0 < pb.lx,
        cell.1 < pb.ly,
    ensures
        r == enclosure(*sol, *pb, cell.0 as int, cell.1 as int) * enclosure(
            *sol,
            *pb,
            cell.0 as int,
            cell.1 as int,
        ),
        25 <= r <= 529,
{
    let (x, y) = cell;
    let s: u64 = 5 + nb_weight(sol, pb, x, y, 0, 0) + nb_weight(sol, pb, x, y, 0, 1) + nb_weight(
        sol,
        pb,
        x,
        y,
        0,
        2,
    ) + nb_weight(sol, pb, x, y, 1, 0) + nb_weight(sol, pb, x, y, 1, 1) + nb_weight(
        sol,
        pb,
        x,
        y,
        1,
        2,
    ) + nb_weight(sol, pb, x, y, 2, 0) + nb_weight(sol, pb, x, y, 2, 1) + nb_weight(
        sol,
        pb,
        x,
        y,
        2,
        2,
    );
    proof {
        assert(5 <= s <= 23);
        assert(s == enclosure(*sol, *pb, x as int, y as int));
        assert(25 <= s * s <= 529) by (nonlinear_arith)
            requires
                5 <= s <= 23,
        ;
    }
    s * s
}

/// Sorts ascending by the first component, by repeated extraction of the
/// earliest minimum: the result is a permutation of the input, and entries
/// with equal keys keep their relative order.
fn sort_pairs(v: Vec<(i128, (usize, usize))>) -> (r: Vec<(i128, (usize, usize))>)
    ensures
        r@.len() == v@.len(),
        forall|i: int, j: int| 0 <= i < j < r@.len() ==> (#[trigger] r@[i]).0 <= (#[trigger] r@[j]).0,
        r@.to_multiset() == v@.to_multiset(),
{
    let ghost v0 = v@;
    let mut rest = v;
    let mut out: Vec<(i128, (usize, usize))> = Vec::new();
    proof {
        broadcast use vstd::seq_lib::group_to_multiset_ensures;

        assert(out@.to_multiset().add(rest@.to_multiset()) =~= v0.to_multiset()) by {
            assert(out@.to_multiset().len() == 0);
        }
    }
    while rest.len() > 0
        invariant
            out@.len() + rest@.len() == v0.len(),
            out@.to_multiset().add(rest@.to_multiset()) == v0.to_multiset(),
            forall|i: int, j: int|
                0 <= i < j < out@.len() ==> (#[trigger] out@[i]).0 <= (#[trigger] out@[j]).0,
            forall|i: int, j: int|
                0 <= i < out@.len() && 0 <= j < rest@.len() ==> (#[trigger] out@[i]).0 <= (
                #[trigger] rest@[j]).0,
        decreases rest@.len(),
    {
        let mut mi: usize = 0;
        let mut k: usize = 1;
        while k < rest.len()
            invariant
                rest@.len() > 0,
                mi < k <= rest@.len(),
                forall|i: int| 0 <= i < k ==> (#[trigger] rest@[i]).0 >= rest@[mi as int].0,
            decreases rest@.len() - k,
        {
            if rest[k].0 < rest[mi].0 {
                mi = k;
            }
            k = k + 1;
        }
        let ghost pre_rest = rest@;
        let ghost pre_out = out@;
        let e = rest.remove(mi);
        out.push(e);
        proof {
            broadcast use vstd::seq_lib::group_to_multiset_ensures;

            assert(rest@.to_multiset() =~= pre_rest.to_multiset().remove(e));
            assert(out@.to_multiset() =~= pre_out.to_multiset().insert(e));
            assert(pre_rest.contains(e)) by {
                assert(pre_rest[mi as int] == e);
            }
            assert(pre_rest.to_multiset().count(e) > 0);
            assert(out@.to_multiset().add(rest@.to_multiset()) =~= v0.to_multiset());
            assert forall|i: int, j: int|
                0 <= i < out@.len() && 0 <= j < rest@.len() implies (#[trigger] out@[i]).0 <= (
            #[trigger] rest@[j]).0 by {
                if j < mi {
                    assert(rest@[j] == pre_rest[j]);
                } else {
                    assert(rest@[j] == pre_rest[j + 1]);
                }
                if i < pre_out.len() {
                    assert(out@[i] == pre_out[i]);
                } else {
                    assert(out@[i] == pre_rest[mi as int]);
                }
            }
        }
    }
    proof {
        broadcast use vstd::seq_lib::group_to_multiset_ensures;

        assert(rest@.to_multiset().len() == 0);
        assert(out@.to_multiset() =~= v0.to_multiset());
    }
    out
}

/// Whether two rows hold the same identifiers.
fn rows_equal(a: &Vec<usize>, b: &Vec<usize>) -> (r: bool)
    ensures
        r == (a@ == b@),
{
    if a.len() != b.len() {
        proof {
            assert(a@.len() != b@.len());
        }
        return false;
    }
    let mut k: usize = 0;
    while k < a.len()
        invariant
            a@.len() == b@.len(),
            k <= a@.len(),
            forall|i: int| 0 <= i < k ==> #[trigger] a@[i] == b@[i],
        decreases a@.len() - k,
    {
        if a[k] != b[k] {
            return false;
        }
        k = k + 1;
    }
    proof {
        assert(a@ =~= b@);
    }
    true
}

/// Whether two grids hold the same assignment.
fn grids_match(a: &Vec<Vec<usize>>, b: &Vec<Vec<usize>>) -> (r: bool)
    ensures
        r == grids_equal(a@, b@),
{
    if a.len() != b.len() {
        return false;
    }
    let mut k: usize = 0;
    while k < a.len()
        invariant
            a@.len() == b@.len(),
            k <= a@.len(),
            forall|i: int| 0 <= i < k ==> #[trigger] a@[i]@ == b@[i]@,
        decreases a@.len() - k,
    {
        if !rows_equal(&a[k], &b[k]) {
            return false;
        }
        k = k + 1;
    }
    true
}

/// Whether the grid configuration was already visited in this run.
fn grid_in_visited(visited: &Vec<Vec<Vec<usize>>>, g: &Vec<Vec<usize>>) -> (r: bool)
    ensures
        r == exists|k: int| 0 <= k < visited@.len() && grids_equal(#[trigger] visited@[k]@, g@),
{
    let mut k: usize = 0;
    while k < visited.len()
        invariant
            k <= visited@.len(),
            forall|i: int| 0 <= i < k ==> !grids_equal(#[trigger] visited@[i]@, g@),
        decreases visited@.len() - k,
    {
        if grids_match(&visited[k], g) {
            return true;
        }
        k = k + 1;
    }
    false
}

/// Whether every cell of the grid is assigned to a district.
fn is_fully_assigned(sol: &State, pb: &Problem) -> (r: bool)
    requires
        pb.wf(),
        sol.wf(pb),
    ensures
        r == sol.fully_assigned(pb),
{
    let mut cx: usize = 0;
    while cx < pb.lx
        invariant
            pb.wf(),
            sol.wf(pb),
            cx <= pb.lx,
            forall|i2: int, j2: int|
                0 <= i2 < cx && 0 <= j2 < pb.ly ==> #[trigger] sol.cell_id(i2, j2) != 0,
        decreases pb.lx - cx,
    {
        let mut cy: usize = 0;
        while cy < pb.ly
            invariant
                pb.wf(),
                sol.wf(pb),
                cx < pb.lx,
                cy <= pb.ly,
                forall|i2: int, j2: int|
                    0 <= i2 < cx && 0 <= j2 < pb.ly ==> #[trigger] sol.cell_id(i2, j2) != 0,
                forall|j2: int| 0 <= j2 < cy ==> #[trigger] sol.cell_id(cx as int, j2) != 0,
            decreases pb.ly - cy,
        {
            if sol.grid[cx][cy] == 0 {
                proof {
                    assert(sol.cell_id(cx as int, cy as int) == 0);
                }
                return false;
            }
            cy = cy + 1;
        }
        cx = cx + 1;
    }
    true
}

/// One randomized fill attempt: seeds each district at the most enclosed
/// unassigned cell, then grows it by weighted random sampling over the
/// unassigned cells of its domain until it holds `n / m` members. Fails
/// when a district's domain runs dry before that.
fn proba_fill(pb: &Problem) -> (r: Result<State, PartitionError>)
    requires
        pb.wf(),
    ensures
        r matches Ok(s) ==> s.wf(pb) && forall|d: int|
            0 <= d < pb.m ==> (#[trigger] s.circonscriptions@[d]).municipalities@.len() == pb.n
                as int / pb.m as int,
        r matches Err(e) ==> e == PartitionError::SearchExhausted,
{
    let mut sol = State::new_empty(pb);
    let mut i: usize = 0;
    while i < pb.m
        invariant
            pb.wf(),
            sol.wf(pb),
            i <= pb.m,
            forall|d: int|
                0 <= d < i ==> (#[trigger] sol.circonscriptions@[d]).municipalities@.len() == pb.n
                    as int / pb.m as int,
            forall|d: int|
                i <= d < pb.m ==> (#[trigger] sol.circonscriptions@[d]).municipalities@.len() == 0,
        decreases pb.m - i,
    {
        let mut best_h: u64 = 0;
        let mut best_spot: Option<(usize, usize)> = None;
        let mut x: usize = 0;
        while x < pb.lx
            invariant
                pb.wf(),
                sol.wf(pb),
                x <= pb.lx,
                best_spot matches Some(c) ==> pb.in_grid(c.0 as int, c.1 as int) && sol.cell_id(
                    c.0 as int,
                    c.1 as int,
                ) == 0,
            decreases pb.lx - x,
        {
            let mut y: usize = 0;
            while y < pb.ly
                invariant
                    pb.wf(),
                    sol.wf(pb),
                    x < pb.lx,
                    y <= pb.ly,
                    best_spot matches Some(c) ==> pb.in_grid(c.0 as int, c.1 as int)
                        && sol.cell_id(c.0 as int, c.1 as int) == 0,
                decreases pb.ly - y,
            {
                if sol.grid[x][y] == 0 {
                    let h = filling_heuristic((x, y), &sol, pb);
                    if h > best_h {
                        best_h = h;
                        best_spot = Some((x, y));
                    }
                }
                y = y + 1;
            }
            x = x + 1;
        }
        let spot = match best_spot {
            Some(c) => c,
            None => {
                return Err(PartitionError::SearchExhausted);
            },
        };
        let r0 = sol.update_grid(spot, i + 1, pb);
        match r0 {
            Ok(_) => {},
            Err(_) => {
                proof {
                    assert(false);
                }
                return Err(PartitionError::SearchExhausted);
            },
        }
        let target = pb.n / pb.m;
        proof {
            assert(target >= 1) by (nonlinear_arith)
                requires
                    1 <= pb.m <= pb.n,
                    target == pb.n as int / pb.m as int,
            ;
            assert(sol.circonscriptions@[i as int].municipalities@.len() == 1);
        }
        let mut cnt: usize = 1;
        while cnt < target
            invariant
                pb.wf(),
                sol.wf(pb),
                i < pb.m,
                1 <= cnt <= target,
                target == pb.n as int / pb.m as int,
                sol.circonscriptions@[i as int].municipalities@.len() == cnt,
                forall|d: int|
                    0 <= d < i ==> (#[trigger] sol.circonscriptions@[d]).municipalities@.len()
                        == pb.n as int / pb.m as int,
                forall|d: int|
                    i + 1 <= d < pb.m ==> (
                    #[trigger] sol.circonscriptions@[d]).municipalities@.len() == 0,
            decreases target - cnt,
        {
            let dom = copy_cells(&sol.circonscriptions[i].domain);
            let mut avail: Vec<(usize, usize)> = Vec::new();
            let mut weights: Vec<u64> = Vec::new();
            let mut k: usize = 0;
            while k < dom.len()
                invariant
                    pb.wf(),
                    sol.wf(pb),
                    i < pb.m,
                    k <= dom@.len(),
                    dom@ == sol.circonscriptions@[i as int].domain@,
                    avail@.len() == weights@.len(),
                    forall|q: int|
                        0 <= q < avail@.len() ==> dom_has(
                            sol.circonscriptions@[i as int].domain@,
                            (#[trigger] avail@[q]).0 as int,
                            avail@[q].1 as int,
                        ) && pb.in_grid(avail@[q].0 as int, avail@[q].1 as int) && sol.cell_id(
                            avail@[q].0 as int,
                            avail@[q].1 as int,
                        ) == 0,
                    forall|q: int| 0 <= q < weights@.len() ==> 25 <= #[trigger] weights@[q] <= 529,
                decreases dom@.len() - k,
            {
                let c = dom[k];
                proof {
                    assert(pb.in_grid(
                        sol.circonscriptions@[i as int].domain@[k as int].0 as int,
                        sol.circonscriptions@[i as int].domain@[k as int].1 as int,
                    ));
                }
                if sol.grid[c.0][c.1] == 0 {
                    let h = filling_heuristic(c, &sol, pb);
                    avail.push(c);
                    weights.push(h);
                    proof {
                        assert(dom_has(
                            sol.circonscriptions@[i as int].domain@,
                            c.0 as int,
                            c.1 as int,
                        ));
                    }
                }
                k = k + 1;
            }
            if avail.len() == 0 {
                return Err(PartitionError::SearchExhausted);
            }
            if avail.len() > 0xffff_ffff {
                return Err(PartitionError::SearchExhausted);
            }
            proof {
                assert(u64::MAX as int / 0xffff_ffff as int >= 529);
                assert forall|q: int| 0 <= q < weights@.len() implies #[trigger] weights@[q]
                    <= u64::MAX as int / weights@.len() as int by {
                    vstd::arithmetic::div_mod::lemma_div_is_ordered_by_denominator(
                        u64::MAX as int,
                        weights@.len() as int,
                        0xffff_ffff,
                    );
                }
                assert(weights@[0] > 0);
            }
            match sample_weighted(&weights) {
                Some(idx) => {
                    let cell = avail[idx];
                    let r1 = sol.update_grid(cell, i + 1, pb);
                    match r1 {
                        Ok(_) => {},
                        Err(_) => {
                            proof {
                                assert(false);
                            }
                            return Err(PartitionError::SearchExhausted);
                        },
                    }
                },
                None => {
                    proof {
                        assert(false);
                    }
                    return Err(PartitionError::SearchExhausted);
                },
            }
            cnt = cnt + 1;
        }
        i = i + 1;
    }
    Ok(sol)
}

/// The bounded retry loop around `proba_fill`: after a successful fill it
/// mops the remaining unassigned cells into districts whose domain holds
/// them, under the size cap `n/m + 1`, and returns the first attempt that
/// leaves no cell unassigned.
fn lv_fill(pb: &Problem, max_iter: usize) -> (r: Result<State, PartitionError>)
    requires
        pb.wf(),
    ensures
        r matches Ok(s) ==> s.wf(pb) && s.fully_assigned(pb) && balanced(s, *pb),
        r matches Err(e) ==> e == PartitionError::SearchExhausted,
{
    let mut it: usize = 0;
    while it < max_iter
        invariant
            pb.wf(),
        decreases max_iter - it,
    {
        let attempt = proba_fill(pb);
        match attempt {
            Ok(mut sol) => {
                let cap = pb.n / pb.m + 1;
                let mut x: usize = 0;
                while x < pb.lx
                    invariant
                        pb.wf(),
                        sol.wf(pb),
                        cap == pb.n as int / pb.m as int + 1,
                        x <= pb.lx,
                    decreases pb.lx - x,
                {
                    let mut y: usize = 0;
                    while y < pb.ly
                        invariant
                            pb.wf(),
                            sol.wf(pb),
                            cap == pb.n as int / pb.m as int + 1,
                            x < pb.lx,
                            y <= pb.ly,
                        decreases pb.ly - y,
                    {
                        if sol.grid[x][y] == 0 {
                            let mut c: usize = 0;
                            while c < pb.m
                                invariant
                                    pb.wf(),
                                    sol.wf(pb),
                                    cap == pb.n as int / pb.m as int + 1,
                                    x < pb.lx,
                                    y < pb.ly,
                                    c <= pb.m,
                                decreases pb.m - c,
                            {
                                if sol.circonscriptions[c].municipalities.len() < cap
                                    && dom_contains(&sol.circonscriptions[c].domain, x, y) {
                                    proof {
                                        // a cell in a district's domain is not
                                        // among its members
                                        assert_by_contradiction!(
                                            sol.cell_id(x as int, y as int) != c + 1,
                                            {
                                                assert(mun_has(
                                                    sol.circonscriptions@[c as int].municipalities@,
                                                    x as int, y as int));
                                                let w = choose|w: int| 0 <= w
                                                    < sol.circonscriptions@[c as int].domain@.len()
                                                    && (#[trigger] sol.circonscriptions@[c as int].domain@[w]).0 == x
                                                    && sol.circonscriptions@[c as int].domain@[w].1 == y;
                                            }
                                        );
                                    }
                                    let r1 = sol.update_grid((x, y), c + 1, pb);
                                    match r1 {
                                        Ok(_) => {},
                                        Err(_) => {
                                            proof {
                                                assert(false);
                                            }
                                        },
                                    }
                                }
                                c = c + 1;
                            }
                        }
                        y = y + 1;
                    }
                    x = x + 1;
                }
                // keep the attempt only when every cell found a district
                // and the sizes came out balanced
                if is_fully_assigned(&sol, pb) && sol.is_valid(pb) {
                    return Ok(sol);
                }
            },
            Err(_) => {},
        }
        it = it + 1;
    }
    Err(PartitionError::SearchExhausted)
}

/// Whether the rectangular tile shape `(i, j)` is a candidate: its area is
/// a multiple of the district size, it evenly divides the grid, and its
/// perimeter estimate is compatible with the compactness radius (a product
/// beyond the machine word is treated as compatible).
pub open spec fn tile_ok(pb: Problem, i: int, j: int) -> bool {
    let k = pb.n as int / pb.m as int;
    &&& 1 <= i <= pb.lx
    &&& 1 <= j <= pb.ly
    &&& (i * j) % k == 0
    &&& pb.lx as int % i == 0
    &&& pb.ly as int % j == 0
    &&& (pb.radius * (i * j) > usize::MAX || i + j - 2 <= (pb.radius * (i * j)) / k)
}

/// The deterministic tiling strategy for the divisible case: picks the
/// smallest-area candidate tile shape (ties broken toward the earliest
/// enumerated, row count first); clusters the tile's cells into same-size
/// groups by nearest-neighbour growth; and replicates the tile pattern
/// across the grid with per-tile identifier offsets. Fails when no
/// candidate tile exists or the construction leaves a cell unassigned, a
/// district unbalanced, or an assignment outside a domain.
fn exact_tiling(pb: &Problem) -> (r: Result<State, PartitionError>)
    requires
        pb.wf(),
    ensures
        r matches Ok(s) ==> s.wf(pb) && s.fully_assigned(pb) && balanced(s, *pb),
        (forall|i: int, j: int| !tile_ok(*pb, i, j)) ==> r == Err::<State, PartitionError>(
            PartitionError::SearchExhausted,
        ),
        r matches Err(e) ==> (e == PartitionError::SearchExhausted || e
            == PartitionError::InvalidAssignment),
{
    let k = pb.n / pb.m;
    if k == 0 {
        return Err(PartitionError::SearchExhausted);
    }
    proof {
        assert(pb.lx <= pb.n && pb.ly <= pb.n) by (nonlinear_arith)
            requires
                pb.n == pb.lx * pb.ly,
                1 <= pb.lx,
                1 <= pb.ly,
        ;
    }
    let mut keyed: Vec<(i128, (usize, usize))> = Vec::new();
    let mut i: usize = 1;
    while i <= pb.lx
        invariant
            pb.wf(),
            pb.lx <= pb.n,
            pb.ly <= pb.n,
            1 <= k,
            1 <= i <= pb.lx + 1,
            k == pb.n as int / pb.m as int,
            keyed@.len() > 0 ==> exists|i2: int, j2: int| tile_ok(*pb, i2, j2),
            forall|q: int|
                0 <= q < keyed@.len() ==> {
                    let t = (#[trigger] keyed@[q]).1;
                    1 <= t.0 <= pb.lx && 1 <= t.1 <= pb.ly
                },
        decreases pb.lx + 1 - i,
    {
        let mut j: usize = 1;
        while j <= pb.ly
            invariant
                pb.wf(),
                pb.lx <= pb.n,
                pb.ly <= pb.n,
                1 <= k,
                1 <= i <= pb.lx,
                1 <= j <= pb.ly + 1,
                k == pb.n as int / pb.m as int,
                keyed@.len() > 0 ==> exists|i2: int, j2: int| tile_ok(*pb, i2, j2),
                forall|q: int|
                    0 <= q < keyed@.len() ==> {
                        let t = (#[trigger] keyed@[q]).1;
                        1 <= t.0 <= pb.lx && 1 <= t.1 <= pb.ly
                    },
            decreases pb.ly + 1 - j,
        {
            if let Some(area) = i.checked_mul(j) {
                if area % k == 0 && pb.lx % i == 0 && pb.ly % j == 0 {
                    let fits = match pb.radius.checked_mul(area) {
                        Some(v) => i + j - 2 <= v / k,
                        None => true,
                    };
                    if fits {
                        proof {
                            assert(tile_ok(*pb, i as int, j as int));
                        }
                        keyed.push((area as i128, (i, j)));
                    }
                }
            }
            j = j + 1;
        }
        i = i + 1;
    }
    if keyed.len() == 0 {
        return Err(PartitionError::SearchExhausted);
    }
    proof {
        // from here on a candidate tile is known to exist
        assert(exists|i2: int, j2: int| tile_ok(*pb, i2, j2));
    }
    let sorted = sort_pairs(keyed);
    let (x, y) = sorted[0].1;
    if x == 0 || y == 0 || x > pb.lx || y > pb.ly || pb.lx % x != 0 || pb.ly % y != 0 {
        return Err(PartitionError::SearchExhausted);
    }
    let tile_area = match x.checked_mul(y) {
        Some(a) => a,
        None => {
            return Err(PartitionError::SearchExhausted);
        },
    };
    // cluster the tile's cells into groups of k
    let mut pattern: Vec<Vec<usize>> = Vec::new();
    let mut bi: usize = 0;
    while bi < x
        invariant
            bi <= x,
            pattern@.len() == bi,
            forall|q: int| 0 <= q < bi ==> #[trigger] pattern@[q]@.len() == y,
        decreases x - bi,
    {
        let mut row: Vec<usize> = Vec::new();
        let mut bj: usize = 0;
        while bj < y
            invariant
                bj <= y,
                row@.len() == bj,
            decreases y - bj,
        {
            row.push(0);
            bj = bj + 1;
        }
        pattern.push(row);
        bi = bi + 1;
    }
    let mut c: usize = 1;
    let mut ti: usize = 0;
    while ti < x
        invariant
            pb.wf(),
            exists|i2: int, j2: int| tile_ok(*pb, i2, j2),
            1 <= x <= pb.lx,
            1 <= y <= pb.ly,
            1 <= k,
            1 <= c,
            ti <= x,
            pattern@.len() == x,
            forall|q: int| 0 <= q < x ==> #[trigger] pattern@[q]@.len() == y,
        decreases x - ti,
    {
        let mut tj: usize = 0;
        while tj < y
            invariant
                pb.wf(),
                exists|i2: int, j2: int| tile_ok(*pb, i2, j2),
                1 <= x <= pb.lx,
                1 <= y <= pb.ly,
                1 <= k,
                1 <= c,
                ti < x,
                tj <= y,
                pattern@.len() == x,
                forall|q: int| 0 <= q < x ==> #[trigger] pattern@[q]@.len() == y,
            decreases y - tj,
        {
            if pattern[ti][tj] == 0 {
                // unfilled tile cells, nearest to the anchor first
                let mut cand: Vec<(i128, (usize, usize))> = Vec::new();
                let mut ui: usize = 0;
                while ui < x
                    invariant
                        pb.wf(),
                        1 <= x <= pb.lx,
                        1 <= y <= pb.ly,
                        ti < x,
                        tj < y,
                        ui <= x,
                        pattern@.len() == x,
                        forall|q: int| 0 <= q < x ==> #[trigger] pattern@[q]@.len() == y,
                    decreases x - ui,
                {
                    let mut uj: usize = 0;
                    while uj < y
                        invariant
                            pb.wf(),
                            1 <= x <= pb.lx,
                            1 <= y <= pb.ly,
                            ti < x,
                            tj < y,
                            ui < x,
                            uj <= y,
                            pattern@.len() == x,
                            forall|q: int| 0 <= q < x ==> #[trigger] pattern@[q]@.len() == y,
                        decreases y - uj,
                    {
                        if pattern[ui][uj] == 0 {
                            proof {
                                assert(pb.lx <= pb.n && pb.ly <= pb.n) by (nonlinear_arith)
                                    requires
                                        pb.n == pb.lx * pb.ly,
                                        1 <= pb.lx,
                                        1 <= pb.ly,
                                ;
                            }
                            let d = crate::util::cell_dist(ui, uj, ti, tj);
                            cand.push((d as i128, (ui, uj)));
                        }
                        uj = uj + 1;
                    }
                    ui = ui + 1;
                }
                let scand = sort_pairs(cand);
                let mut t: usize = 0;
                let mut taken: usize = 0;
                while t < scand.len() && taken < k
                    invariant
                        1 <= x,
                        1 <= y,
                        t <= scand@.len(),
                        pattern@.len() == x,
                        forall|q: int| 0 <= q < x ==> #[trigger] pattern@[q]@.len() == y,
                    decreases scand@.len() - t,
                {
                    let (ui, uj) = scand[t].1;
                    if ui < x && uj < y {
                        if pattern[ui][uj] == 0 {
                            let mut prow = crate::base::copy_row(&pattern[ui]);
                            prow.set(uj, c);
                            pattern.set(ui, prow);
                            taken = taken + 1;
                        }
                    }
                    t = t + 1;
                }
                c = match c.checked_add(1) {
                    Some(v) => v,
                    None => {
                        return Err(PartitionError::SearchExhausted);
                    },
                };
            }
            tj = tj + 1;
        }
        ti = ti + 1;
    }
    // replicate the pattern across the grid
    let mut sol = State::new_empty(pb);
    let ids_per_tile = tile_area / k;
    let reps_x = pb.lx / x;
    let reps_y = pb.ly / y;
    let mut p: usize = 0;
    let mut i2: usize = 0;
    while i2 < reps_x
        invariant
            pb.wf(),
            exists|i2: int, j2: int| tile_ok(*pb, i2, j2),
            sol.wf(pb),
            1 <= x <= pb.lx,
            1 <= y <= pb.ly,
            i2 <= reps_x,
            pattern@.len() == x,
            forall|q: int| 0 <= q < x ==> #[trigger] pattern@[q]@.len() == y,
        decreases reps_x - i2,
    {
        let mut j2: usize = 0;
        while j2 < reps_y
            invariant
                pb.wf(),
                exists|i2: int, j2: int| tile_ok(*pb, i2, j2),
                sol.wf(pb),
                1 <= x <= pb.lx,
                1 <= y <= pb.ly,
                i2 < reps_x,
                j2 <= reps_y,
                pattern@.len() == x,
                forall|q: int| 0 <= q < x ==> #[trigger] pattern@[q]@.len() == y,
            decreases reps_y - j2,
        {
            let mut di: usize = 0;
            while di < x
                invariant
                    pb.wf(),
                    exists|i2: int, j2: int| tile_ok(*pb, i2, j2),
                    sol.wf(pb),
                    1 <= x <= pb.lx,
                    1 <= y <= pb.ly,
                    di <= x,
                    pattern@.len() == x,
                    forall|q: int| 0 <= q < x ==> #[trigger] pattern@[q]@.len() == y,
                decreases x - di,
            {
                let mut dj: usize = 0;
                while dj < y
                    invariant
                        pb.wf(),
                        exists|i2: int, j2: int| tile_ok(*pb, i2, j2),
                        sol.wf(pb),
                        1 <= x <= pb.lx,
                        1 <= y <= pb.ly,
                        di < x,
                        dj <= y,
                        pattern@.len() == x,
                        forall|q: int| 0 <= q < x ==> #[trigger] pattern@[q]@.len() == y,
                    decreases y - dj,
                {
                    let base = pattern[di][dj];
                    let off = match p.checked_mul(ids_per_tile) {
                        Some(v) => v,
                        None => {
                            return Err(PartitionError::SearchExhausted);
                        },
                    };
                    let id = match base.checked_add(off) {
                        Some(v) => v,
                        None => {
                            return Err(PartitionError::SearchExhausted);
                        },
                    };
                    if id == 0 || id > pb.m {
                        return Err(PartitionError::SearchExhausted);
                    }
                    let cx = match i2.checked_mul(x) {
                        Some(v) => match v.checked_add(di) {
                            Some(w) => w,
                            None => {
                                return Err(PartitionError::SearchExhausted);
                            },
                        },
                        None => {
                            return Err(PartitionError::SearchExhausted);
                        },
                    };
                    let cy = match j2.checked_mul(y) {
                        Some(v) => match v.checked_add(dj) {
                            Some(w) => w,
                            None => {
                                return Err(PartitionError::SearchExhausted);
                            },
                        },
                        None => {
                            return Err(PartitionError::SearchExhausted);
                        },
                    };
                    if cx >= pb.lx || cy >= pb.ly {
                        return Err(PartitionError::SearchExhausted);
                    }
                    if sol.grid[cx][cy] != 0 {
                        return Err(PartitionError::SearchExhausted);
                    }
                    let ru = sol.update_grid((cx, cy), id, pb);
                    match ru {
                        Ok(_) => {},
                        Err(_) => {
                            return Err(PartitionError::InvalidAssignment);
                        },
                    }
                    dj = dj + 1;
                }
                di = di + 1;
            }
            p = match p.checked_add(1) {
                Some(v) => v,
                None => {
                    return Err(PartitionError::SearchExhausted);
                },
            };
            j2 = j2 + 1;
        }
        i2 = i2 + 1;
    }
    // the tiling must have covered every cell, in balanced districts
    if is_fully_assigned(&sol, pb) && sol.is_valid(pb) {
        Ok(sol)
    } else {
        Err(PartitionError::SearchExhausted)
    }
}

/// Builds a starting partition: the exact tiling when the district size
/// divides the cell count evenly, the bounded randomized greedy fill
/// otherwise. An error means no feasible partition was found.
pub fn init_sol(pb: &Problem) -> (r: Result<State, PartitionError>)
    requires
        pb.wf(),
    ensures
        r matches Ok(s) ==> s.wf(pb) && s.fully_assigned(pb) && balanced(s, *pb),
        r matches Err(e) ==> (e == PartitionError::SearchExhausted || e
            == PartitionError::InvalidAssignment),
        pb.n as int % pb.m as int != 0 && r is Err ==> r == Err::<State, PartitionError>(
            PartitionError::SearchExhausted,
        ),
        pb.n as int % pb.m as int == 0 && (forall|i: int, j: int| !tile_ok(*pb, i, j)) ==> r
            == Err::<State, PartitionError>(PartitionError::SearchExhausted),
{
    let max_iter: usize = 100000;
    if pb.n % pb.m != 0 {
        lv_fill(pb, max_iter)
    } else {
        exact_tiling(pb)
    }
}

/// A candidate move of the engine for district `d` in a partition with
/// view `v`: a cell of that district's swap frontier (in its domain and
/// not among its members).
pub open spec fn engine_candidate(v: StateView, pb: Problem, d: int, t: (usize, usize)) -> bool {
    &&& 0 <= d < v.doms.len()
    &&& pb.in_grid(t.0 as int, t.1 as int)
    &&& dom_has(v.doms[d], t.0 as int, t.1 as int)
    &&& !mun_has(v.munss[d], t.0 as int, t.1 as int)
}

/// The identifier a cell would carry after exchanging the assignments of
/// the two cells `a` and `b`.
pub open spec fn swapped_cell(v: StateView, a: (usize, usize), b: (usize, usize), x: int, y: int) -> int {
    if x == a.0 && y == a.1 {
        v.grid[b.0 as int][b.1 as int] as int
    } else if x == b.0 && y == b.1 {
        v.grid[a.0 as int][a.1 as int] as int
    } else {
        v.grid[x][y] as int
    }
}

/// Whether a recorded grid equals the grid of `v` after exchanging the
/// assignments of `a` and `b`.
pub open spec fn grid_matches_swapped(
    g: Seq<Vec<usize>>,
    v: StateView,
    pb: Problem,
    a: (usize, usize),
    b: (usize, usize),
) -> bool {
    &&& g.len() == v.grid.len()
    &&& forall|x: int| 0 <= x < g.len() ==> (#[trigger] g[x]@).len() == v.grid[x].len()
    &&& forall|x: int, y: int|
        pb.in_grid(x, y) ==> #[trigger] g[x]@[y] == swapped_cell(v, a, b, x, y)
}

/// Whether the configuration reached by exchanging `a` and `b` is already
/// among the visited grids.
pub open spec fn swapped_visited(
    vs: Seq<Vec<Vec<usize>>>,
    v: StateView,
    pb: Problem,
    a: (usize, usize),
    b: (usize, usize),
) -> bool {
    exists|kv: int| 0 <= kv < vs.len() && grid_matches_swapped(#[trigger] vs[kv]@, v, pb, a, b)
}

/// The score after exchanging cell `a` of one district for cell `b` of
/// another: each of the two districts trades the votes of the two cells,
/// sizes are unchanged.
pub open spec fn swapped_score(v: StateView, pb: Problem, a: (usize, usize), b: (usize, usize)) -> int {
    let da = v.grid[a.0 as int][a.1 as int] as int;
    let db = v.grid[b.0 as int][b.1 as int] as int;
    let ma = v.munss[da - 1];
    let mb = v.munss[db - 1];
    let va = pb.vote_at(a.0 as int, a.1 as int);
    let vb = pb.vote_at(b.0 as int, b.1 as int);
    score_v(v.munss) - (if mun_votes(ma) > 50 * ma.len() {
        1int
    } else {
        0int
    }) - (if mun_votes(mb) > 50 * mb.len() {
        1int
    } else {
        0int
    }) + (if mun_votes(ma) - va + vb > 50 * ma.len() {
        1int
    } else {
        0int
    }) + (if mun_votes(mb) - vb + va > 50 * mb.len() {
        1int
    } else {
        0int
    })
}

/// Why the engine cannot use the candidate of district `d` at target `t`
/// against the partition with view `v`: no member can be swapped in, the
/// designated swap has heuristic value zero, the configuration it reaches
/// was already visited, or that configuration does not raise (in strict
/// acceptance: does not strictly raise) the score.
#[verifier::opaque]
pub open spec fn candidate_rejected(
    v: StateView,
    vs: Seq<Vec<Vec<usize>>>,
    pb: Problem,
    neutral: bool,
    d: int,
    t: (usize, usize),
) -> bool {
    let e = v.grid[t.0 as int][t.1 as int] as int;
    let muns = v.munss[d];
    let tdom = v.doms[e - 1];
    let tmuns = v.munss[e - 1];
    let kb = best_member_in(muns, tdom, tmuns);
    let bm = (muns[kb].0, muns[kb].1);
    ||| !has_swapable_in(muns, tdom, tmuns)
    ||| heuristic_value_in(muns, tdom, tmuns, pb, t.0 as int, t.1 as int) == 0
    ||| swapped_visited(vs, v, pb, bm, t)
    ||| swapped_score(v, pb, bm, t) < score_v(v.munss)
    ||| (!neutral && swapped_score(v, pb, bm, t) == score_v(v.munss))
}

/// The candidate at target `t` of district `d` is dealt with: absent or
/// rejected.
pub open spec fn target_done(
    v: StateView,
    vs: Seq<Vec<Vec<usize>>>,
    pb: Problem,
    neutral: bool,
    d: int,
    t: (usize, usize),
) -> bool {
    engine_candidate(v, pb, d, t) ==> candidate_rejected(v, vs, pb, neutral, d, t)
}

/// Every candidate of district `d` is dealt with.
pub open spec fn district_blocked(
    v: StateView,
    vs: Seq<Vec<Vec<usize>>>,
    pb: Problem,
    neutral: bool,
    d: int,
) -> bool {
    forall|t: (usize, usize)| #[trigger] target_done(v, vs, pb, neutral, d, t)
}

/// No candidate of any district can be used against the partition with
/// view `v`: a local optimum of the engine's neighbourhood, relative to
/// the visited set and the acceptance mode.
pub open spec fn pass_blocked(
    v: StateView,
    vs: Seq<Vec<Vec<usize>>>,
    pb: Problem,
    neutral: bool,
) -> bool {
    forall|d: int| 0 <= d < v.doms.len() ==> #[trigger] district_blocked(v, vs, pb, neutral, d)
}

/// The first `n` entries of the sorted district order are blocked.
pub open spec fn order_prefix_blocked(
    v: StateView,
    vs: Seq<Vec<Vec<usize>>>,
    pb: Problem,
    neutral: bool,
    order: Seq<(i128, (usize, usize))>,
    n: int,
) -> bool {
    forall|q: int|
        0 <= q < n ==> #[trigger] district_blocked(v, vs, pb, neutral, order[q].1.0 as int)
}

/// The first `n` sorted targets of district `d` are dealt with.
pub open spec fn targets_prefix_done(
    v: StateView,
    vs: Seq<Vec<Vec<usize>>>,
    pb: Problem,
    neutral: bool,
    d: int,
    targets: Seq<(i128, (usize, usize))>,
    n: int,
) -> bool {
    forall|w: int| 0 <= w < n ==> #[trigger] target_done(v, vs, pb, neutral, d, targets[w].1)
}

/// Whether some entry of the sorted order names district index `dd`.
pub open spec fn order_covers(order: Seq<(i128, (usize, usize))>, dd: int) -> bool {
    exists|q: int| 0 <= q < order.len() && (#[trigger] order[q]).1.0 == dd
}

/// Rejection is stable under growth of the visited set.
proof fn lemma_rejected_extend(
    v: StateView,
    vs1: Seq<Vec<Vec<usize>>>,
    vs2: Seq<Vec<Vec<usize>>>,
    pb: Problem,
    neutral: bool,
    d: int,
    t: (usize, usize),
)
    requires
        candidate_rejected(v, vs1, pb, neutral, d, t),
        vs1.len() <= vs2.len(),
        forall|i: int| 0 <= i < vs1.len() ==> #[trigger] vs2[i] == vs1[i],
    ensures
        candidate_rejected(v, vs2, pb, neutral, d, t),
{
    reveal(candidate_rejected);
    let e = v.grid[t.0 as int][t.1 as int] as int;
    let muns = v.munss[d];
    let tdom = v.doms[e - 1];
    let tmuns = v.munss[e - 1];
    let kb = best_member_in(muns, tdom, tmuns);
    let bm = (muns[kb].0, muns[kb].1);
    if swapped_visited(vs1, v, pb, bm, t) {
        let kv = choose|kv: int|
            0 <= kv < vs1.len() && grid_matches_swapped(#[trigger] vs1[kv]@, v, pb, bm, t);
        assert(grid_matches_swapped(vs2[kv]@, v, pb, bm, t));
    }
}

/// A district whose candidates are all dealt with stays blocked when the
/// visited set grows.
proof fn lemma_district_blocked_extend(
    v: StateView,
    vs1: Seq<Vec<Vec<usize>>>,
    vs2: Seq<Vec<Vec<usize>>>,
    pb: Problem,
    neutral: bool,
    d: int,
)
    requires
        district_blocked(v, vs1, pb, neutral, d),
        vs1.len() <= vs2.len(),
        forall|i: int| 0 <= i < vs1.len() ==> #[trigger] vs2[i] == vs1[i],
    ensures
        district_blocked(v, vs2, pb, neutral, d),
{
    assert forall|t: (usize, usize)| #[trigger] target_done(v, vs2, pb, neutral, d, t) by {
        assert(target_done(v, vs1, pb, neutral, d, t));
        if engine_candidate(v, pb, d, t) {
            lemma_rejected_extend(v, vs1, vs2, pb, neutral, d, t);
        }
    }
}

/// A permutation contains every entry of the original, somewhere.
proof fn lemma_perm_cover(src: Seq<(i128, (usize, usize))>, out: Seq<(i128, (usize, usize))>, w0: int)
    requires
        out.to_multiset() == src.to_multiset(),
        0 <= w0 < src.len(),
    ensures
        exists|w: int| 0 <= w < out.len() && #[trigger] out[w] == src[w0],
{
    broadcast use vstd::seq_lib::group_to_multiset_ensures;

    assert(src.contains(src[w0]));
    assert(src.to_multiset().count(src[w0]) > 0);
    assert(out.to_multiset().count(src[w0]) > 0);
    assert(out.contains(src[w0]));
    let w = choose|w: int| 0 <= w < out.len() && out[w] == src[w0];
    assert(0 <= w < out.len() && #[trigger] out[w] == src[w0]);
}

/// The grid recorded after a legal swap is the entry grid with the two
/// cells' identifiers exchanged.
#[verifier::rlimit(100)]
proof fn lemma_grid_after_swap(
    s_before: State,
    post: State,
    g: Seq<Vec<usize>>,
    pb: Problem,
    a: (usize, usize),
    b: (usize, usize),
)
    requires
        pb.wf(),
        s_before.wf(&pb),
        pb.in_grid(a.0 as int, a.1 as int),
        pb.in_grid(b.0 as int, b.1 as int),
        swap_ok(s_before, a, b),
        crate::base::swap_step(s_before, post, a, b, pb),
        grids_equal(g, post.grid@),
    ensures
        grid_matches_swapped(g, view_of(s_before), pb, a, b),
{
    reveal(crate::base::swap_step);
    let v = view_of(s_before);
    assert(g.len() == v.grid.len());
    assert forall|x: int| 0 <= x < g.len() implies (#[trigger] g[x]@).len() == v.grid[x].len() by {
        assert(g[x]@ == post.grid@[x]@);
        assert(v.grid[x] == s_before.grid@[x]@);
    }
    assert forall|x: int, y: int| pb.in_grid(x, y) implies #[trigger] g[x]@[y] == swapped_cell(
        v,
        a,
        b,
        x,
        y,
    ) by {
        assert(g[x]@ == post.grid@[x]@);
        assert(g[x]@[y] == post.cell_id(x, y));
        if x == a.0 && y == a.1 {
            assert(post.cell_id(x, y) == s_before.cell_id(b.0 as int, b.1 as int));
        } else if x == b.0 && y == b.1 {
            assert(post.cell_id(x, y) == s_before.cell_id(a.0 as int, a.1 as int));
        } else {
            assert(post.cell_id(x, y) == s_before.cell_id(x, y));
        }
        assert(v.grid[x][y] == s_before.cell_id(x, y));
        assert(v.grid[a.0 as int][a.1 as int] == s_before.cell_id(a.0 as int, a.1 as int));
        assert(v.grid[b.0 as int][b.1 as int] == s_before.cell_id(b.0 as int, b.1 as int));
    }
}

/// After a legal speculative swap whose resulting grid is among the
/// visited ones, the candidate that produced it stands rejected against
/// the entry state.
#[verifier::rlimit(100)]
proof fn lemma_attempt_rejected(
    s_entry: State,
    s_before: State,
    g: Seq<Vec<usize>>,
    vis: Seq<Vec<Vec<usize>>>,
    pb: Problem,
    neutral: bool,
    dd: int,
    t: (usize, usize),
    best_swap: (usize, usize),
)
    requires
        pb.wf(),
        s_entry.wf(&pb),
        state_equiv(s_before, s_entry),
        0 <= dd < s_before.circonscriptions@.len(),
        pb.in_grid(t.0 as int, t.1 as int),
        1 <= s_before.cell_id(t.0 as int, t.1 as int) <= s_before.circonscriptions@.len(),
        ({
            let e = s_before.cell_id(t.0 as int, t.1 as int);
            let tc = s_before.circonscriptions@[e - 1];
            let ms = s_before.circonscriptions@[dd].municipalities@;
            has_swapable_in(ms, tc.domain@, tc.municipalities@) && best_swap == (
            ms[best_member_in(ms, tc.domain@, tc.municipalities@)].0,
            ms[best_member_in(ms, tc.domain@, tc.municipalities@)].1,
            )
        }),
        grid_matches_swapped(g, view_of(s_before), pb, best_swap, t),
        exists|kv: int| 0 <= kv < vis.len() && grids_equal(#[trigger] vis[kv]@, g),
    ensures
        candidate_rejected(view_of(s_entry), vis, pb, neutral, dd, t),
{
    reveal(candidate_rejected);
    let ve = view_of(s_entry);
    lemma_view_of_equiv(s_before, s_entry);
    assert(s_entry.grid@.len() == pb.lx);
    assert(s_before.grid@.len() == pb.lx);
    assert(s_before.circonscriptions@.len() == s_entry.circonscriptions@.len());
    let e = ve.grid[t.0 as int][t.1 as int] as int;
    assert(ve.grid[t.0 as int] == s_entry.grid@[t.0 as int]@);
    assert(e == s_before.cell_id(t.0 as int, t.1 as int));
    assert(ve.munss[dd] == s_before.circonscriptions@[dd].municipalities@);
    assert(ve.doms[e - 1] == s_before.circonscriptions@[e - 1].domain@);
    assert(ve.munss[e - 1] == s_before.circonscriptions@[e - 1].municipalities@);
    let kb = best_member_in(ve.munss[dd], ve.doms[e - 1], ve.munss[e - 1]);
    let bm = (ve.munss[dd][kb].0, ve.munss[dd][kb].1);
    assert(bm == best_swap);
    let kv = choose|kv: int| 0 <= kv < vis.len() && grids_equal(#[trigger] vis[kv]@, g);
    assert(grid_matches_swapped(vis[kv]@, ve, pb, best_swap, t)) by {
        assert(grid_matches_swapped(g, ve, pb, best_swap, t));
        assert forall|x: int| 0 <= x < vis[kv]@.len() implies (#[trigger] vis[kv]@[x]@).len()
            == ve.grid[x].len() by {
            assert(vis[kv]@[x]@ == g[x]@);
        }
        assert forall|x: int, y: int| pb.in_grid(x, y) implies #[trigger] vis[kv]@[x]@[y]
            == swapped_cell(ve, best_swap, t, x, y) by {
            assert(vis[kv]@[x]@ == g[x]@);
            assert(g[x]@[y] == swapped_cell(ve, best_swap, t, x, y));
        }
    }
    assert(swapped_visited(vis, ve, pb, bm, t));
}

/// One speculative attempt of the engine: for target `t` of the district
/// with index `dd` (its snapshot views given by `circ`), compute the
/// designated counter-swap against the current state, apply it, and keep
/// it only when the configuration is new and the score strictly improves
/// (or stays equal, in neutral acceptance); otherwise restore the saved
/// state. When nothing is kept, the state comes back with equal views and
/// the candidate at `t` stands dealt with.
#[verifier::rlimit(100)]
fn attempt_target(
    pb: &Problem,
    sol: &mut State,
    visited: &mut Vec<Vec<Vec<usize>>>,
    allow_neutral: &mut bool,
    circ: &Circonsciption,
    dd: usize,
    t: (usize, usize),
    Ghost(s_entry): Ghost<State>,
    Ghost(entry_neutral): Ghost<bool>,
) -> (kept: bool)
    requires
        pb.wf(),
        old(sol).wf(pb),
        old(sol).fully_assigned(pb),
        s_entry.wf(pb),
        s_entry.fully_assigned(pb),
        state_equiv(*old(sol), s_entry),
        *old(allow_neutral) == entry_neutral,
        dd < pb.m,
        circ.wf(pb),
        circ.domain@ == s_entry.circonscriptions@[dd as int].domain@,
        circ.municipalities@ == s_entry.circonscriptions@[dd as int].municipalities@,
    ensures
        final(sol).wf(pb),
        final(sol).fully_assigned(pb),
        old(visited)@.len() <= final(visited)@.len(),
        forall|i: int|
            0 <= i < old(visited)@.len() ==> #[trigger] final(visited)@[i] == old(visited)@[i],
        !kept ==> state_equiv(*final(sol), s_entry) && *final(allow_neutral) == entry_neutral,
        !kept ==> target_done(
            view_of(s_entry),
            final(visited)@,
            *pb,
            entry_neutral,
            dd as int,
            t,
        ),
        kept ==> !*final(allow_neutral),
        kept ==> score_of(final(sol).circonscriptions@) >= score_of(old(sol).circonscriptions@),
        (kept && !entry_neutral) ==> score_of(final(sol).circonscriptions@) > score_of(
            old(sol).circonscriptions@,
        ),
        forall|d2: int|
            0 <= d2 < pb.m ==> (#[trigger] final(sol).circonscriptions@[d2]).municipalities@.len()
                == old(sol).circonscriptions@[d2].municipalities@.len(),
{
    let ghost ve = view_of(s_entry);
    let mut kept = false;
    if t.0 < pb.lx && t.1 < pb.ly {
        let hr = circ.swap_heuristic(t.0, t.1, sol, pb);
        let best_swap = hr.0;
        let val = hr.1;
        // a best heuristic of zero means no improvement is reachable for
        // this district at this target
        if val != 0 {
            if dom_contains(&circ.domain, t.0, t.1) && mun_find(&circ.municipalities, t.0, t.1).is_none() {
                proof {
                    // a nonzero value means a member was designated, and it
                    // lies on the grid
                    let e = sol.cell_id(t.0 as int, t.1 as int);
                    let tc = sol.circonscriptions@[e - 1];
                    assert(has_swapable_in(circ.municipalities@, tc.domain@, tc.municipalities@));
                    let kb = best_member_in(circ.municipalities@, tc.domain@, tc.municipalities@);
                    assert(pb.in_grid(
                        circ.municipalities@[kb].0 as int,
                        circ.municipalities@[kb].1 as int,
                    ));
                    assert(dom_has(tc.domain@, best_swap.0 as int, best_swap.1 as int));
                }
                let tid = sol.grid[t.0][t.1];
                let guard = dom_contains(&sol.circonscriptions[tid - 1].domain, best_swap.0, best_swap.1);
                proof {
                    assert(guard);
                }
                if guard {
                    let prev_score = sol.get_score(pb);
                    let saved = sol.duplicate();
                    let ghost s_before = *sol;
                    proof {
                        // the swap of the designated member for the target
                        // is legal: each cell lies in the other district's
                        // domain
                        let e = s_before.cell_id(t.0 as int, t.1 as int);
                        let tc = s_before.circonscriptions@[e - 1];
                        let kb = best_member_in(
                            circ.municipalities@,
                            tc.domain@,
                            tc.municipalities@,
                        );
                        assert(s_before.circonscriptions@[dd as int].municipalities@
                            == circ.municipalities@);
                        assert(s_before.cell_id(best_swap.0 as int, best_swap.1 as int) == dd + 1)
                            by {
                            assert(s_before.cell_id(
                                s_before.circonscriptions@[dd as int].municipalities@[kb].0 as int,
                                s_before.circonscriptions@[dd as int].municipalities@[kb].1 as int,
                            ) == dd + 1);
                        }
                        assert(s_before.circonscriptions@[dd as int].domain@ == circ.domain@);
                        assert(dom_has(
                            s_before.circonscriptions@[dd as int].domain@,
                            t.0 as int,
                            t.1 as int,
                        ));
                        assert(swap_ok(s_before, best_swap, t));
                    }
                    sol.swap(best_swap, t, pb);
                    let g = sol.get_grid();
                    let mut undo = false;
                    let mut seen = false;
                    let ghost vis_pre = visited@;
                    if grid_in_visited(visited, &g) {
                        undo = true;
                        seen = true;
                    } else {
                        visited.push(g);
                        let new_score = sol.get_score(pb);
                        if new_score < prev_score || (!*allow_neutral && new_score == prev_score) {
                            undo = true;
                        } else {
                            kept = true;
                            *allow_neutral = false;
                        }
                    }
                    if undo {
                        proof {
                            // the configuration this candidate reaches is
                            // among the visited grids in both undo branches
                            if seen {
                                let kv = choose|kv: int|
                                    0 <= kv < vis_pre.len() && grids_equal(
                                        #[trigger] vis_pre[kv]@,
                                        g@,
                                    );
                                assert(grids_equal(visited@[kv]@, g@));
                            } else {
                                assert(visited@[visited@.len() - 1] == g);
                                assert(grids_equal(visited@[visited@.len() - 1]@, g@));
                            }
                            lemma_grid_after_swap(s_before, *sol, g@, *pb, best_swap, t);
                            lemma_attempt_rejected(
                                s_entry,
                                s_before,
                                g@,
                                visited@,
                                *pb,
                                entry_neutral,
                                dd as int,
                                t,
                                best_swap,
                            );
                        }
                        *sol = saved;
                        proof {
                            lemma_state_equiv_carries(*sol, s_before, *pb);
                        }
                    }
                }
            } else {
                proof {
                    // the frontier guards cannot fail for a frontier target
                    // of this district
                    if engine_candidate(ve, *pb, dd as int, t) {
                        assert(ve.doms[dd as int] == circ.domain@);
                        assert(ve.munss[dd as int] == circ.municipalities@);
                        assert(false);
                    }
                }
            }
        } else {
            proof {
                // a zero value rejects the candidate outright
                reveal(candidate_rejected);
                if engine_candidate(ve, *pb, dd as int, t) {
                    let e = sol.cell_id(t.0 as int, t.1 as int);
                    let tc = sol.circonscriptions@[e - 1];
                    lemma_view_of_equiv(*sol, s_entry);
                    assert(ve.grid[t.0 as int][t.1 as int] as int == e);
                    assert(ve.munss[dd as int] == circ.municipalities@);
                    assert(ve.doms[e - 1] == tc.domain@);
                    assert(ve.munss[e - 1] == tc.municipalities@);
                    assert(candidate_rejected(ve, visited@, *pb, entry_neutral, dd as int, t));
                }
            }
        }
    } else {
        proof {
            // an off-grid entry is no candidate
            assert(!engine_candidate(ve, *pb, dd as int, t));
        }
    }
    kept
}

/// One full pass of the optimizer over the districts, least secure first:
/// for each district, try its swap targets in descending heuristic order;
/// apply a swap speculatively and keep it only when the configuration is
/// new and the score strictly improves (or stays equal, when neutral moves
/// are allowed); otherwise restore the saved state, so that a rejected
/// speculation leaves no trace. Keeping a swap returns the engine to
/// strict acceptance. The score never decreases across a pass; a strict
/// pass that keeps a swap strictly improves it; and a pass that keeps
/// nothing leaves the state as it was, with every candidate move rejected.
#[verifier::rlimit(100)]
pub fn run_pass(
    pb: &Problem,
    sol: &mut State,
    visited: &mut Vec<Vec<Vec<usize>>>,
    allow_neutral: &mut bool,
) -> (kept: bool)
    requires
        pb.wf(),
        old(sol).wf(pb),
        old(sol).fully_assigned(pb),
    ensures
        final(sol).wf(pb),
        final(sol).fully_assigned(pb),
        score_of(final(sol).circonscriptions@) >= score_of(old(sol).circonscriptions@),
        !kept ==> score_of(final(sol).circonscriptions@) == score_of(old(sol).circonscriptions@)
            && *final(allow_neutral) == *old(allow_neutral) && state_equiv(*final(sol), *old(sol)),
        !kept ==> pass_blocked(view_of(*final(sol)), final(visited)@, *pb, *old(allow_neutral)),
        (!*old(allow_neutral) && kept) ==> score_of(final(sol).circonscriptions@) > score_of(
            old(sol).circonscriptions@,
        ),
        forall|d: int|
            0 <= d < pb.m ==> (#[trigger] final(sol).circonscriptions@[d]).municipalities@.len()
                == old(sol).circonscriptions@[d].municipalities@.len(),
{
    let ghost s_entry = *sol;
    let ghost ve = view_of(s_entry);
    let ghost entry_score = score_of(sol.circonscriptions@);
    let ghost entry_neutral = *allow_neutral;
    let snapshot = sol.duplicate();
    proof {
        assert forall|q: int| 0 <= q < pb.m implies (
        #[trigger] snapshot.circonscriptions@[q]).wf(pb) by {
            lemma_circ_wf_of_views(snapshot.circonscriptions@[q], sol.circonscriptions@[q], *pb);
        }
    }
    // districts in ascending distance-to-victory
    let mut keyed: Vec<(i128, (usize, usize))> = Vec::new();
    let mut d: usize = 0;
    while d < snapshot.circonscriptions.len()
        invariant
            pb.wf(),
            snapshot.circonscriptions@.len() == pb.m,
            forall|q: int| 0 <= q < pb.m ==> (#[trigger] snapshot.circonscriptions@[q]).wf(pb),
            d <= pb.m,
            keyed@.len() == d,
            forall|q: int| 0 <= q < d ==> (#[trigger] keyed@[q]).1 == (q as usize, 0usize),
        decreases snapshot.circonscriptions@.len() - d,
    {
        let key = snapshot.circonscriptions[d].close_to_vic(pb);
        keyed.push((key as i128, (d, 0)));
        d = d + 1;
    }
    let ghost keyed0 = keyed@;
    let order = sort_pairs(keyed);
    proof {
        // every district index occurs somewhere in the sorted order
        assert forall|dd: int| 0 <= dd < pb.m implies #[trigger] order_covers(order@, dd) by {
            assert(keyed0[dd].1 == (dd as usize, 0usize));
            lemma_perm_cover(keyed0, order@, dd);
            let q = choose|q: int| 0 <= q < order@.len() && #[trigger] order@[q] == keyed0[dd];
            assert((#[trigger] order@[q]).1.0 == dd);
        }
    }
    let mut kept = false;
    let mut oi: usize = 0;
    while oi < order.len() && !kept
        invariant
            pb.wf(),
            sol.wf(pb),
            sol.fully_assigned(pb),
            s_entry.wf(pb),
            s_entry.fully_assigned(pb),
            ve == view_of(s_entry),
            entry_score == score_of(s_entry.circonscriptions@),
            snapshot.circonscriptions@.len() == pb.m,
            forall|q: int| 0 <= q < pb.m ==> (#[trigger] snapshot.circonscriptions@[q]).wf(pb),
            state_equiv(snapshot, s_entry),
            oi <= order@.len(),
            forall|dd: int| 0 <= dd < pb.m ==> #[trigger] order_covers(order@, dd),
            score_of(sol.circonscriptions@) >= entry_score,
            !kept ==> state_equiv(*sol, s_entry) && *allow_neutral == entry_neutral,
            !kept ==> order_prefix_blocked(ve, visited@, *pb, entry_neutral, order@, oi as int),
            kept ==> !*allow_neutral && (entry_neutral || score_of(sol.circonscriptions@)
                > entry_score),
            forall|d2: int|
                0 <= d2 < pb.m ==> (#[trigger] sol.circonscriptions@[d2]).municipalities@.len()
                    == s_entry.circonscriptions@[d2].municipalities@.len(),
        decreases order@.len() - oi,
    {
        let ghost vis_at_oi = visited@;
        let dd = order[oi].1.0;
        if dd < snapshot.circonscriptions.len() {
            let circ = &snapshot.circonscriptions[dd];
            let avail = circ.swap_available();
            // targets in descending heuristic order
            let mut tkeyed: Vec<(i128, (usize, usize))> = Vec::new();
            let mut q: usize = 0;
            while q < avail.len()
                invariant
                    pb.wf(),
                    sol.wf(pb),
                    sol.fully_assigned(pb),
                    circ.wf(pb),
                    q <= avail@.len(),
                    tkeyed@.len() == q,
                    forall|w: int| 0 <= w < q ==> (#[trigger] tkeyed@[w]).1 == avail@[w],
                    forall|w: int|
                        0 <= w < avail@.len() ==> dom_has(
                            circ.domain@,
                            (#[trigger] avail@[w]).0 as int,
                            avail@[w].1 as int,
                        ),
                decreases avail@.len() - q,
            {
                let t = avail[q];
                proof {
                    let w = choose|w: int|
                        0 <= w < circ.domain@.len() && (#[trigger] circ.domain@[w]).0 == t.0
                            && circ.domain@[w].1 == t.1;
                }
                let h = circ.swap_heuristic(t.0, t.1, sol, pb);
                tkeyed.push((-h.1, (t.0, t.1)));
                q = q + 1;
            }
            let ghost tkeyed0 = tkeyed@;
            let targets = sort_pairs(tkeyed);
            proof {
                // every frontier cell of this district occurs among the
                // sorted targets
                assert forall|t: (usize, usize)|
                    dom_has(circ.domain@, t.0 as int, t.1 as int) && !mun_has(
                        circ.municipalities@,
                        t.0 as int,
                        t.1 as int,
                    ) implies exists|w: int|
                    0 <= w < targets@.len() && (#[trigger] targets@[w]).1 == t by {
                    assert(dom_has(avail@, t.0 as int, t.1 as int));
                    let wa = choose|wa: int|
                        0 <= wa < avail@.len() && (#[trigger] avail@[wa]).0 == t.0
                            && avail@[wa].1 == t.1;
                    assert(tkeyed0[wa].1 == avail@[wa]);
                    assert(avail@[wa] == t);
                    lemma_perm_cover(tkeyed0, targets@, wa);
                    let w = choose|w: int|
                        0 <= w < targets@.len() && #[trigger] targets@[w] == tkeyed0[wa];
                    assert((#[trigger] targets@[w]).1 == t);
                }
            }
            let ghost vis_at_tq0 = visited@;
            let mut tq: usize = 0;
            while tq < targets.len() && !kept
                invariant
                    pb.wf(),
                    sol.wf(pb),
                    sol.fully_assigned(pb),
                    s_entry.wf(pb),
                    s_entry.fully_assigned(pb),
                    ve == view_of(s_entry),
                    entry_score == score_of(s_entry.circonscriptions@),
                    circ.wf(pb),
                    dd < pb.m,
                    circ.domain@ == s_entry.circonscriptions@[dd as int].domain@,
                    circ.municipalities@ == s_entry.circonscriptions@[dd as int].municipalities@,
                    tq <= targets@.len(),
                    vis_at_oi.len() <= visited@.len(),
                    forall|i2: int|
                        0 <= i2 < vis_at_oi.len() ==> #[trigger] visited@[i2] == vis_at_oi[i2],
                    score_of(sol.circonscriptions@) >= entry_score,
                    !kept ==> state_equiv(*sol, s_entry) && *allow_neutral == entry_neutral,
                    !kept ==> order_prefix_blocked(
                        ve,
                        visited@,
                        *pb,
                        entry_neutral,
                        order@,
                        oi as int,
                    ),
                    !kept ==> targets_prefix_done(
                        ve,
                        visited@,
                        *pb,
                        entry_neutral,
                        dd as int,
                        targets@,
                        tq as int,
                    ),
                    kept ==> !*allow_neutral && (entry_neutral || score_of(sol.circonscriptions@)
                        > entry_score),
                    forall|d2: int|
                        0 <= d2 < pb.m ==> (
                        #[trigger] sol.circonscriptions@[d2]).municipalities@.len()
                            == s_entry.circonscriptions@[d2].municipalities@.len(),
                decreases targets@.len() - tq,
            {
                let ghost vis_pre = visited@;
                let ghost sol_pre = *sol;
                let t = targets[tq].1;
                proof {
                    assert(state_equiv(*sol, s_entry));
                    lemma_state_equiv_carries(*sol, s_entry, *pb);
                }
                let was_kept = attempt_target(
                    pb,
                    sol,
                    visited,
                    allow_neutral,
                    circ,
                    dd,
                    t,
                    Ghost(s_entry),
                    Ghost(entry_neutral),
                );
                if was_kept {
                    kept = true;
                }
                proof {
                    if !kept {
                        lemma_state_equiv_carries(*sol, s_entry, *pb);
                        // earlier targets and districts stay dealt with as
                        // the visited set grows
                        assert forall|w: int|
                            0 <= w < tq + 1 implies #[trigger] target_done(
                            ve,
                            visited@,
                            *pb,
                            entry_neutral,
                            dd as int,
                            targets@[w].1,
                        ) by {
                            if w < tq {
                                assert(target_done(
                                    ve,
                                    vis_pre,
                                    *pb,
                                    entry_neutral,
                                    dd as int,
                                    targets@[w].1,
                                ));
                                if engine_candidate(ve, *pb, dd as int, targets@[w].1) {
                                    lemma_rejected_extend(
                                        ve,
                                        vis_pre,
                                        visited@,
                                        *pb,
                                        entry_neutral,
                                        dd as int,
                                        targets@[w].1,
                                    );
                                }
                            }
                        }
                        assert forall|q2: int|
                            0 <= q2 < oi implies #[trigger] district_blocked(
                            ve,
                            visited@,
                            *pb,
                            entry_neutral,
                            order@[q2].1.0 as int,
                        ) by {
                            lemma_district_blocked_extend(
                                ve,
                                vis_pre,
                                visited@,
                                *pb,
                                entry_neutral,
                                order@[q2].1.0 as int,
                            );
                        }
                    }
                }
                tq = tq + 1;
            }
            proof {
                if !kept {
                    // coverage: every frontier target of this district was
                    // examined
                    assert forall|t2: (usize, usize)| #[trigger] target_done(
                        ve,
                        visited@,
                        *pb,
                        entry_neutral,
                        dd as int,
                        t2,
                    ) by {
                        if engine_candidate(ve, *pb, dd as int, t2) {
                            assert(ve.doms[dd as int] == circ.domain@);
                            assert(ve.munss[dd as int] == circ.municipalities@);
                            assert(dom_has(circ.domain@, t2.0 as int, t2.1 as int) && !mun_has(
                                circ.municipalities@,
                                t2.0 as int,
                                t2.1 as int,
                            ));
                            let w = choose|w: int|
                                0 <= w < targets@.len() && (#[trigger] targets@[w]).1 == t2;
                            assert(target_done(
                                ve,
                                visited@,
                                *pb,
                                entry_neutral,
                                dd as int,
                                targets@[w].1,
                            ));
                        }
                    }
                    assert(district_blocked(ve, visited@, *pb, entry_neutral, dd as int));
                }
            }
        } else {
            proof {
                if !kept {
                    // an out-of-range entry blocks vacuously
                    assert forall|t2: (usize, usize)| #[trigger] target_done(
                        ve,
                        visited@,
                        *pb,
                        entry_neutral,
                        dd as int,
                        t2,
                    ) by {
                        if engine_candidate(ve, *pb, dd as int, t2) {
                            assert(0 <= dd < ve.doms.len());
                        }
                    }
                    assert(district_blocked(ve, visited@, *pb, entry_neutral, dd as int));
                }
            }
        }
        proof {
            if !kept {
                assert forall|q2: int|
                    0 <= q2 < oi + 1 implies #[trigger] district_blocked(
                    ve,
                    visited@,
                    *pb,
                    entry_neutral,
                    order@[q2].1.0 as int,
                ) by {
                    if q2 < oi {
                        lemma_district_blocked_extend(
                            ve,
                            vis_at_oi,
                            visited@,
                            *pb,
                            entry_neutral,
                            order@[q2].1.0 as int,
                        );
                    }
                }
            }
        }
        oi = oi + 1;
    }
    proof {
        if !kept {
            lemma_state_equiv_carries(*sol, s_entry, *pb);
            lemma_view_of_equiv(*sol, s_entry);
            assert forall|d2: int|
                0 <= d2 < view_of(*sol).doms.len() implies #[trigger] district_blocked(
                view_of(*sol),
                visited@,
                *pb,
                entry_neutral,
                d2,
            ) by {
                assert(order_covers(order@, d2));
                let q = choose|q: int| 0 <= q < order@.len() && (#[trigger] order@[q]).1.0 == d2;
                assert(district_blocked(ve, visited@, *pb, entry_neutral, order@[q].1.0 as int));
            }
        }
    }
    kept
}

/// The local search engine: repeatedly passes over the districts by
/// ascending distance-to-victory and commits improving swaps, recording
/// each visited grid configuration in `visited` to avoid cycles. When a
/// strict pass yields nothing, one more pass accepting equal-score moves
/// is tried; when that also yields nothing, the search stops, and the
/// returned flag is true: no candidate swap then leads to an unvisited
/// configuration with a higher — or, the relaxed pass having found
/// nothing either, equal — score. A false flag means the pass budget ran
/// out first. The score never decreases from the starting partition.
pub fn local_search(pb: &Problem, sol: &mut State, max_passes: usize, visited: &mut Vec<
    Vec<Vec<usize>>,
>) -> (completed: bool)
    requires
        pb.wf(),
        old(sol).wf(pb),
        old(sol).fully_assigned(pb),
        old(visited)@.len() == 0,
    ensures
        final(sol).wf(pb),
        final(sol).fully_assigned(pb),
        score_of(final(sol).circonscriptions@) >= score_of(old(sol).circonscriptions@),
        forall|d: int|
            0 <= d < pb.m ==> (#[trigger] final(sol).circonscriptions@[d]).municipalities@.len()
                == old(sol).circonscriptions@[d].municipalities@.len(),
        balanced(*old(sol), *pb) ==> balanced(*final(sol), *pb),
        completed ==> pass_blocked(view_of(*final(sol)), final(visited)@, *pb, true),
{
    let ghost s_entry = *sol;
    let ghost entry_score = score_of(sol.circonscriptions@);
    let mut allow_neutral = false;
    let mut done = false;
    let mut pass: usize = 0;
    while !done && pass < max_passes
        invariant
            pb.wf(),
            sol.wf(pb),
            sol.fully_assigned(pb),
            pass <= max_passes,
            score_of(sol.circonscriptions@) >= entry_score,
            entry_score == score_of(s_entry.circonscriptions@),
            done ==> pass_blocked(view_of(*sol), visited@, *pb, true),
            forall|d2: int|
                0 <= d2 < pb.m ==> (#[trigger] sol.circonscriptions@[d2]).municipalities@.len()
                    == s_entry.circonscriptions@[d2].municipalities@.len(),
        decreases max_passes - pass,
    {
        pass = pass + 1;
        let kept = run_pass(pb, sol, visited, &mut allow_neutral);
        if kept {
        } else if !allow_neutral {
            allow_neutral = true;
        } else {
            done = true;
        }
    }
    proof {
        if balanced(s_entry, *pb) {
            assert forall|d: int| 0 <= d < sol.circonscriptions@.len() implies #[trigger] circ_balanced(
                sol.circonscriptions@[d],
                *pb,
            ) by {
                assert(circ_balanced(s_entry.circonscriptions@[d], *pb));
            }
        }
    }
    done
}

} // verus!
