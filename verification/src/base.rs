//! The static problem description and the partition data structures: the
//! district (`Circonsciption`) with its member cells and growth domain, and
//! the partition `State` tying a grid of district identifiers to the
//! districts themselves.

use vstd::prelude::*;

use crate::util::{ceil_div, manhattan};
use vstd::assert_by_contradiction;

verus! {

/// Static configuration of one partitioning run: grid extents, per-cell vote
/// counts, number of districts, majority threshold, and the derived
/// compactness radius (maximum allowed pairwise Manhattan distance between
/// two members of the same district).
pub struct Problem {
    pub lx: usize,
    pub ly: usize,
    pub n: usize,
    pub m: usize,
    pub votes: Vec<Vec<usize>>,
    pub threshold: usize,
    pub radius: usize,
}

impl Problem {
    /// Well-formedness of a problem instance. Besides shape constraints it
    /// bounds the vote counts and the threshold so that no vote total or
    /// shortfall computed over a district can exceed `usize`.
    pub open spec fn wf(&self) -> bool {
        &&& 1 <= self.lx
        &&& 1 <= self.ly
        &&& self.n == self.lx * self.ly
        &&& 1 <= self.m <= self.n
        &&& self.votes@.len() == self.lx
        &&& forall|i: int| 0 <= i < self.lx ==> self.votes@[i]@.len() == self.ly
        &&& forall|i: int, j: int|
            0 <= i < self.lx && 0 <= j < self.ly ==> self.votes@[i]@[j]
                <= usize::MAX as int / self.n as int
        &&& (self.threshold + 1) * self.n <= usize::MAX
        &&& 50 * self.n <= usize::MAX
        &&& self.radius == spec_radius(self.n as int, self.m as int)
    }

    /// Whether `(x, y)` is a cell of the grid.
    pub open spec fn in_grid(&self, x: int, y: int) -> bool {
        0 <= x < self.lx && 0 <= y < self.ly
    }

    /// The vote count of cell `(x, y)`.
    pub open spec fn vote_at(&self, x: int, y: int) -> int {
        self.votes@[x]@[y] as int
    }

    /// Builds a problem from the grid extents, the district count, the vote
    /// matrix and the majority threshold, deriving the cell count and the
    /// compactness radius.
    pub fn new(lx: usize, ly: usize, m: usize, votes: Vec<Vec<usize>>, threshold: usize) -> (r:
        Problem)
        requires
            1 <= lx,
            1 <= ly,
            lx * ly <= usize::MAX,
            1 <= m <= lx * ly,
            votes@.len() == lx,
            forall|i: int| 0 <= i < lx ==> votes@[i]@.len() == ly,
            forall|i: int, j: int|
                0 <= i < lx && 0 <= j < ly ==> votes@[i]@[j] <= usize::MAX as int / (lx * ly),
            (threshold + 1) * (lx * ly) <= usize::MAX,
            50 * (lx * ly) <= usize::MAX,
        ensures
            r.wf(),
            r.lx == lx,
            r.ly == ly,
            r.n == lx * ly,
            r.m == m,
            r.votes == votes,
            r.threshold == threshold,
    {
        let n = lx * ly;
        assert(2 * m <= usize::MAX) by {
            assert(50 * n <= usize::MAX);
            assert(m <= n);
            assert(2 * m <= 50 * n) by (nonlinear_arith)
                requires
                    1 <= m <= n,
            ;
        }
        let radius = ceil_div(n, 2 * m);
        Problem { lx, ly, n, m, votes, threshold, radius }
    }
}

/// The compactness radius derived from the cell count and the district
/// count: the ceiling of `n / (2m)`.
pub open spec fn spec_radius(n: int, m: int) -> int {
    if n % (2 * m) == 0 {
        n / (2 * m)
    } else {
        n / (2 * m) + 1
    }
}

/// Whether the cell `(x, y)` occurs in a domain sequence.
pub open spec fn dom_has(dom: Seq<(usize, usize)>, x: int, y: int) -> bool {
    exists|k: int| 0 <= k < dom.len() && dom[k].0 == x && dom[k].1 == y
}

/// Whether the cell `(x, y)` occurs among members `(x, y, votes)`.
pub open spec fn mun_has(s: Seq<(usize, usize, usize)>, x: int, y: int) -> bool {
    exists|k: int| 0 <= k < s.len() && s[k].0 == x && s[k].1 == y
}

/// Total vote count of a member sequence.
pub open spec fn mun_votes(s: Seq<(usize, usize, usize)>) -> int
    decreases s.len(),
{
    if s.len() == 0 {
        0
    } else {
        mun_votes(s.drop_last()) + s.last().2
    }
}

/// One district: its identifier, the cells currently assigned to it (each
/// with its vote count), and its domain — the frontier of cells within the
/// compactness radius of every current member, from which it may grow or
/// swap.
#[derive(Clone, Debug)]
pub struct Circonsciption {
    pub id: usize,
    pub domain: Vec<(usize, usize)>,
    pub municipalities: Vec<(usize, usize, usize)>,
}

impl Circonsciption {
    /// Every member lies on the grid and carries the vote count of its cell.
    pub open spec fn muns_valid(&self, pb: &Problem) -> bool {
        forall|k: int|
            0 <= k < self.municipalities@.len() ==> pb.in_grid(
                #[trigger] self.municipalities@[k].0 as int,
                self.municipalities@[k].1 as int,
            ) && self.municipalities@[k].2 == pb.vote_at(
                self.municipalities@[k].0 as int,
                self.municipalities@[k].1 as int,
            )
    }

    /// No cell is assigned to this district twice.
    pub open spec fn muns_distinct(&self) -> bool {
        forall|k1: int, k2: int|
            0 <= k1 < k2 < self.municipalities@.len() ==> !(#[trigger] self.municipalities@[k1].0
                == #[trigger] self.municipalities@[k2].0 && self.municipalities@[k1].1
                == self.municipalities@[k2].1)
    }

    /// Any two members are within the compactness radius of each other.
    pub open spec fn compact(&self, pb: &Problem) -> bool {
        forall|k1: int, k2: int|
            0 <= k1 < self.municipalities@.len() && 0 <= k2 < self.municipalities@.len()
                ==> manhattan(
                #[trigger] self.municipalities@[k1].0 as int,
                self.municipalities@[k1].1 as int,
                #[trigger] self.municipalities@[k2].0 as int,
                self.municipalities@[k2].1 as int,
            ) <= pb.radius
    }

    /// Domain cells lie on the grid, are not members, and are within the
    /// compactness radius of every member.
    pub open spec fn dom_valid(&self, pb: &Problem) -> bool {
        forall|k: int|
            0 <= k < self.domain@.len() ==> pb.in_grid(
                #[trigger] self.domain@[k].0 as int,
                self.domain@[k].1 as int,
            ) && !mun_has(self.municipalities@, self.domain@[k].0 as int, self.domain@[k].1 as int)
                && forall|km: int|
                0 <= km < self.municipalities@.len() ==> manhattan(
                    self.domain@[k].0 as int,
                    self.domain@[k].1 as int,
                    #[trigger] self.municipalities@[km].0 as int,
                    self.municipalities@[km].1 as int,
                ) <= pb.radius
    }

    /// Well-formedness of a district relative to its problem.
    pub open spec fn wf(&self, pb: &Problem) -> bool {
        &&& 1 <= self.id <= pb.m
        &&& self.muns_valid(pb)
        &&& self.muns_distinct()
        &&& self.compact(pb)
        &&& self.dom_valid(pb)
    }

    /// A fresh, empty district with the given identifier.
    pub fn new(id: usize, pb: &Problem) -> (r: Circonsciption)
        requires
            pb.wf(),
            1 <= id <= pb.m,
        ensures
            r.wf(pb),
            r.id == id,
            r.municipalities@.len() == 0,
            r.domain@.len() == 0,
    {
        Circonsciption { id, domain: Vec::new(), municipalities: Vec::new() }
    }

    /// Seeds an empty district: the given member becomes its first cell and
    /// the domain becomes the full ball of the compactness radius around it,
    /// clipped to the grid and excluding the seed itself.
    pub fn init(&mut self, pb: &Problem, mun: (usize, usize, usize))
        requires
            pb.wf(),
            old(self).wf(pb),
            old(self).municipalities@.len() == 0,
            pb.in_grid(mun.0 as int, mun.1 as int),
            mun.2 == pb.vote_at(mun.0 as int, mun.1 as int),
        ensures
            final(self).wf(pb),
            final(self).id == old(self).id,
            final(self).municipalities@ =~= seq![mun],
            forall|x: int, y: int|
                dom_has(final(self).domain@, x, y) <==> (pb.in_grid(x, y) && manhattan(
                    x,
                    y,
                    mun.0 as int,
                    mun.1 as int,
                ) <= pb.radius && !(x == mun.0 && y == mun.1)),
    {
        self.municipalities.push(mun);
        self.domain = create_domain(mun, pb);
        proof {
            assert(self.municipalities@ =~= seq![mun]);
            assert forall|k: int| 0 <= k < self.domain@.len() implies !mun_has(
                self.municipalities@,
                self.domain@[k].0 as int,
                self.domain@[k].1 as int,
            ) by {
                assert(dom_has(self.domain@, self.domain@[k].0 as int, self.domain@[k].1 as int));
            }
        }
    }

    /// Number of cells currently assigned to this district.
    pub fn len(&self) -> (r: usize)
        ensures
            r == self.municipalities@.len(),
    {
        self.municipalities.len()
    }

    /// Total vote count over the district's members.
    pub fn get_votes(&self, pb: &Problem) -> (r: usize)
        requires
            pb.wf(),
            self.wf(pb),
        ensures
            r == mun_votes(self.municipalities@),
    {
        proof {
            lemma_distinct_cells_bound(self.municipalities@, pb.lx as int, pb.ly as int);
        }
        let cap = usize::MAX / pb.n;
        let mut votes: usize = 0;
        let mut k: usize = 0;
        while k < self.municipalities.len()
            invariant
                pb.wf(),
                self.wf(pb),
                cap == usize::MAX as int / pb.n as int,
                k <= self.municipalities@.len() <= pb.n,
                votes == mun_votes(self.municipalities@.take(k as int)),
                votes <= k * cap,
            decreases self.municipalities@.len() - k,
        {
            let m = self.municipalities[k];
            proof {
                assert(pb.in_grid(self.municipalities@[k as int].0 as int, self.municipalities@[k
                    as int].1 as int) && self.municipalities@[k as int].2 == pb.vote_at(
                    self.municipalities@[k as int].0 as int,
                    self.municipalities@[k as int].1 as int,
                ));
                assert(pb.votes@[m.0 as int]@[m.1 as int] <= usize::MAX as int / pb.n as int);
                assert(m.2 <= cap);
                assert((k + 1) * cap <= pb.n * cap) by {
                    vstd::arithmetic::mul::lemma_mul_inequality(
                        k as int + 1,
                        pb.n as int,
                        cap as int,
                    );
                }
                assert(pb.n * cap <= usize::MAX) by {
                    vstd::arithmetic::div_mod::lemma_fundamental_div_mod(
                        usize::MAX as int,
                        pb.n as int,
                    );
                    vstd::arithmetic::div_mod::lemma_mod_bound(usize::MAX as int, pb.n as int);
                }
                assert(votes + m.2 <= k * cap + cap);
                assert(k * cap + cap == (k + 1) * cap) by (nonlinear_arith);
                assert(self.municipalities@.take(k as int + 1).drop_last() =~= self.municipalities@.take(
                    k as int,
                ));
                assert(self.municipalities@.take(k as int + 1).last() == m);
            }
            votes = votes + m.2;
            k = k + 1;
        }
        proof {
            assert(self.municipalities@.take(self.municipalities@.len() as int)
                =~= self.municipalities@);
        }
        votes
    }

    /// Distance to victory: the shortfall between the district's vote total
    /// and the majority threshold scaled by its size, or a sentinel one past
    /// the threshold when the district is already winning. Districts are
    /// ranked ascending by this value so the search targets the least secure
    /// first.
    pub fn close_to_vic(&self, pb: &Problem) -> (r: usize)
        requires
            pb.wf(),
            self.wf(pb),
        ensures
            r == if mun_votes(self.municipalities@) < pb.threshold
                * self.municipalities@.len() {
                pb.threshold * self.municipalities@.len() - mun_votes(self.municipalities@)
            } else {
                (pb.threshold + 1) as int
            },
    {
        let votes = self.get_votes(pb);
        proof {
            lemma_distinct_cells_bound(self.municipalities@, pb.lx as int, pb.ly as int);
            assert(pb.threshold * self.municipalities@.len() <= usize::MAX && pb.threshold + 1
                <= usize::MAX) by (nonlinear_arith)
                requires
                    self.municipalities@.len() <= pb.n,
                    (pb.threshold + 1) * pb.n <= usize::MAX,
                    0 <= pb.threshold,
                    1 <= pb.n,
            ;
        }
        let goal = pb.threshold * self.municipalities.len();
        if votes < goal {
            goal - votes
        } else {
            pb.threshold + 1
        }
    }

    /// Adds a member. An empty district is seeded at the cell; otherwise the
    /// cell must lie in the district's domain, moves into the members, and
    /// the domain is narrowed to the ball around the new member.
    pub fn push(&mut self, mun: (usize, usize, usize), pb: &Problem)
        requires
            pb.wf(),
            old(self).wf(pb),
            pb.in_grid(mun.0 as int, mun.1 as int),
            mun.2 == pb.vote_at(mun.0 as int, mun.1 as int),
            old(self).municipalities@.len() > 0 ==> dom_has(
                old(self).domain@,
                mun.0 as int,
                mun.1 as int,
            ) && !mun_has(old(self).municipalities@, mun.0 as int, mun.1 as int),
        ensures
            final(self).wf(pb),
            push_effect(*old(self), *final(self), mun, *pb),
    {
        if self.municipalities.is_empty() {
            self.init(pb, mun);
            proof {
                assert(self.municipalities@ == seq![mun]);
            }
        } else {
            proof {
                let kw = choose|k: int|
                    0 <= k < self.domain@.len() && self.domain@[k].0 == mun.0 && self.domain@[k].1
                        == mun.1;
                assert(forall|km: int|
                    0 <= km < self.municipalities@.len() ==> manhattan(
                        self.domain@[kw].0 as int,
                        self.domain@[kw].1 as int,
                        #[trigger] self.municipalities@[km].0 as int,
                        self.municipalities@[km].1 as int,
                    ) <= pb.radius);
                assert(pb.lx <= pb.n && pb.ly <= pb.n) by (nonlinear_arith)
                    requires
                        pb.n == pb.lx * pb.ly,
                        1 <= pb.lx,
                        1 <= pb.ly,
                ;
            }
            let ghost pre = *self;
            self.municipalities.push(mun);
            let mut newdom: Vec<(usize, usize)> = Vec::new();
            let mut k: usize = 0;
            while k < self.domain.len()
                invariant
                    pb.wf(),
                    pb.lx <= pb.n,
                    pb.ly <= pb.n,
                    pre.wf(pb),
                    pb.in_grid(mun.0 as int, mun.1 as int),
                    self.domain@ == pre.domain@,
                    k <= self.domain@.len(),
                    forall|i: int|
                        0 <= i < newdom@.len() ==> {
                            let cx = #[trigger] newdom@[i].0 as int;
                            let cy = newdom@[i].1 as int;
                            dom_has(pre.domain@, cx, cy) && manhattan(
                                cx,
                                cy,
                                mun.0 as int,
                                mun.1 as int,
                            ) <= pb.radius && !(cx == mun.0 && cy == mun.1)
                        },
                    forall|i: int|
                        0 <= i < k ==> (manhattan(
                            #[trigger] pre.domain@[i].0 as int,
                            pre.domain@[i].1 as int,
                            mun.0 as int,
                            mun.1 as int,
                        ) <= pb.radius && !(pre.domain@[i].0 == mun.0 && pre.domain@[i].1 == mun.1)
                            ==> dom_has(newdom@, pre.domain@[i].0 as int, pre.domain@[i].1 as int)),
                decreases self.domain@.len() - k,
            {
                let c = self.domain[k];
                proof {
                    assert(pb.in_grid(c.0 as int, c.1 as int));
                }
                let ghost pre_new = newdom@;
                let d = crate::util::cell_dist(c.0, c.1, mun.0, mun.1);
                if d <= pb.radius && !(c.0 == mun.0 && c.1 == mun.1) {
                    newdom.push(c);
                }
                proof {
                    assert forall|i: int|
                        0 <= i < k + 1 && (manhattan(
                            #[trigger] pre.domain@[i].0 as int,
                            pre.domain@[i].1 as int,
                            mun.0 as int,
                            mun.1 as int,
                        ) <= pb.radius && !(pre.domain@[i].0 == mun.0 && pre.domain@[i].1
                            == mun.1)) implies dom_has(
                        newdom@,
                        pre.domain@[i].0 as int,
                        pre.domain@[i].1 as int,
                    ) by {
                        if i < k {
                            assert(dom_has(pre_new, pre.domain@[i].0 as int, pre.domain@[i].1
                                as int));
                            let w = choose|w: int|
                                0 <= w < pre_new.len() && pre_new[w].0 == pre.domain@[i].0
                                    && pre_new[w].1 == pre.domain@[i].1;
                            assert(newdom@[w].0 == pre.domain@[i].0 && newdom@[w].1
                                == pre.domain@[i].1);
                        } else {
                            assert(newdom@[newdom@.len() - 1] == c);
                        }
                    }
                }
                k = k + 1;
            }
            self.domain = newdom;
            proof {
                assert(self.municipalities@ == pre.municipalities@.push(mun));
                assert forall|x: int, y: int| dom_has(self.domain@, x, y) implies (dom_has(
                    pre.domain@,
                    x,
                    y,
                ) && manhattan(x, y, mun.0 as int, mun.1 as int) <= pb.radius && !(x == mun.0 && y
                    == mun.1)) by {
                    let w = choose|w: int|
                        0 <= w < self.domain@.len() && self.domain@[w].0 == x && self.domain@[w].1
                            == y;
                }
                assert forall|x: int, y: int|
                    (dom_has(pre.domain@, x, y) && manhattan(x, y, mun.0 as int, mun.1 as int)
                        <= pb.radius && !(x == mun.0 && y == mun.1)) implies dom_has(
                    self.domain@,
                    x,
                    y,
                ) by {
                    let w = choose|w: int|
                        0 <= w < pre.domain@.len() && pre.domain@[w].0 == x && pre.domain@[w].1
                            == y;
                }
                assert(push_effect(pre, *self, mun, *pb));
                assert(self.wf(pb)) by {
                    assert forall|k1: int, k2: int|
                        0 <= k1 < k2 < self.municipalities@.len() implies !(
                    #[trigger] self.municipalities@[k1].0 == #[trigger] self.municipalities@[k2].0
                        && self.municipalities@[k1].1 == self.municipalities@[k2].1) by {
                        if k2 == self.municipalities@.len() - 1 {
                            assert(!mun_has(pre.municipalities@, mun.0 as int, mun.1 as int));
                            assert(pre.municipalities@[k1].0 == self.municipalities@[k1].0);
                        }
                    }
                    let kw = choose|k: int|
                        0 <= k < pre.domain@.len() && pre.domain@[k].0 == mun.0 && pre.domain@[k].1
                            == mun.1;
                    assert forall|k1: int, k2: int|
                        0 <= k1 < self.municipalities@.len() && 0 <= k2
                            < self.municipalities@.len() implies manhattan(
                        #[trigger] self.municipalities@[k1].0 as int,
                        self.municipalities@[k1].1 as int,
                        #[trigger] self.municipalities@[k2].0 as int,
                        self.municipalities@[k2].1 as int,
                    ) <= pb.radius by {
                        let last = self.municipalities@.len() - 1;
                        if k1 == last || k2 == last {
                            assert(manhattan(
                                pre.domain@[kw].0 as int,
                                pre.domain@[kw].1 as int,
                                mun.0 as int,
                                mun.1 as int,
                            ) == 0);
                        }
                    }
                    assert forall|kd: int| 0 <= kd < self.domain@.len() implies pb.in_grid(
                        #[trigger] self.domain@[kd].0 as int,
                        self.domain@[kd].1 as int,
                    ) && !mun_has(
                        self.municipalities@,
                        self.domain@[kd].0 as int,
                        self.domain@[kd].1 as int,
                    ) && forall|km: int|
                        0 <= km < self.municipalities@.len() ==> manhattan(
                            self.domain@[kd].0 as int,
                            self.domain@[kd].1 as int,
                            #[trigger] self.municipalities@[km].0 as int,
                            self.municipalities@[km].1 as int,
                        ) <= pb.radius by {
                        let cx = self.domain@[kd].0 as int;
                        let cy = self.domain@[kd].1 as int;
                        assert(dom_has(self.domain@, cx, cy));
                        assert(dom_has(pre.domain@, cx, cy));
                        let w = choose|w: int|
                            0 <= w < pre.domain@.len() && pre.domain@[w].0 == cx && pre.domain@[w].1
                                == cy;
                        assert(!mun_has(pre.municipalities@, cx, cy));
                        assert forall|km: int| 0 <= km < self.municipalities@.len() implies
                            manhattan(
                            cx,
                            cy,
                            #[trigger] self.municipalities@[km].0 as int,
                            self.municipalities@[km].1 as int,
                        ) <= pb.radius by {
                            if km < pre.municipalities@.len() {
                                assert(manhattan(
                                    pre.domain@[w].0 as int,
                                    pre.domain@[w].1 as int,
                                    pre.municipalities@[km].0 as int,
                                    pre.municipalities@[km].1 as int,
                                ) <= pb.radius);
                            }
                        }
                    }
                }
            }
        }
    }
}

/// Errors surfaced by the partition data structures and the initial
/// solution builders.
#[derive(Clone, Copy, PartialEq, Eq, Structural, Debug)]
pub enum PartitionError {
    /// A cell reassignment would break a district invariant: the target
    /// district is not empty and the cell is outside its domain.
    InvalidAssignment,
    /// The randomized initial fill exhausted its retry budget without
    /// producing a fully assigned, balanced partition.
    SearchExhausted,
}

/// The partition state: a grid mapping every cell to a district identifier
/// (`0` meaning unassigned) and the districts `1..=m` themselves. Every
/// reassignment goes through `update_grid`, which keeps both sides
/// consistent.
#[derive(Clone, Debug)]
pub struct State {
    pub grid: Vec<Vec<usize>>,
    pub circonscriptions: Vec<Circonsciption>,
}

/// Whether a district's vote total exceeds the majority rule of fifty
/// votes per member.
pub open spec fn circ_wins(c: Circonsciption) -> bool {
    mun_votes(c.municipalities@) > 50 * c.municipalities@.len()
}

/// The partition's score: the number of winning districts.
pub open spec fn score_of(cs: Seq<Circonsciption>) -> int
    decreases cs.len(),
{
    if cs.len() == 0 {
        0
    } else {
        score_of(cs.drop_last()) + (if circ_wins(cs.last()) {
            1int
        } else {
            0int
        })
    }
}

/// Two grids hold the same assignment.
pub open spec fn grids_equal(a: Seq<Vec<usize>>, b: Seq<Vec<usize>>) -> bool {
    &&& a.len() == b.len()
    &&& forall|x: int| 0 <= x < a.len() ==> #[trigger] a[x]@ == b[x]@
}

impl State {
    /// The district identifier of cell `(x, y)`.
    pub open spec fn cell_id(&self, x: int, y: int) -> int {
        self.grid@[x]@[y] as int
    }

    /// The grid has the problem's shape and holds identifiers in `0..=m`.
    pub open spec fn grid_ok(&self, pb: &Problem) -> bool {
        &&& self.grid@.len() == pb.lx
        &&& forall|x: int| 0 <= x < pb.lx ==> #[trigger] self.grid@[x]@.len() == pb.ly
        &&& forall|x: int, y: int|
            pb.in_grid(x, y) ==> #[trigger] self.cell_id(x, y) <= pb.m
    }

    /// The grid and the districts agree: a nonzero grid entry names a
    /// district that holds the cell, and every district member's cell holds
    /// that district's identifier.
    pub open spec fn consistent(&self, pb: &Problem) -> bool {
        &&& forall|x: int, y: int|
            pb.in_grid(x, y) && #[trigger] self.cell_id(x, y) != 0 ==> mun_has(
                self.circonscriptions@[self.cell_id(x, y) - 1].municipalities@,
                x,
                y,
            )
        &&& forall|d: int, k: int|
            0 <= d < self.circonscriptions@.len() && 0 <= k
                < self.circonscriptions@[d].municipalities@.len() ==> self.cell_id(
                #[trigger] self.circonscriptions@[d].municipalities@[k].0 as int,
                self.circonscriptions@[d].municipalities@[k].1 as int,
            ) == d + 1
    }

    /// Well-formedness of a partition state relative to its problem.
    pub open spec fn wf(&self, pb: &Problem) -> bool {
        &&& self.grid_ok(pb)
        &&& self.circonscriptions@.len() == pb.m
        &&& forall|d: int|
            0 <= d < pb.m ==> (#[trigger] self.circonscriptions@[d]).wf(pb)
                && self.circonscriptions@[d].id == d + 1
        &&& self.consistent(pb)
    }

    /// Every cell is assigned to some district.
    pub open spec fn fully_assigned(&self, pb: &Problem) -> bool {
        forall|x: int, y: int| pb.in_grid(x, y) ==> #[trigger] self.cell_id(x, y) != 0
    }

    /// An empty partition: every cell unassigned, `m` empty districts.
    pub fn new_empty(pb: &Problem) -> (r: State)
        requires
            pb.wf(),
        ensures
            r.wf(pb),
            forall|x: int, y: int| pb.in_grid(x, y) ==> #[trigger] r.cell_id(x, y) == 0,
            forall|d: int|
                0 <= d < pb.m ==> (#[trigger] r.circonscriptions@[d]).municipalities@.len() == 0
                    && r.circonscriptions@[d].domain@.len() == 0,
    {
        let mut grid: Vec<Vec<usize>> = Vec::new();
        let mut x: usize = 0;
        while x < pb.lx
            invariant
                x <= pb.lx,
                grid@.len() == x,
                forall|i: int| 0 <= i < x ==> #[trigger] grid@[i]@.len() == pb.ly,
                forall|i: int, j: int| 0 <= i < x && 0 <= j < pb.ly ==> #[trigger] grid@[i]@[j] == 0,
            decreases pb.lx - x,
        {
            let mut row: Vec<usize> = Vec::new();
            let mut y: usize = 0;
            while y < pb.ly
                invariant
                    y <= pb.ly,
                    row@.len() == y,
                    forall|j: int| 0 <= j < y ==> #[trigger] row@[j] == 0,
                decreases pb.ly - y,
            {
                row.push(0);
                y = y + 1;
            }
            grid.push(row);
            x = x + 1;
        }
        let mut circonscriptions: Vec<Circonsciption> = Vec::new();
        let mut i: usize = 0;
        while i < pb.m
            invariant
                pb.wf(),
                i <= pb.m,
                circonscriptions@.len() == i,
                forall|d: int|
                    0 <= d < i ==> (#[trigger] circonscriptions@[d]).wf(pb)
                        && circonscriptions@[d].id == d + 1
                        && circonscriptions@[d].municipalities@.len() == 0
                        && circonscriptions@[d].domain@.len() == 0,
            decreases pb.m - i,
        {
            circonscriptions.push(Circonsciption::new(i + 1, pb));
            i = i + 1;
        }
        State { grid, circonscriptions }
    }

    /// A copy of the grid assignment.
    pub fn get_grid(&self) -> (r: Vec<Vec<usize>>)
        ensures
            grids_equal(r@, self.grid@),
    {
        let mut r: Vec<Vec<usize>> = Vec::new();
        let mut x: usize = 0;
        while x < self.grid.len()
            invariant
                x <= self.grid@.len(),
                r@.len() == x,
                forall|i: int| 0 <= i < x ==> #[trigger] r@[i]@ == self.grid@[i]@,
            decreases self.grid@.len() - x,
        {
            r.push(copy_row(&self.grid[x]));
            x = x + 1;
        }
        r
    }

    /// An independent copy of the state, for speculative evaluation.
    pub fn duplicate(&self) -> (r: State)
        ensures
            state_equiv(r, *self),
            grids_equal(r.grid@, self.grid@),
            r.circonscriptions@.len() == self.circonscriptions@.len(),
            forall|d: int|
                0 <= d < self.circonscriptions@.len() ==> (#[trigger] r.circonscriptions@[d]).id
                    == self.circonscriptions@[d].id && r.circonscriptions@[d].domain@
                    == self.circonscriptions@[d].domain@
                    && r.circonscriptions@[d].municipalities@
                    == self.circonscriptions@[d].municipalities@,
    {
        let grid = self.get_grid();
        let mut circonscriptions: Vec<Circonsciption> = Vec::new();
        let mut d: usize = 0;
        while d < self.circonscriptions.len()
            invariant
                d <= self.circonscriptions@.len(),
                circonscriptions@.len() == d,
                forall|i: int|
                    0 <= i < d ==> (#[trigger] circonscriptions@[i]).id
                        == self.circonscriptions@[i].id && circonscriptions@[i].domain@
                        == self.circonscriptions@[i].domain@ && circonscriptions@[i].municipalities@
                        == self.circonscriptions@[i].municipalities@,
            decreases self.circonscriptions@.len() - d,
        {
            circonscriptions.push(self.circonscriptions[d].duplicate());
            d = d + 1;
        }
        State { grid, circonscriptions }
    }

    /// The score: how many districts exceed the majority rule of fifty
    /// votes per member. The objective the local search maximizes.
    pub fn get_score(&self, pb: &Problem) -> (r: usize)
        requires
            pb.wf(),
            self.wf(pb),
        ensures
            r == score_of(self.circonscriptions@),
            r <= pb.m,
    {
        let mut score: usize = 0;
        let mut d: usize = 0;
        while d < self.circonscriptions.len()
            invariant
                pb.wf(),
                self.wf(pb),
                d <= self.circonscriptions@.len() == pb.m,
                score == score_of(self.circonscriptions@.take(d as int)),
                score <= d,
            decreases self.circonscriptions@.len() - d,
        {
            let c = &self.circonscriptions[d];
            proof {
                assert(c.wf(pb));
                lemma_distinct_cells_bound(c.municipalities@, pb.lx as int, pb.ly as int);
                assert(50 * c.municipalities@.len() <= 50 * pb.n) by (nonlinear_arith)
                    requires
                        c.municipalities@.len() <= pb.n,
                ;
            }
            let circ_score = c.get_votes(pb);
            let sz = c.len();
            if circ_score > sz * 50 {
                score = score + 1;
            }
            proof {
                assert(self.circonscriptions@.take(d as int + 1).drop_last()
                    =~= self.circonscriptions@.take(d as int));
                assert(self.circonscriptions@.take(d as int + 1).last() == self.circonscriptions@[d
                    as int]);
            }
            d = d + 1;
        }
        proof {
            assert(self.circonscriptions@.take(self.circonscriptions@.len() as int)
                =~= self.circonscriptions@);
        }
        score
    }

    /// Post-hoc audit: size balance (every district holds `n/m` or `n/m+1`
    /// members, exactly `n/m` when `m` divides `n`) and pairwise
    /// compactness of every district.
    pub fn is_valid(&self, pb: &Problem) -> (r: bool)
        requires
            pb.wf(),
            self.wf(pb),
        ensures
            r == balanced(*self, *pb),
    {
        let mut d: usize = 0;
        while d < self.circonscriptions.len()
            invariant
                pb.wf(),
                self.wf(pb),
                d <= self.circonscriptions@.len() == pb.m,
                forall|i: int| 0 <= i < d ==> #[trigger] circ_balanced(self.circonscriptions@[i], *pb),
            decreases self.circonscriptions@.len() - d,
        {
            let c = &self.circonscriptions[d];
            let sz = c.len();
            if pb.n % pb.m == 0 && pb.n / pb.m != sz {
                proof {
                    assert(!circ_balanced(self.circonscriptions@[d as int], *pb));
                }
                return false;
            }
            if pb.n / pb.m > sz || sz > pb.n / pb.m + 1 {
                proof {
                    assert(!circ_balanced(self.circonscriptions@[d as int], *pb));
                }
                return false;
            }
            // pairwise compactness: always holds of a well-formed district,
            // checked here all the same as an audit
            let mut k: usize = 0;
            while k < c.municipalities.len()
                invariant
                    pb.wf(),
                    c.wf(pb),
                    k <= c.municipalities@.len(),
                decreases c.municipalities@.len() - k,
            {
                let m1 = c.municipalities[k];
                if !within_all(&c.municipalities, m1.0, m1.1, pb.radius, pb) {
                    proof {
                        // a well-formed district is pairwise compact, so the
                        // check cannot fail here
                        assert(false);
                    }
                    return false;
                }
                k = k + 1;
            }
            d = d + 1;
        }
        true
    }
}

/// Whether the target district of an assignment can accept the cell: it is
/// empty (the cell seeds it) or the cell lies in its domain.
pub open spec fn can_assign(pre: State, x: int, y: int, cid: int) -> bool {
    let c = pre.circonscriptions@[cid - 1];
    c.municipalities@.len() == 0 || dom_has(c.domain@, x, y)
}

/// What a successful `update_grid` does: the grid entry of the cell becomes
/// the target identifier and nothing else in the grid changes; the previous
/// district, if any, undergoes a removal, the target district a push; every
/// other district is untouched.
pub open spec fn update_effect(
    pre: State,
    post: State,
    x: int,
    y: int,
    cid: int,
    pb: Problem,
) -> bool {
    let prev = pre.cell_id(x, y);
    let vote = pb.votes@[x]@[y];
    &&& post.grid@.len() == pre.grid@.len()
    &&& forall|i: int| 0 <= i < pre.grid@.len() ==> #[trigger] post.grid@[i]@.len()
        == pre.grid@[i]@.len()
    &&& post.cell_id(x, y) == cid
    &&& forall|i: int, j: int|
        pb.in_grid(i, j) && !(i == x && j == y) ==> #[trigger] post.cell_id(i, j) == pre.cell_id(
            i,
            j,
        )
    &&& post.circonscriptions@.len() == pre.circonscriptions@.len()
    &&& forall|d: int|
        0 <= d < pre.circonscriptions@.len() && d != cid - 1 && d != prev - 1
            ==> #[trigger] post.circonscriptions@[d] == pre.circonscriptions@[d]
    &&& push_effect(
        pre.circonscriptions@[cid - 1],
        post.circonscriptions@[cid - 1],
        (x as usize, y as usize, vote),
        pb,
    )
    &&& (prev != 0 ==> remove_effect(
        pre.circonscriptions@[prev - 1],
        post.circonscriptions@[prev - 1],
        x,
        y,
        pb,
    ))
}

/// Reassignment of one cell: the single mutation through which the grid and
/// the districts change together.
impl State {
    /// Assigns the cell to the district `circ_id`, removing it from its
    /// previous district first. A cell is never reassigned to the district
    /// it already holds. Fails, leaving the state untouched, when the
    /// target district is neither empty nor has the cell in its domain.
    pub fn update_grid(&mut self, cell: (usize, usize), circ_id: usize, pb: &Problem) -> (r:
        Result<(), PartitionError>)
        requires
            pb.wf(),
            old(self).wf(pb),
            pb.in_grid(cell.0 as int, cell.1 as int),
            1 <= circ_id <= pb.m,
            old(self).cell_id(cell.0 as int, cell.1 as int) != circ_id,
        ensures
            final(self).wf(pb),
            r is Ok <==> can_assign(*old(self), cell.0 as int, cell.1 as int, circ_id as int),
            r is Ok ==> update_effect(
                *old(self),
                *final(self),
                cell.0 as int,
                cell.1 as int,
                circ_id as int,
                *pb,
            ),
            r is Err ==> *final(self) == *old(self),
    {
        let (x, y) = cell;
        let tidx = circ_id - 1;
        let target_empty = self.circonscriptions[tidx].municipalities.len() == 0;
        let in_dom = dom_contains(&self.circonscriptions[tidx].domain, x, y);
        if !target_empty && !in_dom {
            return Err(PartitionError::InvalidAssignment);
        }
        let ghost pre = *self;
        let prev = self.grid[x][y];
        if prev != 0 {
            proof {
                assert(pre.cell_id(x as int, y as int) == prev);
                assert(mun_has(pre.circonscriptions@[prev - 1].municipalities@, x as int, y
                    as int));
            }
            let mut c = self.circonscriptions[prev - 1].duplicate();
            proof {
                assert(c.wf(pb)) by {
                    assert(pre.circonscriptions@[prev - 1].wf(pb));
                }
            }
            c.remove_mun(x, y, pb);
            self.circonscriptions.set(prev - 1, c);
        }
        let vote = pb.votes[x][y];
        let mut tc = self.circonscriptions[tidx].duplicate();
        proof {
            assert(self.circonscriptions@[tidx as int] == pre.circonscriptions@[tidx as int]);
            assert(tc.wf(pb)) by {
                assert(pre.circonscriptions@[tidx as int].wf(pb));
            }
            // the cell is not already a member of the target district
            assert_by_contradiction!(!mun_has(tc.municipalities@, x as int, y as int), {
                let w = choose|w: int| 0 <= w < tc.municipalities@.len()
                    && #[trigger] tc.municipalities@[w].0 == x && tc.municipalities@[w].1 == y;
                assert(pre.cell_id(pre.circonscriptions@[tidx as int].municipalities@[w].0 as int,
                    pre.circonscriptions@[tidx as int].municipalities@[w].1 as int) == tidx + 1);
            });
        }
        tc.push((x, y, vote), pb);
        self.circonscriptions.set(tidx, tc);
        let mut row = copy_row(&self.grid[x]);
        row.set(y, circ_id);
        self.grid.set(x, row);
        proof {
            let xi = x as int;
            let yi = y as int;
            let cid = circ_id as int;
            let previ = prev as int;
            assert(update_effect(pre, *self, xi, yi, cid, *pb)) by {
                if previ != 0 {
                    assert(remove_effect(
                        pre.circonscriptions@[previ - 1],
                        self.circonscriptions@[previ - 1],
                        xi,
                        yi,
                        *pb,
                    ));
                }
                assert(push_effect(
                    pre.circonscriptions@[cid - 1],
                    self.circonscriptions@[cid - 1],
                    (x, y, vote),
                    *pb,
                ));
            }
            assert(self.wf(pb)) by {
                assert forall|d: int| 0 <= d < pb.m implies (
                #[trigger] self.circonscriptions@[d]).wf(pb) && self.circonscriptions@[d].id == d
                    + 1 by {
                    if d != cid - 1 && d != previ - 1 {
                        assert(self.circonscriptions@[d] == pre.circonscriptions@[d]);
                        assert(pre.circonscriptions@[d].wf(pb));
                    }
                }
                // grid to member
                assert forall|i: int, j: int|
                    pb.in_grid(i, j) && #[trigger] self.cell_id(i, j) != 0 implies mun_has(
                    self.circonscriptions@[self.cell_id(i, j) - 1].municipalities@,
                    i,
                    j,
                ) by {
                    if i == xi && j == yi {
                        lemma_mun_has_push_or_seed(
                            pre.circonscriptions@[cid - 1],
                            self.circonscriptions@[cid - 1],
                            (x, y, vote),
                            *pb,
                        );
                    } else {
                        assert(pre.cell_id(i, j) == self.cell_id(i, j));
                        let d = self.cell_id(i, j);
                        assert(mun_has(pre.circonscriptions@[d - 1].municipalities@, i, j));
                        let w = choose|w: int|
                            0 <= w < pre.circonscriptions@[d - 1].municipalities@.len() && (
                            #[trigger] pre.circonscriptions@[d - 1].municipalities@[w]).0 == i
                                && pre.circonscriptions@[d - 1].municipalities@[w].1 == j;
                        if d == cid {
                            // the target district only gained a member
                            assert(pre.circonscriptions@[cid - 1].municipalities@.len() > 0);
                            assert(self.circonscriptions@[cid - 1].municipalities@[w]
                                == pre.circonscriptions@[cid - 1].municipalities@[w]);
                        } else if d == previ {
                            lemma_mun_has_after_remove(
                                pre.circonscriptions@[previ - 1],
                                self.circonscriptions@[previ - 1],
                                xi,
                                yi,
                                i,
                                j,
                                *pb,
                            );
                        } else {
                            assert(self.circonscriptions@[d - 1] == pre.circonscriptions@[d - 1]);
                        }
                    }
                }
                // member to grid
                assert forall|d: int, k: int|
                    0 <= d < self.circonscriptions@.len() && 0 <= k
                        < self.circonscriptions@[d].municipalities@.len() implies self.cell_id(
                    #[trigger] self.circonscriptions@[d].municipalities@[k].0 as int,
                    self.circonscriptions@[d].municipalities@[k].1 as int,
                ) == d + 1 by {
                    let mk = self.circonscriptions@[d].municipalities@[k];
                    if d == cid - 1 {
                        if pre.circonscriptions@[d].municipalities@.len() == 0 {
                            assert(self.circonscriptions@[d].municipalities@ == seq![
                                (x, y, vote)]);
                            assert(mk == (x, y, vote));
                        } else {
                            if k < pre.circonscriptions@[d].municipalities@.len() {
                                assert(mk == pre.circonscriptions@[d].municipalities@[k]);
                                assert(pre.cell_id(mk.0 as int, mk.1 as int) == d + 1);
                                assert(!(mk.0 == x && mk.1 == y));
                            } else {
                                assert(mk == (x, y, vote));
                            }
                        }
                    } else if d == previ - 1 {
                        lemma_member_after_remove_was_member(
                            pre.circonscriptions@[d],
                            self.circonscriptions@[d],
                            xi,
                            yi,
                            k,
                            *pb,
                        );
                        let w = choose|w: int|
                            0 <= w < pre.circonscriptions@[d].municipalities@.len()
                                && pre.circonscriptions@[d].municipalities@[w] == mk && !(
                            pre.circonscriptions@[d].municipalities@[w].0 == x
                                && pre.circonscriptions@[d].municipalities@[w].1 == y);
                        assert(pre.cell_id(mk.0 as int, mk.1 as int) == d + 1);
                    } else {
                        assert(self.circonscriptions@[d] == pre.circonscriptions@[d]);
                        assert(pre.cell_id(mk.0 as int, mk.1 as int) == d + 1);
                        assert(!(mk.0 == x && mk.1 == y)) by {
                            assert(pre.cell_id(xi, yi) == previ);
                        }
                    }
                }
            }
        }
        Ok(())
    }
}

/// After a push the pushed cell is a member.
pub proof fn lemma_mun_has_push_or_seed(
    pre: Circonsciption,
    post: Circonsciption,
    mun: (usize, usize, usize),
    pb: Problem,
)
    requires
        push_effect(pre, post, mun, pb),
    ensures
        mun_has(post.municipalities@, mun.0 as int, mun.1 as int),
{
    if pre.municipalities@.len() == 0 {
        assert(post.municipalities@[0] == mun);
    } else {
        assert(post.municipalities@[post.municipalities@.len() - 1] == mun);
    }
}

/// After a removal every other member cell is still a member.
pub proof fn lemma_mun_has_after_remove(
    pre: Circonsciption,
    post: Circonsciption,
    rx: int,
    ry: int,
    i: int,
    j: int,
    pb: Problem,
)
    requires
        pre.wf(&pb),
        remove_effect(pre, post, rx, ry, pb),
        mun_has(pre.municipalities@, i, j),
        !(i == rx && j == ry),
    ensures
        mun_has(post.municipalities@, i, j),
{
    let jd = choose|jd: int|
        0 <= jd < pre.municipalities@.len() && pre.municipalities@[jd].0 == rx
            && pre.municipalities@[jd].1 == ry;
    let w = choose|w: int|
        0 <= w < pre.municipalities@.len() && pre.municipalities@[w].0 == i
            && pre.municipalities@[w].1 == j;
    let last = pre.municipalities@.len() - 1;
    if w == last {
        // the moved last member now sits at the removed index
        assert(jd < last);
        assert(post.municipalities@[jd] == pre.municipalities@[last]);
    } else {
        assert(w != jd);
        assert(post.municipalities@[w] == pre.municipalities@[w]);
    }
}

/// Every member left after a removal is one of the previous members at a
/// different cell than the removed one.
pub proof fn lemma_member_after_remove_was_member(
    pre: Circonsciption,
    post: Circonsciption,
    rx: int,
    ry: int,
    k: int,
    pb: Problem,
)
    requires
        pre.wf(&pb),
        remove_effect(pre, post, rx, ry, pb),
        0 <= k < post.municipalities@.len(),
    ensures
        exists|w: int|
            0 <= w < pre.municipalities@.len() && pre.municipalities@[w]
                == #[trigger] post.municipalities@[k] && !(pre.municipalities@[w].0 == rx
                && pre.municipalities@[w].1 == ry),
{
    let jd = choose|jd: int|
        0 <= jd < pre.municipalities@.len() && pre.municipalities@[jd].0 == rx
            && pre.municipalities@[jd].1 == ry;
    let last = pre.municipalities@.len() - 1;
    if k == jd {
        assert(post.municipalities@[k] == pre.municipalities@[last]);
        assert(!(pre.municipalities@[last].0 == rx && pre.municipalities@[last].1 == ry));
    } else {
        assert(post.municipalities@[k] == pre.municipalities@[k]);
        assert(!(pre.municipalities@[k].0 == rx && pre.municipalities@[k].1 == ry));
    }
}

/// Whether exchanging the two cells is locally legal: each cell lies in the
/// domain of the other cell's current district.
pub open spec fn swap_ok(s: State, a: (usize, usize), b: (usize, usize)) -> bool {
    let da = s.cell_id(a.0 as int, a.1 as int);
    let db = s.cell_id(b.0 as int, b.1 as int);
    &&& dom_has(s.circonscriptions@[db - 1].domain@, a.0 as int, a.1 as int)
    &&& dom_has(s.circonscriptions@[da - 1].domain@, b.0 as int, b.1 as int)
}

/// The index of the member at cell `(x, y)` in a member sequence.
pub open spec fn mun_index(s: Seq<(usize, usize, usize)>, x: int, y: int) -> int {
    choose|k: int| 0 <= k < s.len() && (#[trigger] s[k]).0 == x && s[k].1 == y
}

/// What `swap` does. An illegal swap leaves the state untouched. A legal
/// swap exchanges the grid entries of the two cells; in the member lists,
/// the target cell's entry in its district is replaced by the origin cell,
/// and the origin cell's district loses the origin by exchange with its
/// last member and gains the target cell at the end. The reverse swap of
/// the same two cells is legal again on the resulting state.
#[verifier::opaque]
pub open spec fn swap_step(
    pre: State,
    post: State,
    a: (usize, usize),
    b: (usize, usize),
    pb: Problem,
) -> bool {
    let da = pre.cell_id(a.0 as int, a.1 as int);
    let db = pre.cell_id(b.0 as int, b.1 as int);
    let amun = (a.0, a.1, pb.votes@[a.0 as int]@[a.1 as int]);
    let bmun = (b.0, b.1, pb.votes@[b.0 as int]@[b.1 as int]);
    let j = mun_index(pre.circonscriptions@[da - 1].municipalities@, a.0 as int, a.1 as int);
    let k = mun_index(pre.circonscriptions@[db - 1].municipalities@, b.0 as int, b.1 as int);
    if !swap_ok(pre, a, b) {
        post == pre
    } else {
        &&& post.grid@.len() == pre.grid@.len()
        &&& forall|i: int| 0 <= i < pre.grid@.len() ==> #[trigger] post.grid@[i]@.len()
            == pre.grid@[i]@.len()
        &&& post.cell_id(a.0 as int, a.1 as int) == db
        &&& post.cell_id(b.0 as int, b.1 as int) == da
        &&& forall|i: int, j2: int|
            pb.in_grid(i, j2) && !(i == a.0 && j2 == a.1) && !(i == b.0 && j2 == b.1)
                ==> #[trigger] post.cell_id(i, j2) == pre.cell_id(i, j2)
        &&& post.circonscriptions@.len() == pre.circonscriptions@.len()
        &&& forall|d: int|
            0 <= d < pre.circonscriptions@.len() && d != da - 1 && d != db - 1
                ==> #[trigger] post.circonscriptions@[d] == pre.circonscriptions@[d]
        &&& post.circonscriptions@[db - 1].municipalities@ == pre.circonscriptions@[db
            - 1].municipalities@.update(k, amun)
        &&& post.circonscriptions@[da - 1].municipalities@ == pre.circonscriptions@[da
            - 1].municipalities@.update(
            j,
            pre.circonscriptions@[da - 1].municipalities@.last(),
        ).drop_last().push(bmun)
        &&& swap_ok(post, a, b)
    }
}

/// The cell-exchange operation of the optimizer.
impl State {
    /// Exchanges the district assignments of the two cells, when each lies
    /// in the domain of the other's district; otherwise a no-op.
    pub fn swap(&mut self, origin: (usize, usize), target: (usize, usize), pb: &Problem)
        requires
            pb.wf(),
            old(self).wf(pb),
            pb.in_grid(origin.0 as int, origin.1 as int),
            pb.in_grid(target.0 as int, target.1 as int),
            old(self).cell_id(origin.0 as int, origin.1 as int) != 0,
            old(self).cell_id(target.0 as int, target.1 as int) != 0,
        ensures
            final(self).wf(pb),
            swap_step(*old(self), *final(self), origin, target, *pb),
            old(self).fully_assigned(pb) ==> final(self).fully_assigned(pb),
            forall|d: int|
                0 <= d < pb.m ==> (#[trigger] final(self).circonscriptions@[d]).municipalities@.len()
                    == old(self).circonscriptions@[d].municipalities@.len(),
    {
        let (ox, oy) = origin;
        let (tx, ty) = target;
        let da = self.grid[ox][oy];
        let db = self.grid[tx][ty];
        let ok1 = dom_contains(&self.circonscriptions[db - 1].domain, ox, oy);
        let ok2 = dom_contains(&self.circonscriptions[da - 1].domain, tx, ty);
        if !ok1 || !ok2 {
            proof {
                reveal(swap_step);
            }
            return ;
        }
        let ghost pre = *self;
        proof {
            // equal districts would put the origin inside its own district's
            // domain, against domain/member disjointness
            assert(da != db) by {
                if da == db {
                    assert(mun_has(pre.circonscriptions@[da - 1].municipalities@, ox as int, oy
                        as int));
                    let w = choose|w: int|
                        0 <= w < pre.circonscriptions@[db - 1].domain@.len() && (
                        #[trigger] pre.circonscriptions@[db - 1].domain@[w]).0 == ox
                            && pre.circonscriptions@[db - 1].domain@[w].1 == oy;
                    assert(!mun_has(pre.circonscriptions@[db - 1].municipalities@, ox as int, oy
                        as int));
                }
            }
            assert(!(ox == tx && oy == ty));
            // the origin is within the radius of the target and conversely:
            // the origin lies in the target district's domain and the target
            // is one of that district's members
            assert(mun_has(pre.circonscriptions@[db - 1].municipalities@, tx as int, ty as int));
            let wa = choose|w: int|
                0 <= w < pre.circonscriptions@[db - 1].domain@.len() && (
                #[trigger] pre.circonscriptions@[db - 1].domain@[w]).0 == ox
                    && pre.circonscriptions@[db - 1].domain@[w].1 == oy;
            let wm = choose|w: int|
                0 <= w < pre.circonscriptions@[db - 1].municipalities@.len()
                    && (#[trigger] pre.circonscriptions@[db - 1].municipalities@[w]).0 == tx
                    && pre.circonscriptions@[db - 1].municipalities@[w].1 == ty;
            assert(manhattan(ox as int, oy as int, tx as int, ty as int) <= pb.radius);
        }
        let r1 = self.update_grid(origin, db, pb);
        match r1 {
            Ok(()) => {},
            Err(_) => {
                proof {
                    assert(false);
                }
                return ;
            },
        }
        let ghost mid = *self;
        proof {
            // the target still lies in the origin district's domain: removal
            // only extends a domain
            assert(dom_has(mid.circonscriptions@[da - 1].domain@, tx as int, ty as int));
            assert(mid.cell_id(tx as int, ty as int) == db);
        }
        let r2 = self.update_grid(target, da, pb);
        match r2 {
            Ok(()) => {},
            Err(_) => {
                proof {
                    assert(false);
                }
                return ;
            },
        }
        proof {
            lemma_swap_post(pre, mid, *self, origin, target, *pb);
        }
    }
}

/// Whether member `k` of the member list `muns` can be swapped into a
/// target district with domain `tdom` and members `tmuns`: its cell lies
/// in the target's domain and is not one of the target's members.
pub open spec fn swapable_cell(
    muns: Seq<(usize, usize, usize)>,
    tdom: Seq<(usize, usize)>,
    tmuns: Seq<(usize, usize, usize)>,
    k: int,
) -> bool {
    &&& dom_has(tdom, muns[k].0 as int, muns[k].1 as int)
    &&& !mun_has(tmuns, muns[k].0 as int, muns[k].1 as int)
}

/// Whether some member of `muns` can be swapped into the target district.
pub open spec fn has_swapable_in(
    muns: Seq<(usize, usize, usize)>,
    tdom: Seq<(usize, usize)>,
    tmuns: Seq<(usize, usize, usize)>,
) -> bool {
    exists|k: int| 0 <= k < muns.len() && #[trigger] swapable_cell(muns, tdom, tmuns, k)
}

/// The member the swap heuristic designates: the earliest member of `muns`
/// with minimal votes among those swapable into the target district.
pub open spec fn best_member_in(
    muns: Seq<(usize, usize, usize)>,
    tdom: Seq<(usize, usize)>,
    tmuns: Seq<(usize, usize, usize)>,
) -> int {
    choose|kb: int|
        0 <= kb < muns.len() && #[trigger] swapable_cell(muns, tdom, tmuns, kb) && (forall|k2: int|
            0 <= k2 < muns.len() && swapable_cell(muns, tdom, tmuns, k2) ==> muns[k2].2
                >= muns[kb].2) && (forall|k2: int|
            0 <= k2 < kb && swapable_cell(muns, tdom, tmuns, k2) ==> muns[k2].2 > muns[kb].2)
}

/// The heuristic value of swapping the designated member for the target
/// cell `(i, j)`: the target cell's votes plus fifty per member of the
/// target district, minus the designated member's votes plus the target
/// district's vote total.
pub open spec fn heuristic_value_in(
    muns: Seq<(usize, usize, usize)>,
    tdom: Seq<(usize, usize)>,
    tmuns: Seq<(usize, usize, usize)>,
    pb: Problem,
    i: int,
    j: int,
) -> int {
    pb.vote_at(i, j) + 50 * tmuns.len() - (muns[best_member_in(muns, tdom, tmuns)].2 + mun_votes(
        tmuns,
    ))
}

/// Any member with the minimal-votes, earliest-tie properties is the one
/// `best_member_in` designates.
pub proof fn lemma_best_member_unique(
    muns: Seq<(usize, usize, usize)>,
    tdom: Seq<(usize, usize)>,
    tmuns: Seq<(usize, usize, usize)>,
    b: int,
)
    requires
        0 <= b < muns.len(),
        swapable_cell(muns, tdom, tmuns, b),
        forall|k2: int|
            0 <= k2 < muns.len() && swapable_cell(muns, tdom, tmuns, k2) ==> muns[k2].2
                >= muns[b].2,
        forall|k2: int| 0 <= k2 < b && swapable_cell(muns, tdom, tmuns, k2) ==> muns[k2].2 > muns[b].2,
    ensures
        best_member_in(muns, tdom, tmuns) == b,
{
    let kb = best_member_in(muns, tdom, tmuns);
    assert(0 <= kb < muns.len() && swapable_cell(muns, tdom, tmuns, kb) && (forall|k2: int|
        0 <= k2 < muns.len() && swapable_cell(muns, tdom, tmuns, k2) ==> muns[k2].2 >= muns[kb].2)
        && (forall|k2: int|
        0 <= k2 < kb && swapable_cell(muns, tdom, tmuns, k2) ==> muns[k2].2 > muns[kb].2)) by {
        assert(swapable_cell(muns, tdom, tmuns, b));
    }
    if kb < b {
        assert(muns[kb].2 > muns[b].2);
        assert(muns[b].2 >= muns[kb].2);
    } else if b < kb {
        assert(muns[b].2 > muns[kb].2);
        assert(muns[kb].2 >= muns[b].2);
    }
}

/// Two partition states with equal views: the same grid assignment and,
/// district by district, the same identifier, domain and member list.
pub open spec fn state_equiv(a: State, b: State) -> bool {
    &&& grids_equal(a.grid@, b.grid@)
    &&& a.circonscriptions@.len() == b.circonscriptions@.len()
    &&& forall|d: int|
        0 <= d < b.circonscriptions@.len() ==> (#[trigger] a.circonscriptions@[d]).id
            == b.circonscriptions@[d].id && a.circonscriptions@[d].domain@
            == b.circonscriptions@[d].domain@ && a.circonscriptions@[d].municipalities@
            == b.circonscriptions@[d].municipalities@
}

/// The mathematical content of a partition state: the grid of identifiers
/// and, district by district, the domain and the member list.
pub struct StateView {
    pub grid: Seq<Seq<usize>>,
    pub doms: Seq<Seq<(usize, usize)>>,
    pub munss: Seq<Seq<(usize, usize, usize)>>,
}

/// The view of a partition state.
pub open spec fn view_of(s: State) -> StateView {
    StateView {
        grid: Seq::new(s.grid@.len(), |x: int| s.grid@[x]@),
        doms: Seq::new(s.circonscriptions@.len(), |d: int| s.circonscriptions@[d].domain@),
        munss: Seq::new(
            s.circonscriptions@.len(),
            |d: int| s.circonscriptions@[d].municipalities@,
        ),
    }
}

/// States with equal views have the same view value.
pub proof fn lemma_view_of_equiv(a: State, b: State)
    requires
        state_equiv(a, b),
    ensures
        view_of(a) == view_of(b),
{
    assert(view_of(a).grid =~= view_of(b).grid) by {
        assert forall|x: int| 0 <= x < a.grid@.len() implies view_of(a).grid[x] == view_of(
            b,
        ).grid[x] by {
            assert(a.grid@[x]@ == b.grid@[x]@);
        }
    }
    assert(view_of(a).doms =~= view_of(b).doms);
    assert(view_of(a).munss =~= view_of(b).munss);
}

/// The score read off a view: the number of member lists whose vote total
/// exceeds fifty votes per member.
pub open spec fn score_v(munss: Seq<Seq<(usize, usize, usize)>>) -> int
    decreases munss.len(),
{
    if munss.len() == 0 {
        0
    } else {
        score_v(munss.drop_last()) + (if mun_votes(munss.last()) > 50 * munss.last().len() {
            1int
        } else {
            0int
        })
    }
}

/// Everything the library states of a partition transfers to a state with
/// equal views: well-formedness, the score, full assignment, district
/// sizes, and every cell's identifier.
pub proof fn lemma_state_equiv_carries(a: State, b: State, pb: Problem)
    requires
        b.wf(&pb),
        state_equiv(a, b),
    ensures
        a.wf(&pb),
        score_of(a.circonscriptions@) == score_of(b.circonscriptions@),
        forall|x: int, y: int|
            pb.in_grid(x, y) ==> #[trigger] a.cell_id(x, y) == b.cell_id(x, y),
        b.fully_assigned(&pb) ==> a.fully_assigned(&pb),
        forall|d: int|
            0 <= d < pb.m ==> (#[trigger] a.circonscriptions@[d]).municipalities@.len()
                == b.circonscriptions@[d].municipalities@.len(),
{
    assert forall|x: int, y: int| pb.in_grid(x, y) implies #[trigger] a.cell_id(x, y) == b.cell_id(
        x,
        y,
    ) by {
        assert(a.grid@[x]@ == b.grid@[x]@);
    }
    assert forall|d: int| 0 <= d < pb.m implies (#[trigger] a.circonscriptions@[d]).wf(&pb) by {
        lemma_circ_wf_of_views(a.circonscriptions@[d], b.circonscriptions@[d], pb);
    }
    assert(a.wf(&pb)) by {
        assert forall|x: int, y: int|
            pb.in_grid(x, y) && #[trigger] a.cell_id(x, y) != 0 implies mun_has(
            a.circonscriptions@[a.cell_id(x, y) - 1].municipalities@,
            x,
            y,
        ) by {
            assert(b.cell_id(x, y) == a.cell_id(x, y));
            assert(mun_has(b.circonscriptions@[b.cell_id(x, y) - 1].municipalities@, x, y));
        }
        assert forall|d: int, k: int|
            0 <= d < a.circonscriptions@.len() && 0 <= k
                < a.circonscriptions@[d].municipalities@.len() implies a.cell_id(
            #[trigger] a.circonscriptions@[d].municipalities@[k].0 as int,
            a.circonscriptions@[d].municipalities@[k].1 as int,
        ) == d + 1 by {
            assert(a.circonscriptions@[d].municipalities@ == b.circonscriptions@[d].municipalities@);
            assert(b.cell_id(
                b.circonscriptions@[d].municipalities@[k].0 as int,
                b.circonscriptions@[d].municipalities@[k].1 as int,
            ) == d + 1);
        }
        assert forall|x: int, y: int| pb.in_grid(x, y) implies #[trigger] a.cell_id(x, y) <= pb.m
            by {
            assert(a.cell_id(x, y) == b.cell_id(x, y));
        }
    }
    assert forall|d: int| 0 <= d < a.circonscriptions@.len() implies mun_votes(
        #[trigger] a.circonscriptions@[d].municipalities@,
    ) == mun_votes(b.circonscriptions@[d].municipalities@)
        && a.circonscriptions@[d].municipalities@.len()
        == b.circonscriptions@[d].municipalities@.len() by {
        assert(a.circonscriptions@[d].municipalities@ == b.circonscriptions@[d].municipalities@);
    }
    lemma_score_congruence(a.circonscriptions@, b.circonscriptions@);
    if b.fully_assigned(&pb) {
        assert forall|x: int, y: int| pb.in_grid(x, y) implies #[trigger] a.cell_id(x, y) != 0 by {
            assert(b.cell_id(x, y) != 0);
        }
    }
}

/// The swap-candidate scoring of the optimizer.
impl Circonsciption {
    /// For a target cell `(i, j)` owned by another district, finds among
    /// this district's members available to that district the one whose
    /// vote count is smallest (ties broken toward the earliest member), and
    /// the signed heuristic value of swapping it: the target cell's votes
    /// plus fifty per member of the target district, minus the chosen
    /// member's votes plus the target district's vote total. Yields
    /// `((0, 0), 0)` when no member can be swapped.
    pub fn swap_heuristic(&self, i: usize, j: usize, state: &State, pb: &Problem) -> (r: ((
        usize,
        usize,
    ), i128))
        requires
            pb.wf(),
            state.wf(pb),
            self.wf(pb),
            pb.in_grid(i as int, j as int),
            state.cell_id(i as int, j as int) != 0,
        ensures
            ({
                let tc = state.circonscriptions@[state.cell_id(i as int, j as int) - 1];
                if !has_swapable_in(self.municipalities@, tc.domain@, tc.municipalities@) {
                    r == (((0usize, 0usize), 0i128))
                } else {
                    let kb = best_member_in(self.municipalities@, tc.domain@, tc.municipalities@);
                    0 <= kb < self.municipalities@.len() && swapable_cell(
                        self.municipalities@,
                        tc.domain@,
                        tc.municipalities@,
                        kb,
                    ) && r.0 == (self.municipalities@[kb].0, self.municipalities@[kb].1) && r.1
                        == heuristic_value_in(
                        self.municipalities@,
                        tc.domain@,
                        tc.municipalities@,
                        *pb,
                        i as int,
                        j as int,
                    )
                }
            }),
            i128::MIN < r.1,
    {
        let did = state.grid[i][j];
        let tc = &state.circonscriptions[did - 1];
        let mut best: Option<usize> = None;
        let mut k: usize = 0;
        while k < self.municipalities.len()
            invariant
                pb.wf(),
                state.wf(pb),
                self.wf(pb),
                1 <= did <= pb.m,
                tc == state.circonscriptions@[did - 1],
                k <= self.municipalities@.len(),
                best is None ==> forall|k2: int|
                    0 <= k2 < k ==> !swapable_cell(
                        self.municipalities@,
                        tc.domain@,
                        tc.municipalities@,
                        k2,
                    ),
                match best {
                    Some(b) => 0 <= b < k && swapable_cell(
                        self.municipalities@,
                        tc.domain@,
                        tc.municipalities@,
                        b as int,
                    ) && (forall|k2: int|
                        0 <= k2 < k && swapable_cell(
                            self.municipalities@,
                            tc.domain@,
                            tc.municipalities@,
                            k2,
                        ) ==> self.municipalities@[k2].2 >= self.municipalities@[b as int].2) && (
                    forall|k2: int|
                        0 <= k2 < b && swapable_cell(
                            self.municipalities@,
                            tc.domain@,
                            tc.municipalities@,
                            k2,
                        ) ==> self.municipalities@[k2].2 > self.municipalities@[b as int].2),
                    None => true,
                },
            decreases self.municipalities@.len() - k,
        {
            let m = self.municipalities[k];
            if dom_contains(&tc.domain, m.0, m.1) && mun_find(&tc.municipalities, m.0, m.1).is_none() {
                match best {
                    None => {
                        best = Some(k);
                    },
                    Some(b) => {
                        if m.2 < self.municipalities[b].2 {
                            best = Some(k);
                        }
                    },
                }
            }
            k = k + 1;
        }
        match best {
            None => {
                proof {
                    assert(!has_swapable_in(self.municipalities@, tc.domain@, tc.municipalities@));
                }
                (((0, 0), 0))
            },
            Some(b) => {
                proof {
                    lemma_best_member_unique(
                        self.municipalities@,
                        tc.domain@,
                        tc.municipalities@,
                        b as int,
                    );
                }
                let m = self.municipalities[b];
                let tlen = tc.len();
                let tvotes = tc.get_votes(pb);
                let v1: i128 = pb.votes[i][j] as i128 + 50i128 * (tlen as i128);
                let v2: i128 = m.2 as i128 + tvotes as i128;
                ((m.0, m.1), v1 - v2)
            },
        }
    }
}

/// District well-formedness carries over to a copy with the same
/// identifier and views.
pub proof fn lemma_circ_wf_of_views(a: Circonsciption, b: Circonsciption, pb: Problem)
    requires
        b.wf(&pb),
        a.id == b.id,
        a.domain@ == b.domain@,
        a.municipalities@ == b.municipalities@,
    ensures
        a.wf(&pb),
{
}

/// In a member sequence of pairwise distinct cells, `mun_index` returns the
/// one index that holds a given member cell.
pub proof fn lemma_mun_index_unique(s: Seq<(usize, usize, usize)>, x: int, y: int, i: int)
    requires
        0 <= i < s.len(),
        s[i].0 == x,
        s[i].1 == y,
        forall|k1: int, k2: int|
            0 <= k1 < k2 < s.len() ==> !(#[trigger] s[k1].0 == #[trigger] s[k2].0 && s[k1].1
                == s[k2].1),
    ensures
        mun_index(s, x, y) == i,
{
    let k = mun_index(s, x, y);
    assert(0 <= k < s.len() && s[k].0 == x && s[k].1 == y) by {
        assert(0 <= i < s.len() && (#[trigger] s[i]).0 == x && s[i].1 == y);
    }
}

/// Composition of the two reassignments of a legal swap into `swap_step`.
proof fn lemma_swap_post(
    pre: State,
    mid: State,
    post: State,
    a: (usize, usize),
    b: (usize, usize),
    pb: Problem,
)
    requires
        pb.wf(),
        pre.wf(&pb),
        mid.wf(&pb),
        post.wf(&pb),
        pb.in_grid(a.0 as int, a.1 as int),
        pb.in_grid(b.0 as int, b.1 as int),
        pre.cell_id(a.0 as int, a.1 as int) != 0,
        pre.cell_id(b.0 as int, b.1 as int) != 0,
        pre.cell_id(a.0 as int, a.1 as int) != pre.cell_id(b.0 as int, b.1 as int),
        swap_ok(pre, a, b),
        update_effect(
            pre,
            mid,
            a.0 as int,
            a.1 as int,
            pre.cell_id(b.0 as int, b.1 as int),
            pb,
        ),
        update_effect(
            mid,
            post,
            b.0 as int,
            b.1 as int,
            pre.cell_id(a.0 as int, a.1 as int),
            pb,
        ),
    ensures
        swap_step(pre, post, a, b, pb),
{
    let ax = a.0 as int;
    let ay = a.1 as int;
    let bx = b.0 as int;
    let by = b.1 as int;
    let da = pre.cell_id(ax, ay);
    let db = pre.cell_id(bx, by);
    let amun = (a.0, a.1, pb.votes@[ax]@[ay]);
    let bmun = (b.0, b.1, pb.votes@[bx]@[by]);
    let pda = pre.circonscriptions@[da - 1];
    let pdb = pre.circonscriptions@[db - 1];
    let mda = mid.circonscriptions@[da - 1];
    let mdb = mid.circonscriptions@[db - 1];
    let qda = post.circonscriptions@[da - 1];
    let qdb = post.circonscriptions@[db - 1];
    assert(!(a.0 == b.0 && a.1 == b.1));
    // the two cells are members of their districts
    assert(mun_has(pda.municipalities@, ax, ay));
    assert(mun_has(pdb.municipalities@, bx, by));
    let j = mun_index(pda.municipalities@, ax, ay);
    let k = mun_index(pdb.municipalities@, bx, by);
    assert(0 <= j < pda.municipalities@.len() && pda.municipalities@[j].0 == a.0
        && pda.municipalities@[j].1 == a.1) by {
        let w = choose|w: int|
            0 <= w < pda.municipalities@.len() && (#[trigger] pda.municipalities@[w]).0 == a.0
                && pda.municipalities@[w].1 == a.1;
        lemma_mun_index_unique(pda.municipalities@, ax, ay, w);
    }
    assert(0 <= k < pdb.municipalities@.len() && pdb.municipalities@[k].0 == b.0
        && pdb.municipalities@[k].1 == b.1) by {
        let w = choose|w: int|
            0 <= w < pdb.municipalities@.len() && (#[trigger] pdb.municipalities@[w]).0 == b.0
                && pdb.municipalities@[w].1 == b.1;
        lemma_mun_index_unique(pdb.municipalities@, bx, by, w);
    }
    // the origin is within the radius of the target
    assert(manhattan(ax, ay, bx, by) <= pb.radius) by {
        let wa = choose|w: int|
            0 <= w < pdb.domain@.len() && pdb.domain@[w].0 == a.0 && pdb.domain@[w].1 == a.1;
        assert(manhattan(pdb.domain@[wa].0 as int, pdb.domain@[wa].1 as int,
            pdb.municipalities@[k].0 as int, pdb.municipalities@[k].1 as int) <= pb.radius);
    }
    // first step: the origin's district loses the origin, the target's
    // district gains it at the end
    assert(pdb.municipalities@.len() > 0);
    assert(mdb.municipalities@ == pdb.municipalities@.push(amun));
    assert(mda.municipalities@ == pda.municipalities@.update(
        j,
        pda.municipalities@.last(),
    ).drop_last()) by {
        let jc = choose|jc: int|
            0 <= jc < pda.municipalities@.len() && pda.municipalities@[jc].0 == a.0
                && pda.municipalities@[jc].1 == a.1;
        lemma_mun_index_unique(pda.municipalities@, ax, ay, jc);
    }
    // second step: the member at the target cell in the target's district is
    // the original one
    assert(mid.cell_id(bx, by) == db);
    assert(qdb.municipalities@ == pdb.municipalities@.update(k, amun)) by {
        let kc = choose|kc: int|
            0 <= kc < mdb.municipalities@.len() && mdb.municipalities@[kc].0 == b.0
                && mdb.municipalities@[kc].1 == b.1;
        assert(mdb.municipalities@[k] == pdb.municipalities@[k]);
        assert(kc == k) by {
            if kc < pdb.municipalities@.len() {
                assert(mdb.municipalities@[kc] == pdb.municipalities@[kc]);
            } else {
                assert(mdb.municipalities@[kc] == amun);
            }
        }
        assert(qdb.municipalities@ == mdb.municipalities@.update(
            k,
            mdb.municipalities@.last(),
        ).drop_last());
        assert(mdb.municipalities@.last() == amun);
        assert(mdb.municipalities@.update(k, amun).drop_last() =~= pdb.municipalities@.update(
            k,
            amun,
        ));
    }
    assert(qda.municipalities@ == mda.municipalities@.push(bmun)) by {
        if mda.municipalities@.len() == 0 {
            assert(qda.municipalities@ == seq![bmun]);
            assert(seq![bmun] =~= mda.municipalities@.push(bmun));
        }
    }
    // reverse legality: the origin may re-enter its old district
    assert(dom_has(qda.domain@, ax, ay)) by {
        if mda.municipalities@.len() == 0 {
            assert(pb.in_grid(ax, ay) && manhattan(ax, ay, bx, by) <= pb.radius && !(ax == b.0
                && ay == b.1));
        } else {
            assert(dom_has(mda.domain@, ax, ay)) by {
                assert(readmit(mda, ax, ay, ax, ay, pb)) by {
                    assert_by_contradiction!(!mun_has(mda.municipalities@, ax, ay), {
                        let w = choose|w: int| 0 <= w < mda.municipalities@.len()
                            && #[trigger] mda.municipalities@[w].0 == a.0
                            && mda.municipalities@[w].1 == a.1;
                        let last = pda.municipalities@.len() - 1;
                        let o: int = if w == j { last } else { w };
                        assert(mda.municipalities@[w] == pda.municipalities@[o]);
                        assert(o != j);
                    });
                    assert forall|km: int| 0 <= km < mda.municipalities@.len() implies manhattan(
                        ax,
                        ay,
                        #[trigger] mda.municipalities@[km].0 as int,
                        mda.municipalities@[km].1 as int,
                    ) <= pb.radius by {
                        let last = pda.municipalities@.len() - 1;
                        let o: int = if km == j { last } else { km };
                        assert(mda.municipalities@[km] == pda.municipalities@[o]);
                        assert(manhattan(
                            pda.municipalities@[j].0 as int,
                            pda.municipalities@[j].1 as int,
                            pda.municipalities@[o].0 as int,
                            pda.municipalities@[o].1 as int,
                        ) <= pb.radius);
                    }
                }
            }
            assert(!(ax == b.0 && ay == b.1));
        }
    }
    // reverse legality: the target may re-enter its old district
    assert(dom_has(qdb.domain@, bx, by)) by {
        assert(readmit(qdb, bx, by, bx, by, pb)) by {
            assert_by_contradiction!(!mun_has(qdb.municipalities@, bx, by), {
                let w = choose|w: int| 0 <= w < qdb.municipalities@.len()
                    && #[trigger] qdb.municipalities@[w].0 == b.0
                    && qdb.municipalities@[w].1 == b.1;
                assert(qdb.municipalities@ == pdb.municipalities@.update(k, amun));
                if w == k {
                    assert(qdb.municipalities@[w] == amun);
                } else {
                    assert(qdb.municipalities@[w] == pdb.municipalities@[w]);
                }
            });
            assert forall|km: int| 0 <= km < qdb.municipalities@.len() implies manhattan(
                bx,
                by,
                #[trigger] qdb.municipalities@[km].0 as int,
                qdb.municipalities@[km].1 as int,
            ) <= pb.radius by {
                if km == k {
                    assert(qdb.municipalities@[km] == amun);
                } else {
                    assert(qdb.municipalities@[km] == pdb.municipalities@[km]);
                    assert(manhattan(
                        pdb.municipalities@[k].0 as int,
                        pdb.municipalities@[k].1 as int,
                        pdb.municipalities@[km].0 as int,
                        pdb.municipalities@[km].1 as int,
                    ) <= pb.radius);
                }
            }
        }
    }
    assert(post.cell_id(ax, ay) == db);
    assert(post.cell_id(bx, by) == da);
    assert(swap_ok(post, a, b));
    assert(swap_step(pre, post, a, b, pb)) by {
        reveal(swap_step);
        lemma_mun_index_unique(pda.municipalities@, ax, ay, j);
        lemma_mun_index_unique(pdb.municipalities@, bx, by, k);
    }
}

/// In a well-formed partition the grid and the districts agree: a cell
/// carries a district's identifier exactly when the district holds it.
pub proof fn lemma_grid_district_agreement(s: State, pb: Problem)
    requires
        s.wf(&pb),
    ensures
        forall|x: int, y: int, d: int|
            #![trigger mun_has(s.circonscriptions@[d - 1].municipalities@, x, y)]
            pb.in_grid(x, y) && 1 <= d <= pb.m ==> (s.cell_id(x, y) == d <==> mun_has(
                s.circonscriptions@[d - 1].municipalities@,
                x,
                y,
            )),
{
    assert forall|x: int, y: int, d: int|
        #![trigger mun_has(s.circonscriptions@[d - 1].municipalities@, x, y)]
        pb.in_grid(x, y) && 1 <= d <= pb.m implies (s.cell_id(x, y) == d <==> mun_has(
        s.circonscriptions@[d - 1].municipalities@,
        x,
        y,
    )) by {
        if mun_has(s.circonscriptions@[d - 1].municipalities@, x, y) {
            let w = choose|w: int|
                0 <= w < s.circonscriptions@[d - 1].municipalities@.len() && (
                #[trigger] s.circonscriptions@[d - 1].municipalities@[w]).0 == x
                    && s.circonscriptions@[d - 1].municipalities@[w].1 == y;
            assert(s.cell_id(
                s.circonscriptions@[d - 1].municipalities@[w].0 as int,
                s.circonscriptions@[d - 1].municipalities@[w].1 as int,
            ) == d);
        }
    }
}

/// In a well-formed partition every district's domain is disjoint from its
/// members.
pub proof fn lemma_domain_members_disjoint(s: State, pb: Problem)
    requires
        s.wf(&pb),
    ensures
        forall|d: int, x: int, y: int|
            #![trigger dom_has(s.circonscriptions@[d].domain@, x, y)]
            0 <= d < pb.m && dom_has(s.circonscriptions@[d].domain@, x, y) ==> !mun_has(
                s.circonscriptions@[d].municipalities@,
                x,
                y,
            ),
{
    assert forall|d: int, x: int, y: int|
        #![trigger dom_has(s.circonscriptions@[d].domain@, x, y)]
        0 <= d < pb.m && dom_has(s.circonscriptions@[d].domain@, x, y) implies
        !mun_has(s.circonscriptions@[d].municipalities@, x, y) by {
        let w = choose|w: int|
            0 <= w < s.circonscriptions@[d].domain@.len() && (
            #[trigger] s.circonscriptions@[d].domain@[w]).0 == x
                && s.circonscriptions@[d].domain@[w].1 == y;
    }
}

/// In a well-formed partition any two members of one district are within
/// the compactness radius of each other.
pub proof fn lemma_pairwise_compact(s: State, pb: Problem)
    requires
        s.wf(&pb),
    ensures
        forall|d: int, k1: int, k2: int|
            0 <= d < pb.m && 0 <= k1 < (#[trigger] s.circonscriptions@[d]).municipalities@.len()
                && 0 <= k2 < s.circonscriptions@[d].municipalities@.len() ==> manhattan(
                #[trigger] s.circonscriptions@[d].municipalities@[k1].0 as int,
                s.circonscriptions@[d].municipalities@[k1].1 as int,
                #[trigger] s.circonscriptions@[d].municipalities@[k2].0 as int,
                s.circonscriptions@[d].municipalities@[k2].1 as int,
            ) <= pb.radius,
{
}

/// Removing a member by exchange with the last and appending a member with
/// the same vote count leaves the vote total and the size unchanged.
pub proof fn lemma_votes_swap_removed(
    s: Seq<(usize, usize, usize)>,
    j: int,
    v: (usize, usize, usize),
)
    requires
        0 <= j < s.len(),
        v.2 == s[j].2,
    ensures
        mun_votes(s.update(j, s.last()).drop_last().push(v)) == mun_votes(s),
        s.update(j, s.last()).drop_last().push(v).len() == s.len(),
{
    lemma_mun_votes_update(s, j, s.last());
    assert(s.update(j, s.last()).last() == s.last());
    lemma_mun_votes_push(s.update(j, s.last()).drop_last(), v);
}

/// Two district lists with pairwise equal vote totals and sizes have the
/// same score.
pub proof fn lemma_score_congruence(c1: Seq<Circonsciption>, c2: Seq<Circonsciption>)
    requires
        c1.len() == c2.len(),
        forall|d: int|
            0 <= d < c1.len() ==> mun_votes(#[trigger] c1[d].municipalities@) == mun_votes(
                c2[d].municipalities@,
            ) && c1[d].municipalities@.len() == c2[d].municipalities@.len(),
    ensures
        score_of(c1) == score_of(c2),
    decreases c1.len(),
{
    if c1.len() > 0 {
        assert forall|d: int| 0 <= d < c1.drop_last().len() implies mun_votes(
            #[trigger] c1.drop_last()[d].municipalities@,
        ) == mun_votes(c2.drop_last()[d].municipalities@) && c1.drop_last()[d].municipalities@.len()
            == c2.drop_last()[d].municipalities@.len() by {
            assert(c1.drop_last()[d] == c1[d]);
            assert(c2.drop_last()[d] == c2[d]);
            assert(mun_votes(c1[d].municipalities@) == mun_votes(c2[d].municipalities@));
        }
        lemma_score_congruence(c1.drop_last(), c2.drop_last());
        assert(c1.last() == c1[c1.len() - 1]);
        assert(c2.last() == c2[c1.len() - 1]);
    }
}

/// Swap is its own inverse: applying the swap of the same two cells twice
/// in a row restores every cell's district assignment and the partition's
/// score.
pub proof fn lemma_swap_involution(
    pb: Problem,
    s0: State,
    s1: State,
    s2: State,
    a: (usize, usize),
    b: (usize, usize),
)
    requires
        pb.wf(),
        s0.wf(&pb),
        s1.wf(&pb),
        pb.in_grid(a.0 as int, a.1 as int),
        pb.in_grid(b.0 as int, b.1 as int),
        s0.cell_id(a.0 as int, a.1 as int) != 0,
        s0.cell_id(b.0 as int, b.1 as int) != 0,
        swap_ok(s0, a, b),
        swap_step(s0, s1, a, b, pb),
        swap_step(s1, s2, a, b, pb),
    ensures
        forall|x: int, y: int|
            pb.in_grid(x, y) ==> #[trigger] s2.cell_id(x, y) == s0.cell_id(x, y),
        score_of(s2.circonscriptions@) == score_of(s0.circonscriptions@),
{
    let ax = a.0 as int;
    let ay = a.1 as int;
    let bx = b.0 as int;
    let by = b.1 as int;
    let da = s0.cell_id(ax, ay);
    let db = s0.cell_id(bx, by);
    let amun = (a.0, a.1, pb.votes@[ax]@[ay]);
    let bmun = (b.0, b.1, pb.votes@[bx]@[by]);
    let pda = s0.circonscriptions@[da - 1];
    let pdb = s0.circonscriptions@[db - 1];
    reveal(swap_step);
    // distinct districts: a cell never sits in its own district's domain
    assert(da != db) by {
        if da == db {
            assert(mun_has(pda.municipalities@, ax, ay));
            let w = choose|w: int|
                0 <= w < pdb.domain@.len() && (#[trigger] pdb.domain@[w]).0 == a.0
                    && pdb.domain@[w].1 == a.1;
            assert(!mun_has(pdb.municipalities@, ax, ay));
        }
    }
    assert(!(a.0 == b.0 && a.1 == b.1));
    assert(mun_has(pda.municipalities@, ax, ay));
    assert(mun_has(pdb.municipalities@, bx, by));
    let j = mun_index(pda.municipalities@, ax, ay);
    let k = mun_index(pdb.municipalities@, bx, by);
    assert(0 <= j < pda.municipalities@.len() && pda.municipalities@[j].0 == a.0
        && pda.municipalities@[j].1 == a.1) by {
        let w = choose|w: int|
            0 <= w < pda.municipalities@.len() && (#[trigger] pda.municipalities@[w]).0 == a.0
                && pda.municipalities@[w].1 == a.1;
        lemma_mun_index_unique(pda.municipalities@, ax, ay, w);
    }
    assert(0 <= k < pdb.municipalities@.len() && pdb.municipalities@[k].0 == b.0
        && pdb.municipalities@[k].1 == b.1) by {
        let w = choose|w: int|
            0 <= w < pdb.municipalities@.len() && (#[trigger] pdb.municipalities@[w]).0 == b.0
                && pdb.municipalities@[w].1 == b.1;
        lemma_mun_index_unique(pdb.municipalities@, bx, by, w);
    }
    let sda = s1.circonscriptions@[da - 1];
    let sdb = s1.circonscriptions@[db - 1];
    let la = pda.municipalities@.len();
    let lb = pdb.municipalities@.len();
    assert(sdb.municipalities@ == pdb.municipalities@.update(k, amun));
    assert(sda.municipalities@ == pda.municipalities@.update(
        j,
        pda.municipalities@.last(),
    ).drop_last().push(bmun));
    assert(sda.municipalities@.len() == la);
    // positions of the two cells after the first swap
    assert(s1.cell_id(ax, ay) == db && s1.cell_id(bx, by) == da);
    assert(sdb.municipalities@[k] == amun);
    assert(sda.municipalities@[la - 1] == bmun);
    // the second swap is legal, so its formulas apply with the roles of the
    // two districts exchanged
    let j2 = mun_index(sdb.municipalities@, ax, ay);
    let k2 = mun_index(sda.municipalities@, bx, by);
    assert(j2 == k) by {
        lemma_mun_index_unique(sdb.municipalities@, ax, ay, k);
    }
    assert(k2 == la - 1) by {
        lemma_mun_index_unique(sda.municipalities@, bx, by, la - 1);
    }
    let qda = s2.circonscriptions@[da - 1];
    let qdb = s2.circonscriptions@[db - 1];
    assert(qda.municipalities@ == sda.municipalities@.update(k2, amun));
    assert(qdb.municipalities@ == sdb.municipalities@.update(
        j2,
        sdb.municipalities@.last(),
    ).drop_last().push(bmun));
    // the stored member votes are the cells' vote counts
    assert(pda.municipalities@[j].2 == pb.votes@[ax]@[ay]) by {
        assert(pda.municipalities@[j].2 == pb.vote_at(pda.municipalities@[j].0 as int,
            pda.municipalities@[j].1 as int));
    }
    assert(pdb.municipalities@[k].2 == pb.votes@[bx]@[by]) by {
        assert(pdb.municipalities@[k].2 == pb.vote_at(pdb.municipalities@[k].0 as int,
            pdb.municipalities@[k].1 as int));
    }
    // vote totals and sizes of both districts are restored
    assert(mun_votes(qda.municipalities@) == mun_votes(pda.municipalities@)
        && qda.municipalities@.len() == la) by {
        let w = pda.municipalities@.update(j, pda.municipalities@.last()).drop_last();
        assert(qda.municipalities@ =~= w.push(amun));
        lemma_votes_swap_removed(pda.municipalities@, j, amun);
    }
    assert(mun_votes(qdb.municipalities@) == mun_votes(pdb.municipalities@)
        && qdb.municipalities@.len() == lb) by {
        let u = pdb.municipalities@.update(k, amun);
        lemma_mun_votes_update(pdb.municipalities@, k, amun);
        let t1 = u.update(k, u.last());
        lemma_mun_votes_update(u, k, u.last());
        assert(t1.last() == u.last());
        assert(mun_votes(t1.drop_last()) == mun_votes(t1) - t1.last().2);
        lemma_mun_votes_push(t1.drop_last(), bmun);
        assert(qdb.municipalities@ == t1.drop_last().push(bmun));
    }
    // every other district was never touched
    assert forall|d: int|
        0 <= d < s0.circonscriptions@.len() && d != da - 1 && d != db - 1 implies
        #[trigger] s2.circonscriptions@[d] == s0.circonscriptions@[d] by {
        assert(s1.circonscriptions@[d] == s0.circonscriptions@[d]);
    }
    assert(s2.circonscriptions@.len() == s0.circonscriptions@.len());
    assert forall|d: int| 0 <= d < s2.circonscriptions@.len() implies mun_votes(
        #[trigger] s2.circonscriptions@[d].municipalities@,
    ) == mun_votes(s0.circonscriptions@[d].municipalities@)
        && s2.circonscriptions@[d].municipalities@.len()
        == s0.circonscriptions@[d].municipalities@.len() by {
        if d != da - 1 && d != db - 1 {
            assert(s2.circonscriptions@[d] == s0.circonscriptions@[d]);
        }
    }
    lemma_score_congruence(s2.circonscriptions@, s0.circonscriptions@);
    assert forall|x: int, y: int| pb.in_grid(x, y) implies #[trigger] s2.cell_id(x, y)
        == s0.cell_id(x, y) by {
        if x == ax && y == ay {
        } else if x == bx && y == by {
        } else {
            assert(s1.cell_id(x, y) == s0.cell_id(x, y));
        }
    }
}

/// Size balance of one district: `n/m` or `n/m+1` members, exactly `n/m`
/// when `m` divides `n`.
pub open spec fn circ_balanced(c: Circonsciption, pb: Problem) -> bool {
    &&& (pb.n as int % pb.m as int == 0 ==> c.municipalities@.len() == pb.n as int / pb.m as int)
    &&& pb.n as int / pb.m as int <= c.municipalities@.len() <= pb.n as int / pb.m as int + 1
}

/// Size balance of every district of a partition.
pub open spec fn balanced(s: State, pb: Problem) -> bool {
    forall|d: int|
        0 <= d < s.circonscriptions@.len() ==> #[trigger] circ_balanced(s.circonscriptions@[d], pb)
}

/// Copies of the district vectors, used for speculative evaluation.
impl Circonsciption {
    /// An independent copy of the district.
    pub fn duplicate(&self) -> (r: Circonsciption)
        ensures
            r.id == self.id,
            r.domain@ == self.domain@,
            r.municipalities@ == self.municipalities@,
    {
        Circonsciption {
            id: self.id,
            domain: copy_cells(&self.domain),
            municipalities: copy_muns(&self.municipalities),
        }
    }
}

/// Copies a vector of cells.
pub fn copy_cells(v: &Vec<(usize, usize)>) -> (r: Vec<(usize, usize)>)
    ensures
        r@ == v@,
{
    let mut r: Vec<(usize, usize)> = Vec::new();
    let mut k: usize = 0;
    while k < v.len()
        invariant
            k <= v@.len(),
            r@ == v@.take(k as int),
        decreases v@.len() - k,
    {
        r.push(v[k]);
        proof {
            assert(v@.take(k as int + 1) =~= v@.take(k as int).push(v@[k as int]));
        }
        k = k + 1;
    }
    proof {
        assert(v@.take(v@.len() as int) =~= v@);
    }
    r
}

/// Copies a vector of members.
pub fn copy_muns(v: &Vec<(usize, usize, usize)>) -> (r: Vec<(usize, usize, usize)>)
    ensures
        r@ == v@,
{
    let mut r: Vec<(usize, usize, usize)> = Vec::new();
    let mut k: usize = 0;
    while k < v.len()
        invariant
            k <= v@.len(),
            r@ == v@.take(k as int),
        decreases v@.len() - k,
    {
        r.push(v[k]);
        proof {
            assert(v@.take(k as int + 1) =~= v@.take(k as int).push(v@[k as int]));
        }
        k = k + 1;
    }
    proof {
        assert(v@.take(v@.len() as int) =~= v@);
    }
    r
}

/// Copies a row of grid identifiers.
pub fn copy_row(v: &Vec<usize>) -> (r: Vec<usize>)
    ensures
        r@ == v@,
{
    let mut r: Vec<usize> = Vec::new();
    let mut k: usize = 0;
    while k < v.len()
        invariant
            k <= v@.len(),
            r@ == v@.take(k as int),
        decreases v@.len() - k,
    {
        r.push(v[k]);
        proof {
            assert(v@.take(k as int + 1) =~= v@.take(k as int).push(v@[k as int]));
        }
        k = k + 1;
    }
    proof {
        assert(v@.take(v@.len() as int) =~= v@);
    }
    r
}

/// Admission condition when recomputing a domain after the removal of the
/// member at `(rx, ry)`: the candidate `(cx, cy)` lies on the grid, within
/// the compactness radius of the removed cell, is not a remaining member,
/// and is within the radius of every remaining member. `c` is the district
/// after the removal.
pub open spec fn readmit(c: Circonsciption, rx: int, ry: int, cx: int, cy: int, pb: Problem) -> bool {
    &&& pb.in_grid(cx, cy)
    &&& manhattan(cx, cy, rx, ry) <= pb.radius
    &&& !mun_has(c.municipalities@, cx, cy)
    &&& forall|km: int|
        0 <= km < c.municipalities@.len() ==> manhattan(
            cx,
            cy,
            #[trigger] c.municipalities@[km].0 as int,
            c.municipalities@[km].1 as int,
        ) <= pb.radius
}

/// What `push` does to a district: a first member seeds it and the domain
/// becomes the ball around the seed; a later member is appended and the
/// domain is narrowed to the cells within the radius of the new member,
/// the new member itself leaving the domain.
pub open spec fn push_effect(
    pre: Circonsciption,
    post: Circonsciption,
    mun: (usize, usize, usize),
    pb: Problem,
) -> bool {
    &&& post.id == pre.id
    &&& if pre.municipalities@.len() == 0 {
        &&& post.municipalities@ == seq![mun]
        &&& forall|x: int, y: int|
            dom_has(post.domain@, x, y) <==> (pb.in_grid(x, y) && manhattan(
                x,
                y,
                mun.0 as int,
                mun.1 as int,
            ) <= pb.radius && !(x == mun.0 && y == mun.1))
    } else {
        &&& post.municipalities@ == pre.municipalities@.push(mun)
        &&& forall|x: int, y: int|
            dom_has(post.domain@, x, y) <==> (dom_has(pre.domain@, x, y) && manhattan(
                x,
                y,
                mun.0 as int,
                mun.1 as int,
            ) <= pb.radius && !(x == mun.0 && y == mun.1))
    }
}

/// What `remove_mun` does to a district: the member at `(x, y)` is removed
/// by exchange with the last member, and the domain is extended by every
/// cell within the radius of the removed member that is admissible against
/// the remaining members — the removed cell itself among them.
pub open spec fn remove_effect(
    pre: Circonsciption,
    post: Circonsciption,
    x: int,
    y: int,
    pb: Problem,
) -> bool {
    let j = choose|j: int|
        0 <= j < pre.municipalities@.len() && pre.municipalities@[j].0 == x
            && pre.municipalities@[j].1 == y;
    &&& post.id == pre.id
    &&& mun_has(pre.municipalities@, x, y)
    &&& post.municipalities@ == pre.municipalities@.update(
        j,
        pre.municipalities@.last(),
    ).drop_last()
    &&& forall|cx: int, cy: int|
        dom_has(post.domain@, cx, cy) <==> (dom_has(pre.domain@, cx, cy) || readmit(
            post,
            x,
            y,
            cx,
            cy,
            pb,
        ))
}

/// Further district operations: removal and the swap frontier.
impl Circonsciption {
    /// Removes the member at `(x, y)` (unordered removal by exchange with
    /// the last member) and extends the domain with every admissible cell
    /// within the compactness radius of the removed member, the removed
    /// cell itself becoming a frontier cell again.
    pub fn remove_mun(&mut self, x: usize, y: usize, pb: &Problem)
        requires
            pb.wf(),
            old(self).wf(pb),
            mun_has(old(self).municipalities@, x as int, y as int),
        ensures
            final(self).wf(pb),
            remove_effect(*old(self), *final(self), x as int, y as int, *pb),
            final(self).municipalities@.len() == old(self).municipalities@.len() - 1,
    {
        let ghost pre = *self;
        let found = mun_find(&self.municipalities, x, y);
        if let Some(j) = found {
            proof {
                let jc = choose|jc: int|
                    0 <= jc < pre.municipalities@.len() && pre.municipalities@[jc].0 == x
                        && pre.municipalities@[jc].1 == y;
                assert(jc == j);
                assert(pb.in_grid(pre.municipalities@[j as int].0 as int, pre.municipalities@[j
                    as int].1 as int));
            }
            self.municipalities.swap_remove(j);
            proof {
                // every remaining member is one of the old members
                assert forall|i: int| 0 <= i < self.municipalities@.len() implies exists|i0: int|
                    0 <= i0 < pre.municipalities@.len() && #[trigger] self.municipalities@[i]
                        == pre.municipalities@[i0] by {
                    if i == j {
                        assert(self.municipalities@[i] == pre.municipalities@[pre.municipalities@.len()
                            - 1]);
                    } else {
                        assert(self.municipalities@[i] == pre.municipalities@[i]);
                    }
                }
                assert(self.wf(pb)) by {
                    assert forall|k1: int, k2: int|
                        0 <= k1 < k2 < self.municipalities@.len() implies !(
                    #[trigger] self.municipalities@[k1].0 == #[trigger] self.municipalities@[k2].0
                        && self.municipalities@[k1].1 == self.municipalities@[k2].1) by {
                        let last = pre.municipalities@.len() - 1;
                        let o1: int = if k1 == j { last } else { k1 };
                        let o2: int = if k2 == j { last } else { k2 };
                        assert(self.municipalities@[k1] == pre.municipalities@[o1]);
                        assert(self.municipalities@[k2] == pre.municipalities@[o2]);
                    }
                    assert forall|kd: int| 0 <= kd < self.domain@.len() implies !mun_has(
                        self.municipalities@,
                        #[trigger] self.domain@[kd].0 as int,
                        self.domain@[kd].1 as int,
                    ) by {
                        assert_by_contradiction!(!mun_has(
                            self.municipalities@,
                            self.domain@[kd].0 as int,
                            self.domain@[kd].1 as int,
                        ), {
                            let w = choose|w: int| 0 <= w < self.municipalities@.len()
                                && #[trigger] self.municipalities@[w].0 == self.domain@[kd].0
                                && self.municipalities@[w].1 == self.domain@[kd].1;
                            let last = pre.municipalities@.len() - 1;
                            let o: int = if w == j { last } else { w };
                            assert(self.municipalities@[w] == pre.municipalities@[o]);
                            assert(mun_has(pre.municipalities@, self.domain@[kd].0 as int,
                                self.domain@[kd].1 as int));
                        });
                    }
                }
            }
            let ball = create_domain((x, y, 0), pb);
            let mut adds: Vec<(usize, usize)> = Vec::new();
            let mut k: usize = 0;
            while k < ball.len()
                invariant
                    pb.wf(),
                    self.wf(pb),
                    pb.in_grid(x as int, y as int),
                    k <= ball@.len(),
                    forall|kb: int|
                        0 <= kb < ball@.len() ==> {
                            let cx = #[trigger] ball@[kb].0 as int;
                            let cy = ball@[kb].1 as int;
                            pb.in_grid(cx, cy) && manhattan(cx, cy, x as int, y as int)
                                <= pb.radius && !(cx == x && cy == y)
                        },
                    forall|cx: int, cy: int|
                        dom_has(ball@, cx, cy) <==> (pb.in_grid(cx, cy) && manhattan(
                            cx,
                            cy,
                            x as int,
                            y as int,
                        ) <= pb.radius && !(cx == x && cy == y)),
                    forall|i: int|
                        0 <= i < adds@.len() ==> readmit(
                            *self,
                            x as int,
                            y as int,
                            #[trigger] adds@[i].0 as int,
                            adds@[i].1 as int,
                            *pb,
                        ) && !dom_has(self.domain@, adds@[i].0 as int, adds@[i].1 as int),
                    forall|i: int|
                        0 <= i < k ==> ((!dom_has(
                            self.domain@,
                            #[trigger] ball@[i].0 as int,
                            ball@[i].1 as int,
                        ) && readmit(*self, x as int, y as int, ball@[i].0 as int, ball@[i].1 as int, *pb))
                            ==> dom_has(adds@, ball@[i].0 as int, ball@[i].1 as int)),
                decreases ball@.len() - k,
            {
                let c = ball[k];
                let ghost pre_adds = adds@;
                if !dom_contains(&self.domain, c.0, c.1) && mun_find(&self.municipalities, c.0, c.1).is_none()
                    && within_all(&self.municipalities, c.0, c.1, pb.radius, pb) {
                    adds.push(c);
                }
                proof {
                    assert forall|i: int|
                        0 <= i < k + 1 && ((!dom_has(
                            self.domain@,
                            #[trigger] ball@[i].0 as int,
                            ball@[i].1 as int,
                        ) && readmit(*self, x as int, y as int, ball@[i].0 as int, ball@[i].1 as int, *pb)))
                        implies dom_has(adds@, ball@[i].0 as int, ball@[i].1 as int) by {
                        if i < k {
                            assert(dom_has(pre_adds, ball@[i].0 as int, ball@[i].1 as int));
                            let w = choose|w: int|
                                0 <= w < pre_adds.len() && pre_adds[w].0 == ball@[i].0
                                    && pre_adds[w].1 == ball@[i].1;
                            assert(adds@[w].0 == ball@[i].0 && adds@[w].1 == ball@[i].1);
                        } else {
                            assert(adds@[adds@.len() - 1] == c);
                        }
                    }
                }
                k = k + 1;
            }
            // the removed cell is admissible again: it is within radius zero
            // of itself and within the radius of every remaining member
            proof {
                assert(readmit(*self, x as int, y as int, x as int, y as int, *pb)) by {
                    assert_by_contradiction!(!mun_has(self.municipalities@, x as int, y as int), {
                        let w = choose|w: int| 0 <= w < self.municipalities@.len()
                            && #[trigger] self.municipalities@[w].0 == x
                            && self.municipalities@[w].1 == y;
                        let last = pre.municipalities@.len() - 1;
                        let jc = choose|jc: int|
                            0 <= jc < pre.municipalities@.len() && pre.municipalities@[jc].0 == x
                                && pre.municipalities@[jc].1 == y;
                        let o: int = if w == j { last } else { w };
                        assert(self.municipalities@[w] == pre.municipalities@[o]);
                    });
                    assert forall|km: int| 0 <= km < self.municipalities@.len() implies manhattan(
                        x as int,
                        y as int,
                        #[trigger] self.municipalities@[km].0 as int,
                        self.municipalities@[km].1 as int,
                    ) <= pb.radius by {
                        let last = pre.municipalities@.len() - 1;
                        let o: int = if km == j { last } else { km };
                        assert(self.municipalities@[km] == pre.municipalities@[o]);
                        let jc = choose|jc: int|
                            0 <= jc < pre.municipalities@.len() && pre.municipalities@[jc].0 == x
                                && pre.municipalities@[jc].1 == y;
                        assert(manhattan(
                            pre.municipalities@[jc].0 as int,
                            pre.municipalities@[jc].1 as int,
                            pre.municipalities@[o].0 as int,
                            pre.municipalities@[o].1 as int,
                        ) <= pb.radius);
                    }
                }
                assert(!dom_has(self.domain@, x as int, y as int)) by {
                    assert_by_contradiction!(!dom_has(self.domain@, x as int, y as int), {
                        let w = choose|w: int| 0 <= w < pre.domain@.len()
                            && #[trigger] pre.domain@[w].0 == x && pre.domain@[w].1 == y;
                        let jc = choose|jc: int|
                            0 <= jc < pre.municipalities@.len() && pre.municipalities@[jc].0 == x
                                && pre.municipalities@[jc].1 == y;
                        assert(mun_has(pre.municipalities@, pre.domain@[w].0 as int,
                            pre.domain@[w].1 as int));
                    });
                }
            }
            let ghost adds_before_center = adds@;
            adds.push((x, y));
            let ghost dom_before = self.domain@;
            let ghost adds_final = adds@;
            self.domain.append(&mut adds);
            proof {
                assert(self.domain@ == dom_before + adds_final);
                // membership in the extended domain
                assert forall|cx: int, cy: int| dom_has(self.domain@, cx, cy) implies (dom_has(
                    dom_before,
                    cx,
                    cy,
                ) || readmit(*self, x as int, y as int, cx, cy, *pb)) by {
                    let w = choose|w: int|
                        0 <= w < self.domain@.len() && self.domain@[w].0 == cx && self.domain@[w].1
                            == cy;
                    if w < dom_before.len() {
                        assert(dom_before[w].0 == cx && dom_before[w].1 == cy);
                    } else {
                        let wa = w - dom_before.len();
                        assert(adds_final[wa].0 == cx && adds_final[wa].1 == cy);
                        if wa < adds_before_center.len() {
                            assert(adds_before_center[wa].0 == cx && adds_before_center[wa].1
                                == cy);
                        } else {
                            assert(adds_final[wa] == (x, y));
                        }
                    }
                }
                assert forall|cx: int, cy: int|
                    (dom_has(dom_before, cx, cy) || readmit(*self, x as int, y as int, cx, cy, *pb))
                    implies dom_has(self.domain@, cx, cy) by {
                    if dom_has(dom_before, cx, cy) {
                        let w = choose|w: int|
                            0 <= w < dom_before.len() && dom_before[w].0 == cx && dom_before[w].1
                                == cy;
                        assert(self.domain@[w].0 == cx && self.domain@[w].1 == cy);
                    } else {
                        if cx == x && cy == y {
                            let w = dom_before.len() + adds_before_center.len();
                            assert(self.domain@[w as int] == (x, y));
                        } else {
                            assert(dom_has(ball@, cx, cy));
                            let wb = choose|wb: int|
                                0 <= wb < ball@.len() && ball@[wb].0 == cx && ball@[wb].1 == cy;
                            assert(dom_has(adds_before_center, cx, cy));
                            let wa = choose|wa: int|
                                0 <= wa < adds_before_center.len() && adds_before_center[wa].0 == cx
                                    && adds_before_center[wa].1 == cy;
                            assert(self.domain@[dom_before.len() + wa].0 == cx
                                && self.domain@[dom_before.len() + wa].1 == cy);
                        }
                    }
                }
                // well-formedness of the extended domain
                assert forall|kd: int| 0 <= kd < self.domain@.len() implies pb.in_grid(
                    #[trigger] self.domain@[kd].0 as int,
                    self.domain@[kd].1 as int,
                ) && !mun_has(
                    self.municipalities@,
                    self.domain@[kd].0 as int,
                    self.domain@[kd].1 as int,
                ) && forall|km: int|
                    0 <= km < self.municipalities@.len() ==> manhattan(
                        self.domain@[kd].0 as int,
                        self.domain@[kd].1 as int,
                        #[trigger] self.municipalities@[km].0 as int,
                        self.municipalities@[km].1 as int,
                    ) <= pb.radius by {
                    if kd < dom_before.len() {
                        assert(self.domain@[kd] == dom_before[kd]);
                    } else {
                        let wa = kd - dom_before.len();
                        assert(self.domain@[kd] == adds_final[wa]);
                        if wa < adds_before_center.len() {
                            assert(readmit(*self, x as int, y as int, adds_before_center[wa].0
                                as int, adds_before_center[wa].1 as int, *pb));
                        } else {
                            assert(adds_final[wa] == (x, y));
                            assert(readmit(*self, x as int, y as int, x as int, y as int, *pb));
                        }
                    }
                }
                assert(remove_effect(pre, *self, x as int, y as int, *pb));
            }
        } else {
            proof {
                assert(false);
            }
        }
    }

    /// The cells available as swap targets: the domain with the district's
    /// own members filtered out, in domain order. By construction the two
    /// are already disjoint, so this returns the domain's cells unless an
    /// invariant was broken.
    pub fn swap_available(&self) -> (r: Vec<(usize, usize)>)
        ensures
            r@ == available_cells_of(*self, self.domain@),
            forall|x: int, y: int|
                dom_has(r@, x, y) <==> (dom_has(self.domain@, x, y) && !mun_has(
                    self.municipalities@,
                    x,
                    y,
                )),
            forall|i: int|
                0 <= i < r@.len() ==> dom_has(self.domain@, #[trigger] r@[i].0 as int, r@[i].1 as int)
                    && !mun_has(self.municipalities@, r@[i].0 as int, r@[i].1 as int),
    {
        let mut available: Vec<(usize, usize)> = Vec::new();
        proof {
            vstd::seq_lib::lemma_seq_empty_equality::<(usize, usize)>(self.domain@.take(0));
            assert(available@ =~= available_cells_of(*self, self.domain@.take(0))) by {
                reveal(Seq::filter);
            }
        }
        let mut k: usize = 0;
        while k < self.domain.len()
            invariant
                k <= self.domain@.len(),
                available@ == available_cells_of(*self, self.domain@.take(k as int)),
                forall|i: int|
                    0 <= i < available@.len() ==> dom_has(
                        self.domain@,
                        #[trigger] available@[i].0 as int,
                        available@[i].1 as int,
                    ) && !mun_has(
                        self.municipalities@,
                        available@[i].0 as int,
                        available@[i].1 as int,
                    ),
                forall|i: int|
                    0 <= i < k ==> (!mun_has(
                        self.municipalities@,
                        #[trigger] self.domain@[i].0 as int,
                        self.domain@[i].1 as int,
                    ) ==> dom_has(available@, self.domain@[i].0 as int, self.domain@[i].1 as int)),
            decreases self.domain@.len() - k,
        {
            let c = self.domain[k];
            let ghost pre_avail = available@;
            if mun_find(&self.municipalities, c.0, c.1).is_none() {
                available.push(c);
                proof {
                    assert(dom_has(self.domain@, c.0 as int, c.1 as int));
                }
            }
            proof {
                assert(available@ == available_cells_of(*self, self.domain@.take(k as int + 1)))
                    by {
                    reveal(Seq::filter);
                    let pre = self.domain@.take(k as int);
                    let ext = self.domain@.take(k as int + 1);
                    assert(ext =~= pre.push(c));
                    assert(ext.drop_last() =~= pre);
                    assert(ext.last() == c);
                }
            }
            proof {
                assert forall|i: int|
                    0 <= i < k + 1 && !mun_has(
                        self.municipalities@,
                        #[trigger] self.domain@[i].0 as int,
                        self.domain@[i].1 as int,
                    ) implies dom_has(available@, self.domain@[i].0 as int, self.domain@[i].1
                    as int) by {
                    if i < k {
                        assert(dom_has(pre_avail, self.domain@[i].0 as int, self.domain@[i].1
                            as int));
                        let w = choose|w: int|
                            0 <= w < pre_avail.len() && pre_avail[w].0 == self.domain@[i].0
                                && pre_avail[w].1 == self.domain@[i].1;
                        assert(available@[w].0 == self.domain@[i].0 && available@[w].1
                            == self.domain@[i].1);
                    } else {
                        assert(available@[available@.len() - 1] == c);
                    }
                }
            }
            k = k + 1;
        }
        proof {
            assert(self.domain@.take(self.domain@.len() as int) =~= self.domain@);
            assert forall|x: int, y: int|
                dom_has(self.domain@, x, y) && !mun_has(self.municipalities@, x, y) implies dom_has(
                available@,
                x,
                y,
            ) by {
                let w = choose|w: int|
                    0 <= w < self.domain@.len() && self.domain@[w].0 == x && self.domain@[w].1 == y;
            }
            assert forall|x: int, y: int| dom_has(available@, x, y) implies (dom_has(
                self.domain@,
                x,
                y,
            ) && !mun_has(self.municipalities@, x, y)) by {
                let w = choose|w: int|
                    0 <= w < available@.len() && available@[w].0 == x && available@[w].1 == y;
            }
        }
        available
    }
}

/// The domain cells of `cells` that are not members of `c`, in order: the
/// swap frontier computed over a given domain sequence.
pub open spec fn available_cells_of(c: Circonsciption, cells: Seq<(usize, usize)>) -> Seq<
    (usize, usize),
> {
    cells.filter(|cell: (usize, usize)| !mun_has(c.municipalities@, cell.0 as int, cell.1 as int))
}

/// Whether a domain vector holds the cell `(x, y)`.
pub fn dom_contains(dom: &Vec<(usize, usize)>, x: usize, y: usize) -> (r: bool)
    ensures
        r == dom_has(dom@, x as int, y as int),
{
    let mut k: usize = 0;
    while k < dom.len()
        invariant
            k <= dom@.len(),
            forall|i: int| 0 <= i < k ==> !(#[trigger] dom@[i].0 == x && dom@[i].1 == y),
        decreases dom@.len() - k,
    {
        let c = dom[k];
        if c.0 == x && c.1 == y {
            return true;
        }
        k = k + 1;
    }
    false
}

/// Index of the first member at cell `(x, y)`, if any.
pub fn mun_find(muns: &Vec<(usize, usize, usize)>, x: usize, y: usize) -> (r: Option<usize>)
    ensures
        r is Some <==> mun_has(muns@, x as int, y as int),
        match r {
            Some(j) => 0 <= j < muns@.len() && muns@[j as int].0 == x && muns@[j as int].1 == y
                && forall|i: int| 0 <= i < j ==> !(#[trigger] muns@[i].0 == x && muns@[i].1 == y),
            None => true,
        },
{
    let mut k: usize = 0;
    while k < muns.len()
        invariant
            k <= muns@.len(),
            forall|i: int| 0 <= i < k ==> !(#[trigger] muns@[i].0 == x && muns@[i].1 == y),
        decreases muns@.len() - k,
    {
        let c = muns[k];
        if c.0 == x && c.1 == y {
            return Some(k);
        }
        k = k + 1;
    }
    None
}

/// Whether `(x, y)` is within `radius` of every member in `muns`.
pub fn within_all(muns: &Vec<(usize, usize, usize)>, x: usize, y: usize, radius: usize, pb:
    &Problem) -> (r: bool)
    requires
        pb.wf(),
        pb.in_grid(x as int, y as int),
        forall|k: int|
            0 <= k < muns@.len() ==> pb.in_grid(#[trigger] muns@[k].0 as int, muns@[k].1 as int),
    ensures
        r <==> forall|k: int|
            0 <= k < muns@.len() ==> manhattan(
                x as int,
                y as int,
                #[trigger] muns@[k].0 as int,
                muns@[k].1 as int,
            ) <= radius,
{
    proof {
        assert(pb.lx <= pb.n && pb.ly <= pb.n) by (nonlinear_arith)
            requires
                pb.n == pb.lx * pb.ly,
                1 <= pb.lx,
                1 <= pb.ly,
        ;
    }
    let mut k: usize = 0;
    while k < muns.len()
        invariant
            pb.wf(),
            pb.lx <= pb.n,
            pb.ly <= pb.n,
            pb.in_grid(x as int, y as int),
            k <= muns@.len(),
            forall|km: int|
                0 <= km < muns@.len() ==> pb.in_grid(
                    #[trigger] muns@[km].0 as int,
                    muns@[km].1 as int,
                ),
            forall|i: int|
                0 <= i < k ==> manhattan(
                    x as int,
                    y as int,
                    #[trigger] muns@[i].0 as int,
                    muns@[i].1 as int,
                ) <= radius,
        decreases muns@.len() - k,
    {
        let c = muns[k];
        let d = crate::util::cell_dist(x, y, c.0, c.1);
        if d > radius {
            return false;
        }
        k = k + 1;
    }
    true
}

/// Appending a member adds its votes to the total.
pub proof fn lemma_mun_votes_push(s: Seq<(usize, usize, usize)>, v: (usize, usize, usize))
    ensures
        mun_votes(s.push(v)) == mun_votes(s) + v.2,
{
    assert(s.push(v).drop_last() =~= s);
}

/// Replacing a member exchanges its votes in the total.
pub proof fn lemma_mun_votes_update(s: Seq<(usize, usize, usize)>, i: int, v: (usize, usize, usize))
    requires
        0 <= i < s.len(),
    ensures
        mun_votes(s.update(i, v)) == mun_votes(s) - s[i].2 + v.2,
    decreases s.len(),
{
    if i == s.len() - 1 {
        assert(s.update(i, v).drop_last() =~= s.drop_last());
    } else {
        assert(s.update(i, v).drop_last() =~= s.drop_last().update(i, v));
        lemma_mun_votes_update(s.drop_last(), i, v);
    }
}

/// A sequence of distinct grid cells has at most `lx * ly` entries.
pub proof fn lemma_distinct_cells_bound(s: Seq<(usize, usize, usize)>, lx: int, ly: int)
    requires
        1 <= lx,
        1 <= ly,
        forall|k: int| 0 <= k < s.len() ==> 0 <= #[trigger] s[k].0 < lx && 0 <= s[k].1 < ly,
        forall|k1: int, k2: int|
            0 <= k1 < k2 < s.len() ==> !(#[trigger] s[k1].0 == #[trigger] s[k2].0 && s[k1].1
                == s[k2].1),
    ensures
        s.len() <= lx * ly,
{
    let codes = Seq::new(s.len(), |i: int| s[i].0 * ly + s[i].1);
    assert forall|k1: int, k2: int| 0 <= k1 < k2 < codes.len() implies codes[k1] != codes[k2] by {
        assert(0 <= s[k1].0 < lx && 0 <= s[k1].1 < ly);
        assert(0 <= s[k2].0 < lx && 0 <= s[k2].1 < ly);
        assert(s[k1].0 * ly + s[k1].1 != s[k2].0 * ly + s[k2].1) by (nonlinear_arith)
            requires
                0 <= s[k1].1 < ly,
                0 <= s[k2].1 < ly,
                0 <= s[k1].0,
                0 <= s[k2].0,
                !(s[k1].0 == s[k2].0 && s[k1].1 == s[k2].1),
        ;
    }
    assert(codes.no_duplicates());
    codes.unique_seq_to_set();
    assert forall|c: int| codes.to_set().contains(c) implies vstd::set_lib::set_int_range(
        0,
        lx * ly,
    ).contains(c) by {
        let k = choose|k: int| 0 <= k < codes.len() && codes[k] == c;
        assert(0 <= s[k].0 * ly + s[k].1 < lx * ly) by (nonlinear_arith)
            requires
                0 <= s[k].0 < lx,
                0 <= s[k].1 < ly,
        ;
    }
    vstd::set_lib::lemma_int_range(0, lx * ly);
    vstd::set_lib::lemma_len_subset(
        codes.to_set(),
        vstd::set_lib::set_int_range(0, lx * ly),
    );
}

/// The ball of the compactness radius around a cell, clipped to the grid
/// bounds and excluding the cell itself: the initial domain of a district
/// seeded at that cell.
pub fn create_domain(mun: (usize, usize, usize), pb: &Problem) -> (r: Vec<(usize, usize)>)
    requires
        pb.wf(),
        pb.in_grid(mun.0 as int, mun.1 as int),
    ensures
        forall|x: int, y: int|
            dom_has(r@, x, y) <==> (pb.in_grid(x, y) && manhattan(x, y, mun.0 as int, mun.1 as int)
                <= pb.radius && !(x == mun.0 && y == mun.1)),
        forall|k: int|
            0 <= k < r@.len() ==> pb.in_grid(#[trigger] r@[k].0 as int, r@[k].1 as int),
        forall|k1: int, k2: int|
            0 <= k1 < k2 < r@.len() ==> ((#[trigger] r@[k1]).0 < (#[trigger] r@[k2]).0 || (r@[k1].0
                == r@[k2].0 && r@[k1].1 < r@[k2].1)),
        r@.no_duplicates(),
{
    let x = mun.0;
    let y = mun.1;
    let xlo = if x > pb.radius {
        x - pb.radius
    } else {
        0
    };
    let xhi = match x.checked_add(pb.radius) {
        Some(s) => if s < pb.lx {
            s
        } else {
            pb.lx - 1
        },
        None => pb.lx - 1,
    };
    let mut domain: Vec<(usize, usize)> = Vec::new();
    let mut xi = xlo;
    while xi <= xhi
        invariant
            pb.wf(),
            pb.in_grid(x as int, y as int),
            xlo <= xi <= xhi + 1,
            xhi < pb.lx,
            xlo <= x as int - pb.radius || xlo == 0,
            x as int + pb.radius <= xhi || xhi == pb.lx - 1,
            xlo > 0 ==> xlo == x as int - pb.radius,
            xhi < pb.lx - 1 ==> xhi == x as int + pb.radius,
            forall|k: int|
                0 <= k < domain@.len() ==> {
                    let cx = #[trigger] domain@[k].0 as int;
                    let cy = domain@[k].1 as int;
                    pb.in_grid(cx, cy) && manhattan(cx, cy, x as int, y as int) <= pb.radius && !(cx
                        == x && cy == y) && cx < xi
                },
            forall|k1: int, k2: int|
                0 <= k1 < k2 < domain@.len() ==> ((#[trigger] domain@[k1]).0 < (
                #[trigger] domain@[k2]).0 || (domain@[k1].0 == domain@[k2].0 && domain@[k1].1
                    < domain@[k2].1)),
            forall|cx: int, cy: int|
                pb.in_grid(cx, cy) && manhattan(cx, cy, x as int, y as int) <= pb.radius && !(cx
                    == x && cy == y) && cx < xi ==> dom_has(domain@, cx, cy),
        decreases xhi + 1 - xi,
    {
        let ylo = if y > pb.radius {
            y - pb.radius
        } else {
            0
        };
        let yhi = match y.checked_add(pb.radius) {
            Some(s) => if s < pb.ly {
                s
            } else {
                pb.ly - 1
            },
            None => pb.ly - 1,
        };
        let mut yi = ylo;
        while yi <= yhi
            invariant
                pb.wf(),
                pb.in_grid(x as int, y as int),
                xlo <= xi <= xhi,
                xhi < pb.lx,
                ylo <= yi <= yhi + 1,
                yhi < pb.ly,
                ylo <= y as int - pb.radius || ylo == 0,
                y as int + pb.radius <= yhi || yhi == pb.ly - 1,
                ylo > 0 ==> ylo == y as int - pb.radius,
                yhi < pb.ly - 1 ==> yhi == y as int + pb.radius,
                forall|k: int|
                    0 <= k < domain@.len() ==> {
                        let cx = #[trigger] domain@[k].0 as int;
                        let cy = domain@[k].1 as int;
                        pb.in_grid(cx, cy) && manhattan(cx, cy, x as int, y as int) <= pb.radius
                            && !(cx == x && cy == y) && (cx < xi || (cx == xi && cy < yi))
                    },
                forall|k1: int, k2: int|
                    0 <= k1 < k2 < domain@.len() ==> ((#[trigger] domain@[k1]).0 < (
                    #[trigger] domain@[k2]).0 || (domain@[k1].0 == domain@[k2].0 && domain@[k1].1
                        < domain@[k2].1)),
                forall|cx: int, cy: int|
                    pb.in_grid(cx, cy) && manhattan(cx, cy, x as int, y as int) <= pb.radius && !(cx
                        == x && cy == y) && (cx < xi || (cx == xi && cy < yi)) ==> dom_has(
                        domain@,
                        cx,
                        cy,
                    ),
            decreases yhi + 1 - yi,
        {
            proof {
                assert(pb.lx <= pb.n && pb.ly <= pb.n) by (nonlinear_arith)
                    requires
                        pb.n == pb.lx * pb.ly,
                        1 <= pb.lx,
                        1 <= pb.ly,
                ;
            }
            let ghost pre_dom = domain@;
            let d = crate::util::cell_dist(xi, yi, x, y);
            if d <= pb.radius && !(xi == x && yi == y) {
                domain.push((xi, yi));
            }
            proof {
                assert forall|cx: int, cy: int|
                    pb.in_grid(cx, cy) && manhattan(cx, cy, x as int, y as int) <= pb.radius && !(cx
                        == x && cy == y) && (cx < xi || (cx == xi && cy < yi + 1)) implies dom_has(
                    domain@,
                    cx,
                    cy,
                ) by {
                    if cx == xi as int && cy == yi as int {
                        assert(domain@[domain@.len() - 1].0 == cx);
                        assert(domain@[domain@.len() - 1].1 == cy);
                    } else {
                        assert(dom_has(pre_dom, cx, cy));
                        let k = choose|k: int|
                            0 <= k < pre_dom.len() && pre_dom[k].0 == cx && pre_dom[k].1 == cy;
                        assert(domain@[k].0 == cx && domain@[k].1 == cy);
                    }
                }
            }
            yi = yi + 1;
        }
        proof {
            assert forall|cx: int, cy: int|
                pb.in_grid(cx, cy) && manhattan(cx, cy, x as int, y as int) <= pb.radius && !(cx
                    == x && cy == y) && cx < xi + 1 implies dom_has(domain@, cx, cy) by {
                if cx == xi {
                    assert(cy < ylo ==> manhattan(cx, cy, x as int, y as int) > pb.radius);
                    assert(cy > yhi ==> manhattan(cx, cy, x as int, y as int) > pb.radius);
                }
            }
        }
        xi = xi + 1;
    }
    proof {
        assert forall|cx: int, cy: int|
            pb.in_grid(cx, cy) && manhattan(cx, cy, x as int, y as int) <= pb.radius && !(cx == x
                && cy == y) implies dom_has(domain@, cx, cy) by {
            assert(cx < xlo ==> manhattan(cx, cy, x as int, y as int) > pb.radius);
            assert(cx > xhi ==> manhattan(cx, cy, x as int, y as int) > pb.radius);
        }
        assert forall|x2: int, y2: int| dom_has(domain@, x2, y2) implies (pb.in_grid(x2, y2)
            && manhattan(x2, y2, x as int, y as int) <= pb.radius && !(x2 == x && y2 == y)) by {
            let k = choose|k: int|
                0 <= k < domain@.len() && domain@[k].0 == x2 && domain@[k].1 == y2;
        }
        assert(domain@.no_duplicates()) by {
            assert forall|k1: int, k2: int|
                0 <= k1 < domain@.len() && 0 <= k2 < domain@.len() && k1 != k2 implies domain@[k1]
                != domain@[k2] by {
                if k1 < k2 {
                    assert(domain@[k1].0 < domain@[k2].0 || (domain@[k1].0 == domain@[k2].0
                        && domain@[k1].1 < domain@[k2].1));
                } else {
                    assert(domain@[k2].0 < domain@[k1].0 || (domain@[k2].0 == domain@[k1].0
                        && domain@[k2].1 < domain@[k1].1));
                }
            }
        }
    }
    domain
}

} // verus!
