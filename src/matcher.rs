//! The ratio test: a query descriptor matches a search image when its nearest
//! neighbour among the image's descriptors is clearly nearer than the second.
use vstd::prelude::*;
use crate::descriptor::{Descriptor, sq_dist, MAX_SQ_DIST};

verus! {

/// The ratio-test threshold `num / den`. Configurations admit only ratios
/// in `(0, 1]`; see [`RatioTest::new`].
#[derive(Clone, Copy, Debug)]
pub struct RatioTest {
    pub num: u32,
    pub den: u32,
}

/// A ratio that a configuration may hold: `0 < num / den <= 1`.
pub open spec fn valid_ratio(num: u32, den: u32) -> bool {
    0 < num <= den
}

/// The ratio test on squared distances: the nearest candidate is accepted when
/// `nearest < ratio * second`.
pub open spec fn ratio_accepts(r: RatioTest, nearest: int, second: int) -> bool {
    nearest * r.den < r.num * second
}

impl RatioTest {
    /// Builds the threshold `num / den`; `None` unless it lies in `(0, 1]`.
    pub fn new(num: u32, den: u32) -> (r: Option<RatioTest>)
        ensures
            r is Some <==> valid_ratio(num, den),
            r matches Some(t) ==> t.num == num && t.den == den,
    {
        if 0 < num && num <= den {
            Some(RatioTest { num, den })
        } else {
            None
        }
    }

    /// Whether `nearest < (num / den) * second`, decided exactly.
    pub fn accepts(&self, nearest: u32, second: u32) -> (b: bool)
        requires
            nearest <= MAX_SQ_DIST,
            second <= MAX_SQ_DIST,
        ensures
            b == ratio_accepts(*self, nearest as int, second as int),
    {
        proof {
            assert(nearest * self.den <= 4161600 * 4294967295) by (nonlinear_arith)
                requires
                    nearest <= 4161600,
                    self.den <= 4294967295,
            ;
            assert(self.num * second <= 4294967295 * 4161600) by (nonlinear_arith)
                requires
                    second <= 4161600,
                    self.num <= 4294967295,
            ;
        }
        let lhs: u64 = nearest as u64 * self.den as u64;
        let rhs: u64 = self.num as u64 * second as u64;
        lhs < rhs
    }
}

/// Positions `i` and `j` of `pts` hold the nearest and second nearest points
/// to `q`, at squared distances `d0` and `d1`: nothing is nearer than `d0`,
/// and nothing but position `i` is nearer than `d1`.
pub open spec fn nearest_at(
    q: Descriptor,
    pts: Seq<Descriptor>,
    i: int,
    j: int,
    d0: int,
    d1: int,
) -> bool {
    &&& 0 <= i < pts.len()
    &&& 0 <= j < pts.len()
    &&& i != j
    &&& sq_dist(q, pts[i]) == d0
    &&& sq_dist(q, pts[j]) == d1
    &&& forall|k: int| 0 <= k < pts.len() ==> d0 <= sq_dist(q, #[trigger] pts[k])
    &&& forall|k: int| 0 <= k < pts.len() && k != i ==> d1 <= sq_dist(q, #[trigger] pts[k])
}

/// `d0` and `d1` are the squared distances from `q` to its nearest and second
/// nearest points of `pts`.
pub open spec fn two_nearest(q: Descriptor, pts: Seq<Descriptor>, d0: int, d1: int) -> bool {
    exists|i: int, j: int| #[trigger] nearest_at(q, pts, i, j, d0, d1)
}

/// Query descriptor `q` finds a match among `pts`: there are at least two
/// candidates and the nearest passes the ratio test against the second.
pub open spec fn is_match(r: RatioTest, q: Descriptor, pts: Seq<Descriptor>) -> bool {
    pts.len() >= 2 && exists|d0: int, d1: int|
        #![trigger two_nearest(q, pts, d0, d1)]
        two_nearest(q, pts, d0, d1) && ratio_accepts(r, d0, d1)
}

/// Number of query descriptors that find a match among the search descriptors.
pub open spec fn num_matches(r: RatioTest, query: Seq<Descriptor>, search: Seq<Descriptor>) -> nat
    decreases query.len(),
{
    if query.len() == 0 {
        0
    } else {
        num_matches(r, query.drop_last(), search) + if is_match(r, query.last(), search) {
            1nat
        } else {
            0nat
        }
    }
}

/// The nearest and second nearest distances are unique.
proof fn lemma_two_nearest_unique(
    q: Descriptor,
    pts: Seq<Descriptor>,
    d0: int,
    d1: int,
    e0: int,
    e1: int,
)
    requires
        two_nearest(q, pts, d0, d1),
        two_nearest(q, pts, e0, e1),
    ensures
        d0 == e0 && d1 == e1,
{
    let (i, j) = choose|i: int, j: int| #[trigger] nearest_at(q, pts, i, j, d0, d1);
    let (a, b) = choose|a: int, b: int| #[trigger] nearest_at(q, pts, a, b, e0, e1);
    assert(d0 <= sq_dist(q, pts[a]));
    assert(e0 <= sq_dist(q, pts[i]));
    if b != i {
        assert(d1 <= sq_dist(q, pts[b]));
    } else {
        assert(d1 <= sq_dist(q, pts[a]));
    }
    if j != a {
        assert(e1 <= sq_dist(q, pts[j]));
    } else {
        assert(e1 <= sq_dist(q, pts[i]));
    }
}

/// An exact nearest-neighbour index over the descriptors of one search image,
/// built afresh for each image.
pub struct NeighborIndex {
    points: Vec<Descriptor>,
}

impl View for NeighborIndex {
    type V = Seq<Descriptor>;

    closed spec fn view(&self) -> Seq<Descriptor> {
        self.points@
    }
}

impl NeighborIndex {
    /// Indexes a copy of `points`.
    pub fn build(points: &Vec<Descriptor>) -> (idx: NeighborIndex)
        ensures
            idx@ == points@,
    {
        let mut copy: Vec<Descriptor> = Vec::with_capacity(points.len());
        let mut i: usize = 0;
        while i < points.len()
            invariant
                i <= points@.len(),
                copy@ == points@.subrange(0, i as int),
            decreases points@.len() - i,
        {
            copy.push(points[i]);
            i = i + 1;
        }
        assert(copy@ =~= points@);
        NeighborIndex { points: copy }
    }

    /// Number of indexed points.
    pub fn len(&self) -> (n: usize)
        ensures
            n == self@.len(),
    {
        self.points.len()
    }

    /// The squared distances from `q` to its nearest and second nearest indexed
    /// points; `None` when fewer than two points are indexed.
    pub fn nearest_two(&self, q: &Descriptor) -> (r: Option<(u32, u32)>)
        ensures
            r is None <==> self@.len() < 2,
            r matches Some(p) ==> two_nearest(*q, self@, p.0 as int, p.1 as int),
            r matches Some(p) ==> p.0 <= MAX_SQ_DIST && p.1 <= MAX_SQ_DIST,
    {
        let pts = &self.points;
        if pts.len() < 2 {
            return None;
        }
        let da = q.sq_distance(&pts[0]);
        let db = q.sq_distance(&pts[1]);
        let (mut bi, mut bd, mut si, mut sd): (usize, u32, usize, u32) = if da <= db {
            (0, da, 1, db)
        } else {
            (1, db, 0, da)
        };
        let mut k: usize = 2;
        while k < pts.len()
            invariant
                2 <= k <= pts@.len(),
                pts@ == self@,
                bi < k && si < k && bi != si,
                bd == sq_dist(*q, pts@[bi as int]),
                sd == sq_dist(*q, pts@[si as int]),
                bd <= sd <= MAX_SQ_DIST,
                forall|m: int| 0 <= m < k ==> bd <= sq_dist(*q, #[trigger] pts@[m]),
                forall|m: int| 0 <= m < k && m != bi ==> sd <= sq_dist(*q, #[trigger] pts@[m]),
            decreases pts@.len() - k,
        {
            let d = q.sq_distance(&pts[k]);
            if d < bd {
                si = bi;
                sd = bd;
                bi = k;
                bd = d;
            } else if d < sd {
                si = k;
                sd = d;
            }
            k = k + 1;
        }
        assert(nearest_at(*q, self@, bi as int, si as int, bd as int, sd as int));
        Some((bd, sd))
    }
}

/// Whether query descriptor `q` finds a match in the index.
pub fn matches_in(ratio: RatioTest, q: &Descriptor, index: &NeighborIndex) -> (b: bool)
    ensures
        b == is_match(ratio, *q, index@),
{
    match index.nearest_two(q) {
        None => false,
        Some((d0, d1)) => {
            let b = ratio.accepts(d0, d1);
            proof {
                if !b {
                    assert forall|e0: int, e1: int| #[trigger]
                        two_nearest(*q, index@, e0, e1) implies !ratio_accepts(ratio, e0, e1) by {
                        lemma_two_nearest_unique(*q, index@, d0 as int, d1 as int, e0, e1);
                    }
                } else {
                    assert(two_nearest(*q, index@, d0 as int, d1 as int));
                }
            }
            b
        },
    }
}

/// Counts the query descriptors that pass the ratio test against the search
/// image's descriptors.
pub fn get_num_matches(ratio: RatioTest, query: &Vec<Descriptor>, search: &Vec<Descriptor>) -> (n:
    u32)
    requires
        query@.len() <= u32::MAX,
    ensures
        n == num_matches(ratio, query@, search@),
{
    let index = NeighborIndex::build(search);
    let mut count: u32 = 0;
    let mut i: usize = 0;
    while i < query.len()
        invariant
            i <= query@.len() <= u32::MAX,
            index@ == search@,
            count == num_matches(ratio, query@.subrange(0, i as int), search@),
            count <= i,
        decreases query@.len() - i,
    {
        let m = matches_in(ratio, &query[i], &index);
        proof {
            let next = query@.subrange(0, i + 1);
            assert(next.drop_last() =~= query@.subrange(0, i as int));
            assert(next.last() == query@[i as int]);
        }
        if m {
            count = count + 1;
        }
        i = i + 1;
    }
    assert(query@.subrange(0, query@.len() as int) =~= query@);
    count
}

/// A query descriptor matches at most once: the count never exceeds the
/// number of query descriptors.
pub proof fn lemma_num_matches_bounded(r: RatioTest, query: Seq<Descriptor>, search: Seq<Descriptor>)
    ensures
        num_matches(r, query, search) <= query.len(),
    decreases query.len(),
{
    if query.len() > 0 {
        lemma_num_matches_bounded(r, query.drop_last(), search);
    }
}

/// A search image with fewer than two descriptors gives no match to any query.
pub proof fn lemma_too_few_candidates(r: RatioTest, query: Seq<Descriptor>, search: Seq<Descriptor>)
    requires
        search.len() < 2,
    ensures
        num_matches(r, query, search) == 0,
    decreases query.len(),
{
    if query.len() > 0 {
        lemma_too_few_candidates(r, query.drop_last(), search);
    }
}

} // verus!
