//! Selection of the results whose match count is a statistical outlier.
use vstd::prelude::*;
use vstd::multiset::Multiset;
use vstd::seq_lib::{to_multiset_insert, to_multiset_len};
use vstd::multiset::lemma_multiset_empty_len;
use crate::dispatch::{ImgInfo, info_views};

verus! {

/// Largest match count the selector takes: counts are bounded by the number of
/// query descriptors, and this bound keeps the exact arithmetic within 128 bits.
pub const MAX_MATCH_COUNT: u32 = 1048576;

/// Largest number of results the selector takes, for the same reason.
pub const MAX_RESULTS: usize = 16777216;

/// The z-score threshold `num / den`.
#[derive(Clone, Copy, Debug)]
pub struct ZThreshold {
    pub num: i16,
    pub den: u16,
}

impl ZThreshold {
    /// The threshold `num / den`; `None` when `den` is zero.
    pub fn new(num: i16, den: u16) -> (r: Option<ZThreshold>)
        ensures
            r is Some <==> den > 0,
            r matches Some(t) ==> t.num == num && t.den == den,
    {
        if den > 0 {
            Some(ZThreshold { num, den })
        } else {
            None
        }
    }
}

/// The match count of each result.
pub open spec fn counts_of(infos: Seq<ImgInfo>) -> Seq<u32> {
    infos.map_values(|i: ImgInfo| i.num_matches)
}

/// Sum of the counts.
pub open spec fn count_sum(s: Seq<u32>) -> int
    decreases s.len(),
{
    if s.len() == 0 {
        0
    } else {
        count_sum(s.drop_last()) + s.last()
    }
}

/// Sum of the squared counts.
pub open spec fn square_sum(s: Seq<u32>) -> int
    decreases s.len(),
{
    if s.len() == 0 {
        0
    } else {
        square_sum(s.drop_last()) + s.last() * s.last()
    }
}

/// `N * sum(n^2) - sum(n)^2`, which is `N^2 (N - 1)` times the sample
/// variance of the `N` counts.
pub open spec fn spread(s: Seq<u32>) -> int {
    s.len() * square_sum(s) - count_sum(s) * count_sum(s)
}

/// `N * n - sum(n)`, which is `N` times the deviation of `n` from the mean.
pub open spec fn deviation(n: u32, s: Seq<u32>) -> int {
    s.len() * n - count_sum(s)
}

/// The z-score of `n` among `counts`, `(n - mean) / stddev` with the sample
/// standard deviation, exceeds `t`. Written without square roots: with
/// `d = deviation` and `v = spread`, `z = d / sqrt(N * v / (N - 1))`, so for
/// `t >= 0` the test is `d > 0` and `den^2 d^2 (N - 1) > num^2 N v`, and for
/// `t < 0` it is `d >= 0` or `den^2 d^2 (N - 1) < num^2 N v`. A zero standard
/// deviation, or fewer than two counts, selects nothing.
pub open spec fn is_outlier(n: u32, counts: Seq<u32>, t: ZThreshold) -> bool {
    let len = counts.len() as int;
    let d = deviation(n, counts);
    let v = spread(counts);
    let lhs = (t.den * t.den) * (d * d) * (len - 1);
    let rhs = (t.num * t.num) * len * v;
    &&& len >= 2
    &&& v > 0
    &&& if t.num >= 0 {
        d > 0 && lhs > rhs
    } else {
        d >= 0 || lhs < rhs
    }
}

/// The multiset of results whose z-score exceeds `t`.
pub open spec fn outliers(infos: Seq<ImgInfo>, counts: Seq<u32>, t: ZThreshold) -> Multiset<
    (Seq<char>, u32),
>
    decreases infos.len(),
{
    if infos.len() == 0 {
        Multiset::empty()
    } else {
        let rest = outliers(infos.drop_last(), counts, t);
        if is_outlier(infos.last().num_matches, counts, t) {
            rest.insert(infos.last()@)
        } else {
            rest
        }
    }
}

/// Counts in descending order.
pub open spec fn descending(infos: Seq<ImgInfo>) -> bool {
    forall|i: int, j: int|
        #![trigger infos[i], infos[j]]
        0 <= i < j < infos.len() ==> infos[i].num_matches >= infos[j].num_matches
}

proof fn lemma_gt_div(z: int, p: int, d: int)
    requires
        d >= 1,
        p >= 0,
    ensures
        (z * d > p) == (z > p / d),
{
    let q = p / d;
    let r = p % d;
    vstd::arithmetic::div_mod::lemma_fundamental_div_mod(p, d);
    assert(0 <= r < d);
    if z > q {
        assert(z * d >= q * d + d) by (nonlinear_arith)
            requires
                z >= q + 1,
                d >= 1,
        ;
    } else {
        assert(z * d <= q * d) by (nonlinear_arith)
            requires
                z <= q,
                d >= 1,
        ;
    }
}

proof fn lemma_lt_div(z: int, p: int, d: int)
    requires
        d >= 1,
        p >= 1,
    ensures
        (z * d < p) == (z <= (p - 1) / d),
{
    let q = (p - 1) / d;
    let r = (p - 1) % d;
    vstd::arithmetic::div_mod::lemma_fundamental_div_mod(p - 1, d);
    assert(0 <= r < d);
    if z <= q {
        assert(z * d <= q * d) by (nonlinear_arith)
            requires
                z <= q,
                d >= 1,
        ;
    } else {
        assert(z * d >= q * d + d) by (nonlinear_arith)
            requires
                z >= q + 1,
                d >= 1,
        ;
    }
}

/// Every count is at most `MAX_MATCH_COUNT`.
pub open spec fn counts_bounded(s: Seq<u32>) -> bool {
    forall|i: int| 0 <= i < s.len() ==> #[trigger] s[i] <= MAX_MATCH_COUNT
}

/// The sum of the counts and the sum of their squares.
fn sums(infos: &Vec<ImgInfo>) -> (r: (u64, u128))
    requires
        infos@.len() <= MAX_RESULTS,
        counts_bounded(counts_of(infos@)),
    ensures
        r.0 == count_sum(counts_of(infos@)),
        r.1 == square_sum(counts_of(infos@)),
        r.0 <= infos@.len() * MAX_MATCH_COUNT,
        r.1 <= infos@.len() * 1099511627776,
{
    let ghost cs = counts_of(infos@);
    let mut s: u64 = 0;
    let mut q: u128 = 0;
    let mut i: usize = 0;
    while i < infos.len()
        invariant
            cs == counts_of(infos@),
            infos@.len() <= MAX_RESULTS,
            counts_bounded(cs),
            i <= infos@.len(),
            s == count_sum(cs.subrange(0, i as int)),
            q == square_sum(cs.subrange(0, i as int)),
            s <= i * MAX_MATCH_COUNT,
            q <= i * 1099511627776,
        decreases infos@.len() - i,
    {
        let n = infos[i].num_matches;
        proof {
            assert(cs[i as int] == n);
            assert(n * n <= 1099511627776) by (nonlinear_arith)
                requires
                    n <= 1048576,
            ;
            let next = cs.subrange(0, i + 1);
            assert(next.drop_last() =~= cs.subrange(0, i as int));
        }
        s = s + n as u64;
        q = q + (n as u128) * (n as u128);
        i = i + 1;
    }
    assert(cs.subrange(0, infos@.len() as int) =~= cs);
    (s, q)
}

/// Whether a count of `n` is selected, given the number of counts, their sum
/// and their spread, decided exactly in 128-bit arithmetic.
fn exceeds(n: u32, len: usize, sum: u64, spread_v: i128, t: ZThreshold) -> (b: bool)
    requires
        2 <= len <= MAX_RESULTS,
        n <= MAX_MATCH_COUNT,
        sum <= len * MAX_MATCH_COUNT,
        0 < spread_v <= len * (len * 1099511627776),
        t.den > 0,
    ensures
        b == ({
            let d = len * n - sum;
            let lhs = (t.den * t.den) * (d * d) * (len - 1);
            let rhs = (t.num * t.num) * len * spread_v;
            if t.num >= 0 {
                d > 0 && lhs > rhs
            } else {
                d >= 0 || lhs < rhs
            }
        }),
{
    let ghost li = len as int;
    proof {
        assert(len * n <= MAX_RESULTS * MAX_MATCH_COUNT) by (nonlinear_arith)
            requires
                len <= MAX_RESULTS,
                n <= MAX_MATCH_COUNT,
        ;
    }
    let d: i128 = (len as i128) * (n as i128) - (sum as i128);
    let ghost di = d as int;
    let den: i128 = t.den as i128;
    let num: i128 = t.num as i128;
    proof {
        assert(-17592186044416 <= di <= 17592186044416);
        assert(di * di <= 17592186044416 * 17592186044416) by (nonlinear_arith)
            requires
                -17592186044416 <= di <= 17592186044416,
        ;
        assert(0 <= di * di) by (nonlinear_arith);
        assert(den * den <= 65535 * 65535) by (nonlinear_arith)
            requires
                0 < den <= 65535,
        ;
        assert((den * den) * (di * di) <= (65535 * 65535) * (17592186044416 * 17592186044416))
            by (nonlinear_arith)
            requires
                0 <= den * den <= 65535 * 65535,
                0 <= di * di <= 17592186044416 * 17592186044416,
        ;
        assert(num * num <= 1073741824) by (nonlinear_arith)
            requires
                -32768 <= num <= 32767,
        ;
        assert(0 <= num * num) by (nonlinear_arith);
        assert(spread_v <= 309485009821345068724781056) by (nonlinear_arith)
            requires
                0 < spread_v <= len * (len * 1099511627776),
                len <= 16777216,
        ;
        assert((num * num) * spread_v <= 332306998946228968225951765070086144)
            by (nonlinear_arith)
            requires
                0 <= num * num <= 1073741824,
                0 < spread_v <= 309485009821345068724781056,
        ;
    }
    assert(0 <= (num * num) * spread_v) by (nonlinear_arith)
        requires
            0 <= num * num,
            0 < spread_v,
    ;
    assert(0 <= (den * den) * (di * di)) by (nonlinear_arith)
        requires
            0 <= den * den,
            0 <= di * di,
    ;
    let y: i128 = (den * den) * (d * d);
    let p: i128 = (num * num) * spread_v;
    let z: i128 = y - p;
    let m: i128 = (len - 1) as i128;
    proof {
        // lhs > rhs  <==>  (y - p) * (len - 1) > p, and lhs < rhs likewise
        assert(y * (li - 1) - p * li == z * m - p) by (nonlinear_arith)
            requires
                z == y - p,
                m == li - 1,
        ;
        assert((t.den * t.den) * (di * di) * (li - 1) == y * (li - 1)) by (nonlinear_arith)
            requires
                y == (den * den) * (di * di),
                den == t.den,
        ;
        assert((t.num * t.num) * li * spread_v == p * li) by (nonlinear_arith)
            requires
                p == (num * num) * spread_v,
                num == t.num,
        ;
    }
    if num >= 0 {
        proof {
            lemma_gt_div(z as int, p as int, m as int);
        }
        d > 0 && z > p / m
    } else {
        proof {
            assert(p >= 1) by (nonlinear_arith)
                requires
                    p == (num * num) * spread_v,
                    num < 0,
                    spread_v > 0,
            ;
            lemma_lt_div(z as int, p as int, m as int);
        }
        d >= 0 || z <= (p - 1) / m
    }
}

proof fn lemma_no_outliers(infos: Seq<ImgInfo>, counts: Seq<u32>, t: ZThreshold)
    requires
        counts.len() < 2 || spread(counts) <= 0,
    ensures
        outliers(infos, counts, t) == Multiset::<(Seq<char>, u32)>::empty(),
    decreases infos.len(),
{
    if infos.len() > 0 {
        lemma_no_outliers(infos.drop_last(), counts, t);
    }
}

/// Inserts `x` behind every element with a count at least its own.
fn insert_descending(out: &mut Vec<ImgInfo>, x: ImgInfo)
    requires
        descending(old(out)@),
    ensures
        descending(final(out)@),
        info_views(final(out)@).to_multiset() == info_views(old(out)@).to_multiset().insert(x@),
{
    let mut p: usize = 0;
    while p < out.len() && out[p].num_matches >= x.num_matches
        invariant
            p <= out@.len(),
            forall|k: int| 0 <= k < p ==> #[trigger] out@[k].num_matches >= x.num_matches,
        decreases out@.len() - p,
    {
        p = p + 1;
    }
    let ghost before = out@;
    let ghost xv = x@;
    out.insert(p, x);
    proof {
        assert(info_views(out@) =~= info_views(before).insert(p as int, xv));
        to_multiset_insert(info_views(before), p as int, xv);
        assert forall|i: int, j: int|
            #![trigger out@[i], out@[j]]
            0 <= i < j < out@.len() implies out@[i].num_matches >= out@[j].num_matches by {
            if j < p {
                assert(out@[i] == before[i] && out@[j] == before[j]);
            } else if j == p {
                assert(out@[i] == before[i]);
            } else if i < p {
                assert(out@[i] == before[i] && out@[j] == before[j - 1]);
                assert(before[p as int].num_matches < out@[p as int].num_matches);
            } else if i == p {
                assert(out@[j] == before[j - 1]);
                assert(before[p as int].num_matches < out@[p as int].num_matches);
                if j - 1 > p {
                    assert(before[p as int].num_matches >= before[j - 1].num_matches);
                }
            } else {
                assert(out@[i] == before[i - 1] && out@[j] == before[j - 1]);
            }
        }
    }
}

/// The results whose match count is a statistical outlier: their z-score,
/// taken with the mean and sample standard deviation of all the counts,
/// exceeds `t`. They come in descending order of count; with a zero
/// standard deviation, or fewer than two results, none is selected.
pub fn select_outliers(results: &Vec<ImgInfo>, t: ZThreshold) -> (r: Vec<ImgInfo>)
    requires
        results@.len() <= MAX_RESULTS,
        counts_bounded(counts_of(results@)),
        t.den > 0,
    ensures
        descending(r@),
        info_views(r@).to_multiset() == outliers(results@, counts_of(results@), t),
{
    let ghost cs = counts_of(results@);
    let mut out: Vec<ImgInfo> = Vec::new();
    let n = results.len();
    let (sum, sq) = sums(results);
    proof {
        assert(n * sq <= 309485009821345068724781056) by (nonlinear_arith)
            requires
                n <= 16777216,
                sq <= n * 1099511627776,
        ;
        assert(sum * sum <= 309485009821345068724781056) by (nonlinear_arith)
            requires
                n <= 16777216,
                sum <= n * 1048576,
        ;
        assert(0 <= sum * sum) by (nonlinear_arith);
        assert(0 <= n * sq) by (nonlinear_arith);
    }
    let spread_v: i128 = (n as i128) * (sq as i128) - (sum as i128) * (sum as i128);
    if n < 2 || spread_v <= 0 {
        proof {
            lemma_no_outliers(results@, cs, t);
            to_multiset_len(info_views(out@));
            lemma_multiset_empty_len(info_views(out@).to_multiset());
        }
        return out;
    }
    proof {
        assert(spread_v <= n * (n * 1099511627776)) by (nonlinear_arith)
            requires
                spread_v <= n * sq,
                sq <= n * 1099511627776,
                n >= 0,
        ;
        to_multiset_len(info_views(out@));
        lemma_multiset_empty_len(info_views(out@).to_multiset());
        assert(results@.subrange(0, 0) =~= Seq::<ImgInfo>::empty());
    }
    let mut i: usize = 0;
    while i < n
        invariant
            n == results@.len() == cs.len(),
            2 <= n <= MAX_RESULTS,
            cs == counts_of(results@),
            counts_bounded(cs),
            sum == count_sum(cs),
            sum <= n * MAX_MATCH_COUNT,
            spread_v == spread(cs),
            0 < spread_v <= n * (n * 1099511627776),
            t.den > 0,
            i <= n,
            descending(out@),
            info_views(out@).to_multiset() == outliers(results@.subrange(0, i as int), cs, t),
        decreases n - i,
    {
        let r = &results[i];
        proof {
            assert(cs[i as int] == r.num_matches);
            let next = results@.subrange(0, i + 1);
            assert(next.drop_last() =~= results@.subrange(0, i as int));
            assert(next.last() == results@[i as int]);
        }
        if exceeds(r.num_matches, n, sum, spread_v, t) {
            let copy = ImgInfo { path: r.path.clone(), num_matches: r.num_matches };
            insert_descending(&mut out, copy);
        }
        i = i + 1;
    }
    assert(results@.subrange(0, n as int) =~= results@);
    out
}

proof fn lemma_constant_sums(s: Seq<u32>, v: u32)
    requires
        forall|i: int| 0 <= i < s.len() ==> #[trigger] s[i] == v,
    ensures
        count_sum(s) == s.len() * v,
        square_sum(s) == s.len() * (v * v),
    decreases s.len(),
{
    if s.len() > 0 {
        let r = s.drop_last();
        assert forall|i: int| 0 <= i < r.len() implies #[trigger] r[i] == v by {
            assert(r[i] == s[i]);
        }
        lemma_constant_sums(r, v);
        assert(s.last() == v);
        assert(count_sum(s) == r.len() * v + v);
        assert(r.len() * v + v == s.len() * v) by (nonlinear_arith)
            requires
                s.len() == r.len() + 1,
        ;
        assert(r.len() * (v * v) + v * v == s.len() * (v * v)) by (nonlinear_arith)
            requires
                s.len() == r.len() + 1,
        ;
    } else {
        assert(s.len() * v == 0 && s.len() * (v * v) == 0) by (nonlinear_arith)
            requires
                s.len() == 0,
        ;
    }
}

/// When all results have the same count the standard deviation is zero, and
/// no result is selected.
pub proof fn lemma_equal_counts_select_nothing(infos: Seq<ImgInfo>, t: ZThreshold)
    requires
        forall|i: int, j: int|
            #![trigger infos[i], infos[j]]
            0 <= i < infos.len() && 0 <= j < infos.len() ==> infos[i].num_matches
                == infos[j].num_matches,
    ensures
        outliers(infos, counts_of(infos), t) == Multiset::<(Seq<char>, u32)>::empty(),
{
    let c = counts_of(infos);
    if infos.len() > 0 {
        let v = infos[0].num_matches;
        assert forall|i: int| 0 <= i < c.len() implies #[trigger] c[i] == v by {
            assert(c[i] == infos[i].num_matches);
            assert(infos[i].num_matches == infos[0].num_matches);
        }
        lemma_constant_sums(c, v);
        let n = c.len() as int;
        assert(n * (n * (v * v)) - (n * v) * (n * v) == 0) by (nonlinear_arith);
        assert(spread(c) == 0);
    }
    lemma_no_outliers(infos, c, t);
}

} // verus!
