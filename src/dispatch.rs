//! Worker count, round-robin partition of the search paths, and the results
//! each worker gathers.
use vstd::prelude::*;
use crate::cache::{ExtractionError, Features};
use crate::descriptor::Descriptor;
use crate::matcher::{RatioTest, get_num_matches, num_matches};

verus! {

/// The similarity of one search image to the query image.
pub struct ImgInfo {
    pub path: String,
    pub num_matches: u32,
}

impl View for ImgInfo {
    type V = (Seq<char>, u32);

    open spec fn view(&self) -> (Seq<char>, u32) {
        (self.path@, self.num_matches)
    }
}

/// The characters of each path.
pub open spec fn path_views(paths: Seq<String>) -> Seq<Seq<char>> {
    paths.map_values(|s: String| s@)
}

/// The mathematical value of each result.
pub open spec fn info_views(infos: Seq<ImgInfo>) -> Seq<(Seq<char>, u32)> {
    infos.map_values(|i: ImgInfo| i@)
}

/// Relies on `num_cpus::get`: the number of CPUs available to this process,
/// which it documents to be at least one.
#[verifier::external_body]
fn available_cpus() -> (n: usize)
    ensures
        n >= 1,
{
    num_cpus::get()
}

/// The number of workers for a configured count: zero stands for the
/// available hardware concurrency `available`.
pub fn resolve_num_workers(configured: u32, available: usize) -> (n: usize)
    ensures
        configured == 0 ==> n == available,
        configured != 0 ==> n == configured,
{
    if configured == 0 {
        available
    } else {
        configured as usize
    }
}

/// The number of workers for a configured count, zero meaning one worker per
/// available CPU.
pub fn num_workers(configured: u32) -> (n: usize)
    ensures
        n >= 1,
        configured != 0 ==> n == configured,
{
    let available = available_cpus();
    resolve_num_workers(configured, available)
}

/// Slot `j` of chunk `k` holds the path at position `k + j * workers`.
pub open spec fn slot_holds(
    paths: Seq<Seq<char>>,
    workers: nat,
    chunk: Seq<Seq<char>>,
    k: int,
    j: int,
) -> bool {
    k + j * workers < paths.len() && chunk[j] == paths[k + j * workers]
}

/// Position `i` of `paths` stands in chunk `i % workers`, at slot `i / workers`.
pub open spec fn placed_at(
    paths: Seq<Seq<char>>,
    workers: nat,
    chunks: Seq<Seq<Seq<char>>>,
    i: int,
) -> bool {
    let k = i % (workers as int);
    let j = i / (workers as int);
    k < chunks.len() && j < chunks[k].len() && chunks[k][j] == paths[i]
}

/// `chunks` deals `paths` out round robin over `workers` chunks: position `i`
/// goes to chunk `i % workers`, behind the positions before it; there are as
/// many chunks as workers, or as paths where these are fewer.
pub open spec fn is_round_robin(
    paths: Seq<Seq<char>>,
    workers: nat,
    chunks: Seq<Seq<Seq<char>>>,
) -> bool {
    &&& workers >= 1
    &&& chunks.len() == if paths.len() < workers {
        paths.len()
    } else {
        workers
    }
    &&& forall|k: int, j: int|
        0 <= k < chunks.len() && 0 <= j < chunks[k].len() ==> #[trigger] slot_holds(
            paths,
            workers,
            chunks[k],
            k,
            j,
        )
    &&& forall|i: int| 0 <= i < paths.len() ==> #[trigger] placed_at(paths, workers, chunks, i)
}

/// The paths at positions `k`, `k + workers`, `k + 2 * workers`, ...
fn collect_chunk(paths: &Vec<String>, k: usize, workers: usize) -> (c: Vec<String>)
    requires
        workers >= 1,
        k < paths@.len(),
    ensures
        forall|j: int|
            0 <= j < c@.len() ==> #[trigger] slot_holds(
                path_views(paths@),
                workers as nat,
                path_views(c@),
                k as int,
                j,
            ),
        c@.len() * workers + k >= paths@.len(),
        c@.len() >= 1,
{
    let ghost pv = path_views(paths@);
    let n = paths.len();
    let mut c: Vec<String> = Vec::new();
    let mut pos: usize = k;
    assert(k + c@.len() * workers == k) by (nonlinear_arith)
        requires
            c@.len() == 0,
    ;
    while pos < n
        invariant
            n == paths@.len(),
            pv == path_views(paths@),
            workers >= 1,
            k < n,
            k <= pos <= n,
            pos < n ==> pos == k + c@.len() * workers,
            pos == n ==> k + c@.len() * workers >= n && c@.len() >= 1,
            forall|j: int|
                0 <= j < c@.len() ==> #[trigger] slot_holds(
                    pv,
                    workers as nat,
                    path_views(c@),
                    k as int,
                    j,
                ),
        decreases n - pos,
    {
        let ghost len0 = c@.len();
        let ghost c0 = c@;
        let p = paths[pos].clone();
        c.push(p);
        proof {
            assert forall|j: int| 0 <= j < c@.len() implies #[trigger] slot_holds(
                pv,
                workers as nat,
                path_views(c@),
                k as int,
                j,
            ) by {
                if j < len0 {
                    assert(c@[j] == c0[j]);
                    assert(slot_holds(pv, workers as nat, path_views(c0), k as int, j));
                } else {
                    assert(j == len0);
                    assert(c@[j] == p);
                    assert(k + j * workers == pos);
                }
            }
            assert(k + c@.len() * workers == pos + workers) by (nonlinear_arith)
                requires
                    pos == k + len0 * workers,
                    c@.len() == len0 + 1,
            ;
        }
        if n - pos <= workers {
            pos = n;
        } else {
            pos = pos + workers;
        }
    }
    c
}

/// Splits the search paths into at most `workers` chunks, round robin.
pub fn partition(paths: &Vec<String>, workers: usize) -> (chunks: Vec<Vec<String>>)
    requires
        workers >= 1,
    ensures
        is_round_robin(
            path_views(paths@),
            workers as nat,
            chunks@.map_values(|c: Vec<String>| path_views(c@)),
        ),
{
    let ghost pv = path_views(paths@);
    let n = paths.len();
    let count: usize = if n < workers {
        n
    } else {
        workers
    };
    let ghost w = workers as int;
    let mut chunks: Vec<Vec<String>> = Vec::new();
    let mut k: usize = 0;
    while k < count
        invariant
            n == paths@.len(),
            pv == path_views(paths@),
            w == workers >= 1,
            count == if n < workers {
                n
            } else {
                workers
            },
            k <= count,
            chunks@.len() == k,
            forall|kk: int, j: int|
                0 <= kk < k && 0 <= j < chunks@[kk]@.len() ==> #[trigger] slot_holds(
                    pv,
                    workers as nat,
                    path_views(chunks@[kk]@),
                    kk,
                    j,
                ),
            forall|kk: int| 0 <= kk < k ==> (#[trigger] chunks@[kk]@.len()) * w + kk >= n,
        decreases count - k,
    {
        let c = collect_chunk(paths, k, workers);
        let ghost before = chunks@;
        let ghost cv = c@;
        chunks.push(c);
        proof {
            assert forall|kk: int, j: int|
                0 <= kk < k + 1 && 0 <= j < chunks@[kk]@.len() implies #[trigger] slot_holds(
                pv,
                workers as nat,
                path_views(chunks@[kk]@),
                kk,
                j,
            ) by {
                if kk < k {
                    assert(chunks@[kk] == before[kk]);
                } else {
                    assert(chunks@[kk]@ == cv);
                    assert(slot_holds(pv, workers as nat, path_views(cv), kk, j));
                }
            }
            assert forall|kk: int| 0 <= kk < k + 1 implies (#[trigger] chunks@[kk]@.len()) * w
                + kk >= n by {
                if kk < k {
                    assert(chunks@[kk] == before[kk]);
                }
            }
        }
        k = k + 1;
    }
    proof {
        let cv = chunks@.map_values(|c: Vec<String>| path_views(c@));
        assert forall|kk: int, j: int|
            0 <= kk < cv.len() && 0 <= j < cv[kk].len() implies #[trigger] slot_holds(
            pv,
            workers as nat,
            cv[kk],
            kk,
            j,
        ) by {
            assert(cv[kk] == path_views(chunks@[kk]@));
            assert(slot_holds(pv, workers as nat, path_views(chunks@[kk]@), kk, j));
        }
        assert forall|i: int| 0 <= i < pv.len() implies #[trigger] placed_at(
            pv,
            workers as nat,
            cv,
            i,
        ) by {
            let kk = i % w;
            let q = i / w;
            assert(0 <= kk < w && i == q * w + kk && q >= 0) by (nonlinear_arith)
                requires
                    kk == i % w,
                    q == i / w,
                    w >= 1,
                    i >= 0,
            ;
            assert(kk < count) by {
                if n < workers {
                    assert(kk <= i);
                }
            }
            assert(cv[kk] == path_views(chunks@[kk]@));
            let len = chunks@[kk]@.len();
            assert(len * w + kk >= n);
            assert(q < len) by (nonlinear_arith)
                requires
                    len * w + kk >= n,
                    i == q * w + kk,
                    i < n,
                    w >= 1,
            ;
            assert(slot_holds(pv, workers as nat, path_views(chunks@[kk]@), kk, q));
        }
    }
    chunks
}

/// What a run has gathered: the similarity of each image that could be
/// processed, and the paths that could not be decoded.
pub struct RunResults {
    pub matches: Vec<ImgInfo>,
    pub failed: Vec<String>,
}

impl RunResults {
    /// No results yet.
    pub fn new() -> (r: RunResults)
        ensures
            r.matches@.len() == 0,
            r.failed@.len() == 0,
    {
        RunResults { matches: Vec::new(), failed: Vec::new() }
    }

    /// Records the outcome for one search path: features lead to a result
    /// with the path's match count against the query; an extraction error puts
    /// the path among the failed ones. Nothing else changes.
    pub fn record(
        &mut self,
        path: String,
        outcome: Result<Features, ExtractionError>,
        ratio: RatioTest,
        query: &Vec<Descriptor>,
    )
        requires
            query@.len() <= u32::MAX,
        ensures
            outcome matches Ok(f) ==> final(self).matches@ == old(self).matches@.push(
                (ImgInfo { path, num_matches: num_matches(ratio, query@, f.descriptors@) as u32 }),
            ) && final(self).failed@ == old(self).failed@,
            outcome is Err ==> final(self).failed@ == old(self).failed@.push(path)
                && final(self).matches@ == old(self).matches@,
    {
        match outcome {
            Ok(f) => {
                let n = get_num_matches(ratio, query, &f.descriptors);
                self.matches.push(ImgInfo { path, num_matches: n });
            },
            Err(_) => {
                self.failed.push(path);
            },
        }
    }

    /// Appends what another worker gathered.
    pub fn merge(&mut self, other: RunResults)
        ensures
            final(self).matches@ == old(self).matches@ + other.matches@,
            final(self).failed@ == old(self).failed@ + other.failed@,
    {
        let mut other = other;
        self.matches.append(&mut other.matches);
        self.failed.append(&mut other.failed);
    }
}

proof fn lemma_slot_positions_differ(w: int, k: int, j: int, k2: int, j2: int)
    requires
        w >= 1,
        0 <= k < w,
        0 <= k2 < w,
        0 <= j,
        0 <= j2,
        k + j * w == k2 + j2 * w,
    ensures
        k == k2 && j == j2,
{
    assert(j == j2) by (nonlinear_arith)
        requires
            w >= 1,
            0 <= k < w,
            0 <= k2 < w,
            k + j * w == k2 + j2 * w,
    {
        if j < j2 {
            assert(j * w + w <= j2 * w);
        } else if j > j2 {
            assert(j2 * w + w <= j * w);
        }
    }
}

/// Partition coverage: in a round-robin split every input position stands in
/// a slot of some chunk holding its path, every slot holds an input position,
/// and no two slots hold the same position, so each path is dealt out
/// exactly once.
pub proof fn lemma_partition_exactly_once(
    paths: Seq<Seq<char>>,
    workers: nat,
    chunks: Seq<Seq<Seq<char>>>,
)
    requires
        is_round_robin(paths, workers, chunks),
    ensures
        forall|i: int| 0 <= i < paths.len() ==> #[trigger] placed_at(paths, workers, chunks, i),
        forall|k: int, j: int|
            0 <= k < chunks.len() && 0 <= j < chunks[k].len() ==> #[trigger] slot_holds(
                paths,
                workers,
                chunks[k],
                k,
                j,
            ),
        forall|k: int, j: int, k2: int, j2: int|
            0 <= k < chunks.len() && 0 <= j < chunks[k].len() && 0 <= k2 < chunks.len() && 0 <= j2
                < chunks[k2].len() && #[trigger] (k + j * workers) == #[trigger] (k2 + j2 * workers)
                ==> k == k2 && j == j2,
{
    assert forall|k: int, j: int, k2: int, j2: int|
        0 <= k < chunks.len() && 0 <= j < chunks[k].len() && 0 <= k2 < chunks.len() && 0 <= j2
            < chunks[k2].len() && #[trigger] (k + j * workers) == #[trigger] (k2 + j2 * workers)
        implies k == k2 && j == j2 by {
        lemma_slot_positions_differ(workers as int, k, j, k2, j2);
    }
}

} // verus!
