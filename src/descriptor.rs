//! Binary feature descriptors and the squared distance between them.
use vstd::prelude::*;

verus! {

/// Number of bytes in one binary feature descriptor.
pub const DESCRIPTOR_LEN: usize = 64;

/// Largest squared distance between two descriptors: 64 * 255 * 255.
pub const MAX_SQ_DIST: u32 = 4161600;

/// A binary feature vector describing the image patch around one keypoint.
#[derive(Clone, Copy, Debug)]
pub struct Descriptor {
    pub bytes: [u8; 64],
}

/// Square of the difference of two descriptor components.
pub open spec fn sq_diff(a: u8, b: u8) -> nat {
    ((a - b) * (a - b)) as nat
}

/// Sum of the squared component differences over the first `n` components.
pub open spec fn sq_dist_upto(a: Seq<u8>, b: Seq<u8>, n: int) -> nat
    decreases n,
{
    if n <= 0 {
        0
    } else {
        sq_dist_upto(a, b, n - 1) + sq_diff(a[n - 1], b[n - 1])
    }
}

/// Squared Euclidean distance between two descriptors, each component read
/// as an integer coordinate.
pub open spec fn sq_dist(a: Descriptor, b: Descriptor) -> nat {
    sq_dist_upto(a.bytes@, b.bytes@, DESCRIPTOR_LEN as int)
}

proof fn lemma_sq_diff_bound(a: u8, b: u8)
    ensures
        sq_diff(a, b) <= 65025,
{
    let d: int = a - b;
    assert(-255 <= d <= 255);
    assert(0 <= d * d <= 65025) by (nonlinear_arith)
        requires
            -255 <= d <= 255,
    ;
    assert(sq_diff(a, b) == d * d);
}

impl Descriptor {
    /// Squared Euclidean distance to `other`.
    pub fn sq_distance(&self, other: &Descriptor) -> (r: u32)
        ensures
            r == sq_dist(*self, *other),
            r <= MAX_SQ_DIST,
    {
        let mut acc: u32 = 0;
        let mut i: usize = 0;
        while i < DESCRIPTOR_LEN
            invariant
                i <= DESCRIPTOR_LEN,
                self.bytes@.len() == DESCRIPTOR_LEN,
                other.bytes@.len() == DESCRIPTOR_LEN,
                acc == sq_dist_upto(self.bytes@, other.bytes@, i as int),
                acc <= 65025 * i,
            decreases DESCRIPTOR_LEN - i,
        {
            let a = self.bytes[i];
            let b = other.bytes[i];
            let d: u32 = if a >= b {
                (a - b) as u32
            } else {
                (b - a) as u32
            };
            proof {
                lemma_sq_diff_bound(a, b);
                assert(d * d == sq_diff(a, b)) by (nonlinear_arith)
                    requires
                        d == a - b || d == b - a,
                ;
            }
            acc = acc + d * d;
            i = i + 1;
        }
        acc
    }
}

} // verus!
