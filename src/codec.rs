//! The byte encoding of cache entries, with a proof that decoding an encoded
//! entry gives it back.
use vstd::prelude::*;
use vstd::utf8::{valid_utf8, decode_utf8, encode_utf8, encode_utf8_valid_utf8, encode_utf8_decode_utf8, decode_utf8_encode_utf8};
use vstd::string::StringSliceAdditionalSpecFns;
use crate::descriptor::{Descriptor, DESCRIPTOR_LEN};

verus! {

/// The four little-endian bytes of `v`.
pub open spec fn le4(v: u32) -> Seq<u8> {
    seq![(v & 0xff) as u8, ((v >> 8u32) & 0xff) as u8, ((v >> 16u32) & 0xff) as u8, (v >> 24u32) as u8]
}

/// The eight little-endian bytes of `v`.
pub open spec fn le8(v: u64) -> Seq<u8> {
    le4((v & 0xffff_ffff) as u32) + le4((v >> 32u64) as u32)
}

proof fn lemma_le4_injective(a: u32, b: u32)
    requires
        le4(a) == le4(b),
    ensures
        a == b,
{
    assert(le4(a)[0] == le4(b)[0]);
    assert(le4(a)[1] == le4(b)[1]);
    assert(le4(a)[2] == le4(b)[2]);
    assert(le4(a)[3] == le4(b)[3]);
    assert(a & 0xff < 256 && (a >> 8u32) & 0xff < 256 && (a >> 16u32) & 0xff < 256 && a >> 24u32
        < 256) by (bit_vector);
    assert(b & 0xff < 256 && (b >> 8u32) & 0xff < 256 && (b >> 16u32) & 0xff < 256 && b >> 24u32
        < 256) by (bit_vector);
    assert(a == b) by (bit_vector)
        requires
            a & 0xff == b & 0xff,
            (a >> 8u32) & 0xff == (b >> 8u32) & 0xff,
            (a >> 16u32) & 0xff == (b >> 16u32) & 0xff,
            a >> 24u32 == b >> 24u32,
    ;
}

proof fn lemma_le8_injective(a: u64, b: u64)
    requires
        le8(a) == le8(b),
    ensures
        a == b,
{
    let (la, ha) = ((a & 0xffff_ffff) as u32, (a >> 32u64) as u32);
    let (lb, hb) = ((b & 0xffff_ffff) as u32, (b >> 32u64) as u32);
    assert(le4(la) =~= le8(a).subrange(0, 4));
    assert(le4(lb) =~= le8(b).subrange(0, 4));
    assert(le4(ha) =~= le8(a).subrange(4, 8));
    assert(le4(hb) =~= le8(b).subrange(4, 8));
    lemma_le4_injective(la, lb);
    lemma_le4_injective(ha, hb);
    assert(a & 0xffff_ffff < 0x1_0000_0000 && a >> 32u64 < 0x1_0000_0000) by (bit_vector);
    assert(b & 0xffff_ffff < 0x1_0000_0000 && b >> 32u64 < 0x1_0000_0000) by (bit_vector);
    assert(a == b) by (bit_vector)
        requires
            a & 0xffff_ffff == b & 0xffff_ffff,
            a >> 32u64 == b >> 32u64,
    ;
}

/// Appends the little-endian bytes of `v`.
fn push_u32_le(out: &mut Vec<u8>, v: u32)
    ensures
        final(out)@ == old(out)@ + le4(v),
{
    out.push((v & 0xff) as u8);
    out.push(((v >> 8u32) & 0xff) as u8);
    out.push(((v >> 16u32) & 0xff) as u8);
    out.push((v >> 24u32) as u8);
    assert(final(out)@ =~= old(out)@ + le4(v));
}

/// Appends the little-endian bytes of `v`.
fn push_u64_le(out: &mut Vec<u8>, v: u64)
    ensures
        final(out)@ == old(out)@ + le8(v),
{
    push_u32_le(out, (v & 0xffff_ffff) as u32);
    push_u32_le(out, (v >> 32u64) as u32);
    assert(final(out)@ =~= old(out)@ + le8(v));
}

/// Reads the little-endian `u32` at `pos`.
fn read_u32_le(b: &Vec<u8>, pos: usize) -> (r: u32)
    requires
        pos + 4 <= b@.len(),
    ensures
        le4(r) == b@.subrange(pos as int, pos + 4),
{
    let _n = b.len();
    let c0 = b[pos] as u32;
    let c1 = b[pos + 1] as u32;
    let c2 = b[pos + 2] as u32;
    let c3 = b[pos + 3] as u32;
    let r: u32 = c0 | (c1 << 8u32) | (c2 << 16u32) | (c3 << 24u32);
    assert(r & 0xff == c0 && (r >> 8u32) & 0xff == c1 && (r >> 16u32) & 0xff == c2 && r >> 24u32
        == c3) by (bit_vector)
        requires
            c0 < 256 && c1 < 256 && c2 < 256 && c3 < 256,
            r == c0 | (c1 << 8u32) | (c2 << 16u32) | (c3 << 24u32),
    ;
    assert(le4(r) =~= b@.subrange(pos as int, pos + 4));
    r
}

/// Reads the little-endian `u64` at `pos`.
fn read_u64_le(b: &Vec<u8>, pos: usize) -> (r: u64)
    requires
        pos + 8 <= b@.len(),
    ensures
        le8(r) == b@.subrange(pos as int, pos + 8),
{
    let _n = b.len();
    let lo = read_u32_le(b, pos) as u64;
    let hi = read_u32_le(b, pos + 4) as u64;
    let r: u64 = lo | (hi << 32u64);
    assert(r & 0xffff_ffff == lo && r >> 32u64 == hi) by (bit_vector)
        requires
            lo < 0x1_0000_0000 && hi < 0x1_0000_0000,
            r == lo | (hi << 32u64),
    ;
    assert(le8(r) =~= b@.subrange(pos as int, pos + 8));
    r
}

/// Tag at the start of every encoded entry: "RIS1" read as a little-endian `u32`.
pub const ENTRY_TAG: u32 = 0x3153_4952;

/// Encoded size of one keypoint.
pub const KEYPOINT_BYTES: usize = 36;

/// Keypoint metadata stored with a cache entry: position, response, size and
/// angle as the bit patterns of their 32-bit floats, octave and class id as
/// integers.
#[derive(Clone, Copy, Debug)]
pub struct MyKeyPoint {
    pub x_bits: u32,
    pub y_bits: u32,
    pub response_bits: u32,
    pub size_bits: u32,
    pub octave: u64,
    pub class_id: u64,
    pub angle_bits: u32,
}

/// One stored entry: the image path, its keypoints and the descriptor of each.
pub struct CacheEntry {
    pub path: String,
    pub keypoints: Vec<MyKeyPoint>,
    pub descriptors: Vec<Descriptor>,
}

/// What an entry holds, as mathematical values.
pub struct EntryView {
    pub path: Seq<char>,
    pub keypoints: Seq<MyKeyPoint>,
    pub descriptors: Seq<Descriptor>,
}

impl View for CacheEntry {
    type V = EntryView;

    open spec fn view(&self) -> EntryView {
        EntryView { path: self.path@, keypoints: self.keypoints@, descriptors: self.descriptors@ }
    }
}

/// The encoding of one keypoint: its seven fields in order, little-endian.
#[verifier::opaque]
pub open spec fn keypoint_bytes(k: MyKeyPoint) -> Seq<u8> {
    le4(k.x_bits) + le4(k.y_bits) + le4(k.response_bits) + le4(k.size_bits) + le8(k.octave) + le8(
        k.class_id,
    ) + le4(k.angle_bits)
}

/// The keypoint encodings one after the other.
pub open spec fn keypoints_bytes(ks: Seq<MyKeyPoint>) -> Seq<u8> {
    ks.map_values(|k: MyKeyPoint| keypoint_bytes(k)).flatten()
}

/// The descriptors' bytes one after the other.
pub open spec fn descriptors_bytes(ds: Seq<Descriptor>) -> Seq<u8> {
    ds.map_values(|d: Descriptor| d.bytes@).flatten()
}

/// The encoding of an entry: the tag, the path's UTF-8 bytes after their
/// count, then the keypoints and the descriptors, each after their count.
/// Counts are little-endian `u64`.
pub open spec fn entry_bytes(e: EntryView) -> Seq<u8> {
    le4(ENTRY_TAG) + le8(encode_utf8(e.path).len() as u64) + encode_utf8(e.path) + le8(
        e.keypoints.len() as u64,
    ) + keypoints_bytes(e.keypoints) + le8(e.descriptors.len() as u64) + descriptors_bytes(
        e.descriptors,
    )
}

proof fn lemma_keypoint_bytes_len(k: MyKeyPoint)
    ensures
        keypoint_bytes(k).len() == 36,
{
    reveal(keypoint_bytes);
}

proof fn lemma_keypoints_bytes_push(ks: Seq<MyKeyPoint>, k: MyKeyPoint)
    ensures
        keypoints_bytes(ks.push(k)) == keypoints_bytes(ks) + keypoint_bytes(k),
{
    let f = |k: MyKeyPoint| keypoint_bytes(k);
    assert(ks.push(k).map_values(f) =~= ks.map_values(f).push(keypoint_bytes(k)));
    ks.map_values(f).lemma_flatten_push(keypoint_bytes(k));
}

proof fn lemma_descriptors_bytes_push(ds: Seq<Descriptor>, d: Descriptor)
    ensures
        descriptors_bytes(ds.push(d)) == descriptors_bytes(ds) + d.bytes@,
{
    let f = |d: Descriptor| d.bytes@;
    assert(ds.push(d).map_values(f) =~= ds.map_values(f).push(d.bytes@));
    ds.map_values(f).lemma_flatten_push(d.bytes@);
}

proof fn lemma_keypoints_bytes_len(ks: Seq<MyKeyPoint>)
    ensures
        keypoints_bytes(ks).len() == 36 * ks.len(),
    decreases ks.len(),
{
    if ks.len() > 0 {
        lemma_keypoint_bytes_len(ks.last());
        lemma_keypoints_bytes_len(ks.drop_last());
        assert(ks.drop_last().push(ks.last()) =~= ks);
        lemma_keypoints_bytes_push(ks.drop_last(), ks.last());
    } else {
        assert(ks.map_values(|k: MyKeyPoint| keypoint_bytes(k)) =~= Seq::<Seq<u8>>::empty());
    }
}

proof fn lemma_descriptors_bytes_len(ds: Seq<Descriptor>)
    ensures
        descriptors_bytes(ds).len() == 64 * ds.len(),
    decreases ds.len(),
{
    if ds.len() > 0 {
        lemma_descriptors_bytes_len(ds.drop_last());
        assert(ds.drop_last().push(ds.last()) =~= ds);
        lemma_descriptors_bytes_push(ds.drop_last(), ds.last());
    } else {
        assert(ds.map_values(|d: Descriptor| d.bytes@) =~= Seq::<Seq<u8>>::empty());
    }
}

proof fn lemma_keypoint_bytes_injective(a: MyKeyPoint, b: MyKeyPoint)
    requires
        keypoint_bytes(a) == keypoint_bytes(b),
    ensures
        a == b,
{
    reveal(keypoint_bytes);
    let (x, y) = (keypoint_bytes(a), keypoint_bytes(b));
    assert(x.subrange(0, 4) =~= le4(a.x_bits) && y.subrange(0, 4) =~= le4(b.x_bits));
    assert(x.subrange(4, 8) =~= le4(a.y_bits) && y.subrange(4, 8) =~= le4(b.y_bits));
    assert(x.subrange(8, 12) =~= le4(a.response_bits) && y.subrange(8, 12) =~= le4(
        b.response_bits,
    ));
    assert(x.subrange(12, 16) =~= le4(a.size_bits) && y.subrange(12, 16) =~= le4(b.size_bits));
    assert(x.subrange(16, 24) =~= le8(a.octave) && y.subrange(16, 24) =~= le8(b.octave));
    assert(x.subrange(24, 32) =~= le8(a.class_id) && y.subrange(24, 32) =~= le8(b.class_id));
    assert(x.subrange(32, 36) =~= le4(a.angle_bits) && y.subrange(32, 36) =~= le4(b.angle_bits));
    lemma_le4_injective(a.x_bits, b.x_bits);
    lemma_le4_injective(a.y_bits, b.y_bits);
    lemma_le4_injective(a.response_bits, b.response_bits);
    lemma_le4_injective(a.size_bits, b.size_bits);
    lemma_le8_injective(a.octave, b.octave);
    lemma_le8_injective(a.class_id, b.class_id);
    lemma_le4_injective(a.angle_bits, b.angle_bits);
}

impl MyKeyPoint {
    /// Appends the keypoint's encoding to `out`.
    pub fn serialize(&self, out: &mut Vec<u8>)
        ensures
            final(out)@ == old(out)@ + keypoint_bytes(*self),
    {
        push_u32_le(out, self.x_bits);
        push_u32_le(out, self.y_bits);
        push_u32_le(out, self.response_bits);
        push_u32_le(out, self.size_bits);
        push_u64_le(out, self.octave);
        push_u64_le(out, self.class_id);
        push_u32_le(out, self.angle_bits);
        reveal(keypoint_bytes);
        assert(final(out)@ =~= old(out)@ + keypoint_bytes(*self));
    }

    /// Reads the keypoint encoded at `pos`; `None` when fewer than
    /// `KEYPOINT_BYTES` bytes remain there.
    pub fn deserialize(bytes: &Vec<u8>, pos: usize) -> (r: Option<MyKeyPoint>)
        ensures
            r is Some <==> pos + KEYPOINT_BYTES <= bytes@.len(),
            r matches Some(k) ==> keypoint_bytes(k) == bytes@.subrange(
                pos as int,
                pos + KEYPOINT_BYTES,
            ),
    {
        if pos > bytes.len() || bytes.len() - pos < KEYPOINT_BYTES {
            return None;
        }
        let k = MyKeyPoint {
            x_bits: read_u32_le(bytes, pos),
            y_bits: read_u32_le(bytes, pos + 4),
            response_bits: read_u32_le(bytes, pos + 8),
            size_bits: read_u32_le(bytes, pos + 12),
            octave: read_u64_le(bytes, pos + 16),
            class_id: read_u64_le(bytes, pos + 24),
            angle_bits: read_u32_le(bytes, pos + 32),
        };
        reveal(keypoint_bytes);
        assert(keypoint_bytes(k) =~= bytes@.subrange(pos as int, pos + KEYPOINT_BYTES));
        Some(k)
    }
}

/// Relies on `String::from_utf8`: it accepts exactly the valid UTF-8 byte
/// sequences and keeps the characters that they encode.
#[verifier::external_body]
fn string_from_utf8(bytes: Vec<u8>) -> (r: Option<String>)
    ensures
        r is Some <==> valid_utf8(bytes@),
        r matches Some(s) ==> s@ == decode_utf8(bytes@),
{
    String::from_utf8(bytes).ok()
}

/// Where each part of an encoded entry lies.
proof fn lemma_entry_layout(e: EntryView)
    ensures
        ({
            let x = entry_bytes(e);
            let lp: int = encode_utf8(e.path).len() as int;
            let nk: int = e.keypoints.len() as int;
            let nd: int = e.descriptors.len() as int;
            let o: int = 20 + lp + 36 * nk;
            &&& x.len() == 28 + lp + 36 * nk + 64 * nd
            &&& x.subrange(0, 4) == le4(ENTRY_TAG)
            &&& x.subrange(4, 12) == le8(lp as u64)
            &&& x.subrange(12, 12 + lp) == encode_utf8(e.path)
            &&& x.subrange(12 + lp, 20 + lp) == le8(nk as u64)
            &&& x.subrange(20 + lp, o) == keypoints_bytes(e.keypoints)
            &&& x.subrange(o, o + 8) == le8(nd as u64)
            &&& x.subrange(o + 8, o + 8 + 64 * nd) == descriptors_bytes(e.descriptors)
        }),
{
    let x = entry_bytes(e);
    let p = encode_utf8(e.path);
    let lp: int = p.len() as int;
    let nk: int = e.keypoints.len() as int;
    let nd: int = e.descriptors.len() as int;
    let o: int = 20 + lp + 36 * nk;
    lemma_keypoints_bytes_len(e.keypoints);
    lemma_descriptors_bytes_len(e.descriptors);
    let a = le4(ENTRY_TAG);
    let b = le8(lp as u64);
    let d = le8(nk as u64);
    let k = keypoints_bytes(e.keypoints);
    let f = le8(nd as u64);
    let g = descriptors_bytes(e.descriptors);
    assert(x == a + b + p + d + k + f + g);
    assert(x.subrange(0, 4) =~= a);
    assert(x.subrange(4, 12) =~= b);
    assert(x.subrange(12, 12 + lp) =~= p);
    assert(x.subrange(12 + lp, 20 + lp) =~= d);
    assert(x.subrange(20 + lp, o) =~= k);
    assert(x.subrange(o, o + 8) =~= f);
    assert(x.subrange(o + 8, o + 8 + 64 * nd) =~= g);
}

/// Reads the descriptor whose bytes start at `pos`.
fn read_descriptor(bytes: &Vec<u8>, pos: usize) -> (d: Descriptor)
    requires
        pos + DESCRIPTOR_LEN <= bytes@.len(),
    ensures
        d.bytes@ == bytes@.subrange(pos as int, pos + DESCRIPTOR_LEN),
{
    let _n = bytes.len();
    let mut arr: [u8; 64] = [0u8; 64];
    let mut j: usize = 0;
    while j < DESCRIPTOR_LEN
        invariant
            j <= DESCRIPTOR_LEN,
            pos + DESCRIPTOR_LEN <= bytes@.len(),
            arr@.len() == DESCRIPTOR_LEN,
            _n == bytes@.len(),
            arr@.subrange(0, j as int) == bytes@.subrange(pos as int, pos + j),
        decreases DESCRIPTOR_LEN - j,
    {
        arr[j] = bytes[pos + j];
        j = j + 1;
        assert(arr@.subrange(0, j as int) =~= bytes@.subrange(pos as int, pos + j));
    }
    assert(arr@ =~= arr@.subrange(0, 64));
    Descriptor { bytes: arr }
}

/// Copies the `len` bytes at `start`.
fn copy_range(bytes: &Vec<u8>, start: usize, len: usize) -> (r: Vec<u8>)
    requires
        start + len <= bytes@.len(),
    ensures
        r@ == bytes@.subrange(start as int, start + len),
{
    let _n = bytes.len();
    let mut out: Vec<u8> = Vec::new();
    let mut i: usize = 0;
    while i < len
        invariant
            i <= len,
            _n == bytes@.len(),
            start + len <= bytes@.len(),
            out@ == bytes@.subrange(start as int, start + i),
        decreases len - i,
    {
        out.push(bytes[start + i]);
        i = i + 1;
        assert(out@ =~= bytes@.subrange(start as int, start + i));
    }
    out
}

/// Reads `count` keypoints encoded from `pos` on; `None` when the bytes run
/// out first.
fn decode_keypoints(bytes: &Vec<u8>, pos: usize, count: u64) -> (r: Option<Vec<MyKeyPoint>>)
    requires
        pos <= bytes@.len(),
    ensures
        r is Some <==> pos + 36 * count <= bytes@.len(),
        r matches Some(ks) ==> ks@.len() == count && keypoints_bytes(ks@) == bytes@.subrange(
            pos as int,
            pos + 36 * count,
        ),
{
    let n = bytes.len();
    let mut at = pos;
    let mut keypoints: Vec<MyKeyPoint> = Vec::new();
    let mut k: u64 = 0;
    while k < count
        invariant
            pos <= at <= n == bytes@.len(),
            k <= count,
            at == pos + 36 * k,
            keypoints@.len() == k,
            bytes@.subrange(pos as int, at as int) == keypoints_bytes(keypoints@),
        decreases count - k,
    {
        match MyKeyPoint::deserialize(bytes, at) {
            Some(kp) => {
                proof {
                    lemma_keypoints_bytes_push(keypoints@, kp);
                    assert(bytes@.subrange(pos as int, at + 36) =~= bytes@.subrange(
                        pos as int,
                        at as int,
                    ) + bytes@.subrange(at as int, at + 36));
                }
                keypoints.push(kp);
                at = at + KEYPOINT_BYTES;
                k = k + 1;
            },
            None => {
                assert(pos + 36 * count > n) by (nonlinear_arith)
                    requires
                        at == pos + 36 * k,
                        k < count,
                        at + 36 > n,
                ;
                return None;
            },
        }
    }
    proof {
        assert(keypoints_bytes(Seq::<MyKeyPoint>::empty()) =~= Seq::<u8>::empty()) by {
            assert(Seq::<MyKeyPoint>::empty().map_values(|k: MyKeyPoint| keypoint_bytes(k))
                =~= Seq::<Seq<u8>>::empty());
        }
    }
    Some(keypoints)
}

/// Reads `count` descriptors stored from `pos` on; `None` when the bytes run
/// out first.
fn decode_descriptors(bytes: &Vec<u8>, pos: usize, count: u64) -> (r: Option<Vec<Descriptor>>)
    requires
        pos <= bytes@.len(),
    ensures
        r is Some <==> pos + 64 * count <= bytes@.len(),
        r matches Some(ds) ==> ds@.len() == count && descriptors_bytes(ds@) == bytes@.subrange(
            pos as int,
            pos + 64 * count,
        ),
{
    let n = bytes.len();
    let mut at = pos;
    let mut descriptors: Vec<Descriptor> = Vec::new();
    let mut k: u64 = 0;
    while k < count
        invariant
            pos <= at <= n == bytes@.len(),
            k <= count,
            at == pos + 64 * k,
            descriptors@.len() == k,
            bytes@.subrange(pos as int, at as int) == descriptors_bytes(descriptors@),
        decreases count - k,
    {
        if n - at < DESCRIPTOR_LEN {
            assert(pos + 64 * count > n) by (nonlinear_arith)
                requires
                    at == pos + 64 * k,
                    k < count,
                    at + 64 > n,
            ;
            return None;
        }
        let d = read_descriptor(bytes, at);
        proof {
            lemma_descriptors_bytes_push(descriptors@, d);
            assert(bytes@.subrange(pos as int, at + 64) =~= bytes@.subrange(pos as int, at as int)
                + bytes@.subrange(at as int, at + 64));
        }
        descriptors.push(d);
        at = at + DESCRIPTOR_LEN;
        k = k + 1;
    }
    proof {
        assert(descriptors_bytes(Seq::<Descriptor>::empty()) =~= Seq::<u8>::empty()) by {
            assert(Seq::<Descriptor>::empty().map_values(|d: Descriptor| d.bytes@) =~= Seq::<
                Seq<u8>,
            >::empty());
        }
    }
    Some(descriptors)
}

/// Bytes laid out part by part as an entry's encoding are that encoding.
proof fn lemma_entry_from_parts(b: Seq<u8>, e: EntryView, path_end: int, kend: int)
    requires
        path_end == 12 + encode_utf8(e.path).len(),
        kend == path_end + 8 + 36 * e.keypoints.len(),
        b.len() == kend + 8 + 64 * e.descriptors.len(),
        b.subrange(0, 4) == le4(ENTRY_TAG),
        b.subrange(4, 12) == le8(encode_utf8(e.path).len() as u64),
        b.subrange(12, path_end) == encode_utf8(e.path),
        b.subrange(path_end, path_end + 8) == le8(e.keypoints.len() as u64),
        b.subrange(path_end + 8, kend) == keypoints_bytes(e.keypoints),
        b.subrange(kend, kend + 8) == le8(e.descriptors.len() as u64),
        b.subrange(kend + 8, b.len() as int) == descriptors_bytes(e.descriptors),
    ensures
        b == entry_bytes(e),
{
    lemma_entry_layout(e);
    let x = entry_bytes(e);
    assert(b =~= b.subrange(0, 4) + b.subrange(4, 12) + b.subrange(12, path_end) + b.subrange(
        path_end,
        path_end + 8,
    ) + b.subrange(path_end + 8, kend) + b.subrange(kend, kend + 8) + b.subrange(
        kend + 8,
        b.len() as int,
    ));
    assert(x =~= x.subrange(0, 4) + x.subrange(4, 12) + x.subrange(12, path_end) + x.subrange(
        path_end,
        path_end + 8,
    ) + x.subrange(path_end + 8, kend) + x.subrange(kend, kend + 8) + x.subrange(
        kend + 8,
        x.len() as int,
    ));
}

impl CacheEntry {
    /// The entry's encoding, as stored in the cache.
    pub fn serialize(&self) -> (r: Vec<u8>)
        ensures
            r@ == entry_bytes(self@),
    {
        let mut out: Vec<u8> = Vec::new();
        push_u32_le(&mut out, ENTRY_TAG);
        let pb: &[u8] = self.path.as_str().as_bytes();
        push_u64_le(&mut out, pb.len() as u64);
        let ghost head = out@;
        let mut i: usize = 0;
        while i < pb.len()
            invariant
                i <= pb@.len(),
                out@ == head + pb@.subrange(0, i as int),
            decreases pb@.len() - i,
        {
            out.push(pb[i]);
            i = i + 1;
            assert(out@ =~= head + pb@.subrange(0, i as int));
        }
        assert(pb@.subrange(0, pb@.len() as int) =~= pb@);
        push_u64_le(&mut out, self.keypoints.len() as u64);
        let ghost mid = out@;
        let mut i: usize = 0;
        while i < self.keypoints.len()
            invariant
                i <= self.keypoints@.len(),
                out@ == mid + keypoints_bytes(self.keypoints@.subrange(0, i as int)),
            decreases self.keypoints@.len() - i,
        {
            self.keypoints[i].serialize(&mut out);
            proof {
                let ks = self.keypoints@;
                assert(ks.subrange(0, i + 1) =~= ks.subrange(0, i as int).push(ks[i as int]));
                lemma_keypoints_bytes_push(ks.subrange(0, i as int), ks[i as int]);
            }
            i = i + 1;
        }
        assert(self.keypoints@.subrange(0, self.keypoints@.len() as int) =~= self.keypoints@);
        push_u64_le(&mut out, self.descriptors.len() as u64);
        let ghost tail = out@;
        let mut i: usize = 0;
        while i < self.descriptors.len()
            invariant
                i <= self.descriptors@.len(),
                out@ == tail + descriptors_bytes(self.descriptors@.subrange(0, i as int)),
            decreases self.descriptors@.len() - i,
        {
            let d = &self.descriptors[i];
            let ghost before = out@;
            let mut j: usize = 0;
            while j < DESCRIPTOR_LEN
                invariant
                    j <= DESCRIPTOR_LEN,
                    d.bytes@.len() == DESCRIPTOR_LEN,
                    out@ == before + d.bytes@.subrange(0, j as int),
                decreases DESCRIPTOR_LEN - j,
            {
                out.push(d.bytes[j]);
                j = j + 1;
                assert(out@ =~= before + d.bytes@.subrange(0, j as int));
            }
            proof {
                let ds = self.descriptors@;
                assert(d.bytes@.subrange(0, 64) =~= d.bytes@);
                assert(ds.subrange(0, i + 1) =~= ds.subrange(0, i as int).push(ds[i as int]));
                lemma_descriptors_bytes_push(ds.subrange(0, i as int), ds[i as int]);
            }
            i = i + 1;
        }
        assert(self.descriptors@.subrange(0, self.descriptors@.len() as int) =~= self.descriptors@);
        assert(out@ =~= entry_bytes(self@));
        out
    }

    /// Decodes an entry; `None` exactly when `bytes` is the encoding of no entry.
    pub fn deserialize(bytes: &Vec<u8>) -> (r: Option<CacheEntry>)
        ensures
            r is Some <==> exists|e: EntryView| entry_bytes(e) == bytes@,
            r matches Some(e) ==> entry_bytes(e@) == bytes@,
    {
        let ghost has = exists|e: EntryView| entry_bytes(e) == bytes@;
        let ghost ev = choose|e: EntryView| entry_bytes(e) == bytes@;
        let ghost lp: int = encode_utf8(ev.path).len() as int;
        let ghost nk: int = ev.keypoints.len() as int;
        let ghost nd: int = ev.descriptors.len() as int;
        proof {
            if has {
                lemma_entry_layout(ev);
            }
        }
        let n = bytes.len();
        if n < 12 {
            return None;
        }
        let tag = read_u32_le(bytes, 0);
        if tag != ENTRY_TAG {
            proof {
                if has {
                    lemma_le4_injective(tag, ENTRY_TAG);
                }
            }
            return None;
        }
        let path_len = read_u64_le(bytes, 4);
        proof {
            if has {
                lemma_le8_injective(path_len, lp as u64);
            }
        }
        if path_len > (n - 12) as u64 {
            return None;
        }
        let path_end: usize = 12 + path_len as usize;
        let pb = copy_range(bytes, 12, path_len as usize);
        let ghost pbytes = pb@;
        let path = match string_from_utf8(pb) {
            Some(p) => p,
            None => {
                proof {
                    if has {
                        encode_utf8_valid_utf8(ev.path);
                    }
                }
                return None;
            },
        };
        proof {
            decode_utf8_encode_utf8(pbytes);
        }
        if n - path_end < 8 {
            return None;
        }
        let nkeys = read_u64_le(bytes, path_end);
        proof {
            if has {
                lemma_le8_injective(nkeys, nk as u64);
            }
        }
        let kstart = path_end + 8;
        let keypoints = match decode_keypoints(bytes, kstart, nkeys) {
            Some(ks) => ks,
            None => {
                return None;
            },
        };
        let kend: usize = kstart + KEYPOINT_BYTES * nkeys as usize;
        if n - kend < 8 {
            return None;
        }
        let ndescs = read_u64_le(bytes, kend);
        proof {
            if has {
                lemma_le8_injective(ndescs, nd as u64);
            }
        }
        let dstart = kend + 8;
        let descriptors = match decode_descriptors(bytes, dstart, ndescs) {
            Some(ds) => ds,
            None => {
                return None;
            },
        };
        let dend: usize = dstart + DESCRIPTOR_LEN * ndescs as usize;
        if dend != n {
            return None;
        }
        let entry = CacheEntry { path, keypoints, descriptors };
        proof {
            lemma_entry_from_parts(bytes@, entry@, path_end as int, kend as int);
        }
        Some(entry)
    }
}

proof fn lemma_keypoints_bytes_injective(a: Seq<MyKeyPoint>, b: Seq<MyKeyPoint>)
    requires
        a.len() == b.len(),
        keypoints_bytes(a) == keypoints_bytes(b),
    ensures
        a == b,
    decreases a.len(),
{
    if a.len() > 0 {
        let (a0, b0) = (a.drop_last(), b.drop_last());
        assert(a0.push(a.last()) =~= a);
        assert(b0.push(b.last()) =~= b);
        lemma_keypoints_bytes_push(a0, a.last());
        lemma_keypoints_bytes_push(b0, b.last());
        lemma_keypoints_bytes_len(a0);
        lemma_keypoints_bytes_len(b0);
        lemma_keypoint_bytes_len(a.last());
        lemma_keypoint_bytes_len(b.last());
        let (x, y) = (keypoints_bytes(a), keypoints_bytes(b));
        let m: int = 36 * a0.len() as int;
        assert(x.subrange(0, m) =~= keypoints_bytes(a0));
        assert(y.subrange(0, m) =~= keypoints_bytes(b0));
        assert(x.subrange(m, m + 36) =~= keypoint_bytes(a.last()));
        assert(y.subrange(m, m + 36) =~= keypoint_bytes(b.last()));
        lemma_keypoints_bytes_injective(a0, b0);
        lemma_keypoint_bytes_injective(a.last(), b.last());
        assert(a =~= b);
    } else {
        assert(a =~= b);
    }
}

proof fn lemma_descriptors_bytes_injective(a: Seq<Descriptor>, b: Seq<Descriptor>)
    requires
        a.len() == b.len(),
        descriptors_bytes(a) == descriptors_bytes(b),
    ensures
        a == b,
    decreases a.len(),
{
    if a.len() > 0 {
        let (a0, b0) = (a.drop_last(), b.drop_last());
        assert(a0.push(a.last()) =~= a);
        assert(b0.push(b.last()) =~= b);
        lemma_descriptors_bytes_push(a0, a.last());
        lemma_descriptors_bytes_push(b0, b.last());
        lemma_descriptors_bytes_len(a0);
        lemma_descriptors_bytes_len(b0);
        let (x, y) = (descriptors_bytes(a), descriptors_bytes(b));
        let m: int = 64 * a0.len() as int;
        assert(x.subrange(0, m) =~= descriptors_bytes(a0));
        assert(y.subrange(0, m) =~= descriptors_bytes(b0));
        assert(x.subrange(m, m + 64) =~= a.last().bytes@);
        assert(y.subrange(m, m + 64) =~= b.last().bytes@);
        lemma_descriptors_bytes_injective(a0, b0);
        assert(a.last().bytes =~= b.last().bytes);
        assert(a =~= b);
    } else {
        assert(a =~= b);
    }
}

/// Round trip: an encoding determines its entry, so what `deserialize` returns
/// on the bytes that `serialize` produced holds the same path, keypoints and
/// descriptors.
pub proof fn lemma_cache_round_trip(a: EntryView, b: EntryView)
    requires
        entry_bytes(a).len() <= usize::MAX,
        entry_bytes(b) == entry_bytes(a),
    ensures
        b == a,
{
    lemma_entry_layout(a);
    lemma_entry_layout(b);
    let x = entry_bytes(a);
    let (pa, pb) = (encode_utf8(a.path), encode_utf8(b.path));
    lemma_le8_injective(pa.len() as u64, pb.len() as u64);
    assert(pa == pb);
    encode_utf8_decode_utf8(a.path);
    encode_utf8_decode_utf8(b.path);
    let o = 12 + pa.len();
    lemma_le8_injective(a.keypoints.len() as u64, b.keypoints.len() as u64);
    lemma_keypoints_bytes_injective(a.keypoints, b.keypoints);
    let o2 = 20 + pa.len() + 36 * a.keypoints.len();
    lemma_le8_injective(a.descriptors.len() as u64, b.descriptors.len() as u64);
    lemma_descriptors_bytes_injective(a.descriptors, b.descriptors);
}

} // verus!
