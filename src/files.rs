//! Which directory entries are images to search.
use vstd::prelude::*;
use vstd::utf8::encode_utf8;
use vstd::string::StringSliceAdditionalSpecFns;

verus! {

/// What `str::to_lowercase` makes of a string.
pub uninterp spec fn lower_of(s: Seq<char>) -> Seq<char>;

/// Relies on `str::to_lowercase`: the result depends on the characters alone.
#[verifier::external_body]
fn lowercase(s: &str) -> (r: String)
    ensures
        r@ == lower_of(s@),
{
    s.to_lowercase()
}

/// `s` ends with `suffix`.
pub open spec fn ends_with(s: Seq<u8>, suffix: Seq<u8>) -> bool {
    suffix.len() <= s.len() && s.subrange(s.len() - suffix.len(), s.len() as int) == suffix
}

/// The path's UTF-8 encoding ends with the extension's, as `str::ends_with`
/// decides.
pub open spec fn has_suffix(path: Seq<char>, ext: Seq<char>) -> bool {
    ends_with(encode_utf8(path), encode_utf8(ext))
}

/// Whether the byte string `s` ends with `suffix`.
fn bytes_end_with(s: &[u8], suffix: &[u8]) -> (b: bool)
    ensures
        b == ends_with(s@, suffix@),
{
    let n = s.len();
    let m = suffix.len();
    if m > n {
        return false;
    }
    let off = n - m;
    let mut i: usize = 0;
    while i < m
        invariant
            n == s@.len(),
            m == suffix@.len(),
            off + m == n,
            i <= m,
            forall|k: int| 0 <= k < i ==> s@[off + k] == #[trigger] suffix@[k],
        decreases m - i,
    {
        if s[off + i] != suffix[i] {
            assert(s@.subrange(off as int, n as int)[i as int] != suffix@[i as int]);
            return false;
        }
        i = i + 1;
    }
    assert(s@.subrange(off as int, n as int) =~= suffix@);
    true
}

/// Whether the path ends with one of the extensions, compared as given.
pub fn has_valid_extension(path: &str, extensions: &Vec<String>) -> (b: bool)
    ensures
        b == exists|k: int| 0 <= k < extensions@.len() && has_suffix(path@, #[trigger] extensions@[k]@),
{
    let pb = path.as_bytes();
    let mut k: usize = 0;
    while k < extensions.len()
        invariant
            k <= extensions@.len(),
            pb@ == encode_utf8(path@),
            forall|j: int| 0 <= j < k ==> !has_suffix(path@, #[trigger] extensions@[j]@),
        decreases extensions@.len() - k,
    {
        let eb = extensions[k].as_str().as_bytes();
        if bytes_end_with(pb, eb) {
            assert(has_suffix(path@, extensions@[k as int]@));
            return true;
        }
        k = k + 1;
    }
    false
}

/// Whether a directory entry is an image to search: a file whose path ends
/// with one of the accepted extensions, ignoring case.
pub fn is_valid_file(valid_extensions: &Vec<String>, path: &str, is_file: bool) -> (b: bool)
    ensures
        b == (is_file && exists|k: int|
            0 <= k < valid_extensions@.len() && has_suffix(
                lower_of(path@),
                lower_of(#[trigger] valid_extensions@[k]@),
            )),
{
    if !is_file {
        return false;
    }
    let lowered = lowercase(path);
    let mut lowered_exts: Vec<String> = Vec::new();
    let mut k: usize = 0;
    while k < valid_extensions.len()
        invariant
            k <= valid_extensions@.len(),
            lowered_exts@.len() == k,
            forall|j: int| 0 <= j < k ==> #[trigger] lowered_exts@[j]@ == lower_of(valid_extensions@[j]@),
        decreases valid_extensions@.len() - k,
    {
        let e = lowercase(valid_extensions[k].as_str());
        lowered_exts.push(e);
        k = k + 1;
    }
    let b = has_valid_extension(lowered.as_str(), &lowered_exts);
    proof {
        if b {
            let k = choose|k: int| 0 <= k < lowered_exts@.len() && has_suffix(lowered@, #[trigger] lowered_exts@[k]@);
            assert(has_suffix(lower_of(path@), lower_of(valid_extensions@[k]@)));
        } else {
            assert forall|k: int| 0 <= k < valid_extensions@.len() implies !has_suffix(
                lower_of(path@),
                lower_of(#[trigger] valid_extensions@[k]@),
            ) by {
                assert(lowered_exts@[k]@ == lower_of(valid_extensions@[k]@));
            }
        }
    }
    b
}

} // verus!
