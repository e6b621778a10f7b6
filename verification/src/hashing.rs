//! Perceptual hashes as fixed-width bit vectors and the Hamming distance
//! between them.
//!
//! A hash is held as its raw bytes; the distance between two hashes is the
//! number of differing bit positions. Hashes of unequal byte length are
//! compared position by position, a byte present on only one side counting
//! as eight differing bits, so the distance is total and still a metric.

use sha2::Digest;
use vstd::prelude::*;

verus! {

/// An image held as plain pixel data: RGBA, row-major, four bytes per
/// pixel.
pub struct PixelBuffer {
    pub width: u32,
    pub height: u32,
    pub rgba: Vec<u8>,
}

impl PixelBuffer {
    /// Whether the image is hashable: both dimensions positive — the
    /// resampling inside the hashers has no value for an empty image —
    /// and the pixel data matching the dimensions.
    pub open spec fn wf(self) -> bool {
        &&& self.width > 0
        &&& self.height > 0
        &&& self.rgba@.len() == 4 * self.width * self.height
    }
}

/// The gradient hash of an image: what img_hash's `Gradient` algorithm at
/// hash size 8x8 yields for these pixels. The result depends on the
/// dimensions and pixels alone; its resampling does `f32` arithmetic, so
/// reproducibility is per toolchain and platform — the scope of one run
/// and its cache.
pub uninterp spec fn gradient_hash(width: u32, height: u32, rgba: Seq<u8>) -> Seq<u8>;

/// The double-gradient hash of an image: what img_hash's `DoubleGradient`
/// algorithm at hash size 8x8 yields for these pixels, reproducible as
/// the gradient hash is.
pub uninterp spec fn double_gradient_hash(width: u32, height: u32, rgba: Seq<u8>) -> Seq<u8>;

/// The mean hash of an image: what img_hash's `Mean` algorithm at hash
/// size 8x8 yields for these pixels, reproducible as the gradient hash
/// is.
pub uninterp spec fn mean_hash(width: u32, height: u32, rgba: Seq<u8>) -> Seq<u8>;

/// The SHA-256 digest of a byte string.
pub uninterp spec fn sha256_digest(data: Seq<u8>) -> Seq<u8>;

/// Relies on img_hash's `Gradient` hasher at hash size 8x8: the hash it
/// computes is a deterministic function of the pixel data alone and holds
/// 64 bits — one comparison per cell of the 8x8 grid; and on
/// `RgbaImage::from_raw`, which accepts a buffer whose length matches the
/// dimensions. Positive dimensions keep the resampling total.
#[verifier::external_body]
fn gradient_hash_exec(image: &PixelBuffer) -> (r: Vec<u8>)
    requires
        image.wf(),
    ensures
        r@ == gradient_hash(image.width, image.height, image.rgba@),
        r@.len() == 8,
{
    let buf = image::RgbaImage::from_raw(image.width, image.height, image.rgba.clone()).unwrap();
    let hasher = img_hash::HasherConfig::new().hash_size(8, 8).hash_alg(
        img_hash::HashAlg::Gradient,
    ).to_hasher();
    hasher.hash_image(&image::DynamicImage::ImageRgba8(buf)).as_bytes().to_vec()
}

/// Relies on img_hash's `DoubleGradient` hasher at hash size 8x8, as the
/// gradient wrapper does on `Gradient`; it compares rows and columns of a
/// half-size grid, 40 bits in 5 bytes.
#[verifier::external_body]
fn double_gradient_hash_exec(image: &PixelBuffer) -> (r: Vec<u8>)
    requires
        image.wf(),
    ensures
        r@ == double_gradient_hash(image.width, image.height, image.rgba@),
        r@.len() == 5,
{
    let buf = image::RgbaImage::from_raw(image.width, image.height, image.rgba.clone()).unwrap();
    let hasher = img_hash::HasherConfig::new().hash_size(8, 8).hash_alg(
        img_hash::HashAlg::DoubleGradient,
    ).to_hasher();
    hasher.hash_image(&image::DynamicImage::ImageRgba8(buf)).as_bytes().to_vec()
}

/// Relies on img_hash's `Mean` hasher at hash size 8x8, as the gradient
/// wrapper does on `Gradient`; one bit per cell of the 8x8 grid, 64 bits.
#[verifier::external_body]
fn mean_hash_exec(image: &PixelBuffer) -> (r: Vec<u8>)
    requires
        image.wf(),
    ensures
        r@ == mean_hash(image.width, image.height, image.rgba@),
        r@.len() == 8,
{
    let buf = image::RgbaImage::from_raw(image.width, image.height, image.rgba.clone()).unwrap();
    let hasher = img_hash::HasherConfig::new().hash_size(8, 8).hash_alg(
        img_hash::HashAlg::Mean,
    ).to_hasher();
    hasher.hash_image(&image::DynamicImage::ImageRgba8(buf)).as_bytes().to_vec()
}

/// Relies on sha2's `Sha256::digest`: the digest is a function of the
/// bytes alone and is 32 bytes long.
#[verifier::external_body]
fn sha256_exec(data: &Vec<u8>) -> (r: Vec<u8>)
    ensures
        r@ == sha256_digest(data@),
        r@.len() == 32,
{
    sha2::Sha256::digest(data.as_slice()).to_vec()
}

/// The lowercase hexadecimal digit for a value below sixteen.
pub open spec fn hex_digit(n: int) -> char {
    if n == 0 {
        '0'
    } else if n == 1 {
        '1'
    } else if n == 2 {
        '2'
    } else if n == 3 {
        '3'
    } else if n == 4 {
        '4'
    } else if n == 5 {
        '5'
    } else if n == 6 {
        '6'
    } else if n == 7 {
        '7'
    } else if n == 8 {
        '8'
    } else if n == 9 {
        '9'
    } else if n == 10 {
        'a'
    } else if n == 11 {
        'b'
    } else if n == 12 {
        'c'
    } else if n == 13 {
        'd'
    } else if n == 14 {
        'e'
    } else {
        'f'
    }
}

/// Lowercase hexadecimal form of a byte string: two digits per byte, high
/// nibble first.
pub open spec fn hex_of(bytes: Seq<u8>) -> Seq<char>
    decreases bytes.len(),
{
    if bytes.len() == 0 {
        Seq::empty()
    } else {
        seq![hex_digit(bytes[0] as int / 16), hex_digit(bytes[0] as int % 16)] + hex_of(
            bytes.drop_first(),
        )
    }
}

/// Hexadecimal writing doubles the length: two digits per byte.
pub proof fn lemma_hex_of_len(bytes: Seq<u8>)
    ensures
        hex_of(bytes).len() == 2 * bytes.len(),
    decreases bytes.len(),
{
    if bytes.len() > 0 {
        lemma_hex_of_len(bytes.drop_first());
    }
}

/// Relies on hex::encode: it yields the lowercase hexadecimal form of the
/// bytes, two digits per byte, high nibble first.
#[verifier::external_body]
fn hex_encode(data: &Vec<u8>) -> (r: String)
    ensures
        r@ == hex_of(data@),
{
    hex::encode(data.as_slice())
}

/// Computes the exact content hash of a file's bytes: the lowercase
/// hexadecimal form of their SHA-256 digest, 64 digits.
pub fn compute_exact_hash(data: &Vec<u8>) -> (r: String)
    ensures
        r@ == hex_of(sha256_digest(data@)),
        r@.len() == 64,
{
    let digest = sha256_exec(data);
    proof {
        lemma_hex_of_len(digest@);
    }
    hex_encode(&digest)
}

/// Hash kinds available for duplicate detection.
#[derive(Debug, Clone, Copy, PartialEq, Eq, Structural)]
pub enum HashType {
    /// Exact file digest.
    Exact,
    /// Perceptual hash, good at finding visually similar images.
    Perceptual,
    /// Difference hash, fast and effective.
    Difference,
    /// Average hash, simple but less accurate.
    Average,
}

/// Result of a hashing operation.
#[derive(Debug, Clone)]
pub struct HashResult {
    pub hash: String,
    pub hash_type: String,
}

/// Why no perceptual hash was produced.
#[derive(Debug, Clone, Copy, PartialEq, Eq, Structural)]
pub enum HashError {
    /// The exact kind is a whole-file digest; use `compute_exact_hash`.
    NotPerceptual,
}

/// The perceptual hash a given hash kind assigns to an image; the exact
/// kind assigns none.
pub open spec fn perceptual_hash_of(
    hash_type: HashType,
    width: u32,
    height: u32,
    rgba: Seq<u8>,
) -> Seq<u8> {
    match hash_type {
        HashType::Perceptual => double_gradient_hash(width, height, rgba),
        HashType::Difference => gradient_hash(width, height, rgba),
        HashType::Average => mean_hash(width, height, rgba),
        HashType::Exact => Seq::empty(),
    }
}

/// The byte width of the hash a given kind produces at the fixed 8x8
/// configuration. Hashes are fixed-width per run: a run hashes every
/// image under one kind, so all its hashes span the same bits and their
/// pairwise Hamming distances count bit differences alone.
pub open spec fn perceptual_hash_width(hash_type: HashType) -> int {
    match hash_type {
        HashType::Perceptual => 5,
        HashType::Difference => 8,
        HashType::Average => 8,
        HashType::Exact => 0,
    }
}

/// Computes the perceptual hash of an image under the chosen algorithm;
/// the exact kind is refused, being a file digest rather than a perceptual
/// hash.
pub fn compute_perceptual_hash(image: &PixelBuffer, hash_type: HashType) -> (r: Result<
    Vec<u8>,
    HashError,
>)
    requires
        image.wf(),
    ensures
        r is Err <==> hash_type is Exact,
        r matches Ok(h) ==> h@ == perceptual_hash_of(
            hash_type,
            image.width,
            image.height,
            image.rgba@,
        ),
        r matches Ok(h) ==> h@.len() == perceptual_hash_width(hash_type),
{
    match hash_type {
        HashType::Perceptual => Ok(double_gradient_hash_exec(image)),
        HashType::Difference => Ok(gradient_hash_exec(image)),
        HashType::Average => Ok(mean_hash_exec(image)),
        HashType::Exact => Err(HashError::NotPerceptual),
    }
}

/// The dimension bound above which a loaded image is downscaled before
/// hashing, keeping the hashing cost independent of source resolution.
pub const MAX_HASH_DIMENSION: u32 = 512;

/// Whether a freshly loaded image must be downscaled before hashing:
/// either dimension exceeding the fixed bound.
pub fn needs_downscale(width: u32, height: u32) -> (r: bool)
    ensures
        r == (width > 512 || height > 512),
{
    width > MAX_HASH_DIMENSION || height > MAX_HASH_DIMENSION
}

/// A perceptual hash held as its raw bytes, comparable by Hamming distance.
#[derive(Debug, Clone, PartialEq, Eq, Hash)]
pub struct ComparableHash(pub Vec<u8>);

/// The Hamming metric over `ComparableHash` values.
pub struct PerceptualMetric;

impl PerceptualMetric {
    /// The distance between two hashes, in differing bits.
    pub fn distance(&self, a: &ComparableHash, b: &ComparableHash) -> (d: u32)
        requires
            a.0@.len() <= 0x1FFF_FFFF,
            b.0@.len() <= 0x1FFF_FFFF,
        ensures
            d as int == hash_dist(a.0@, b.0@),
    {
        compare_hashes(&a.0, &b.0)
    }

    /// The distance if it lies within the threshold, `None` otherwise.
    pub fn threshold_distance(&self, a: &ComparableHash, b: &ComparableHash, threshold: u32) -> (r:
        Option<u32>)
        requires
            a.0@.len() <= 0x1FFF_FFFF,
            b.0@.len() <= 0x1FFF_FFFF,
        ensures
            r is Some <==> within(a.0@, b.0@, threshold as int),
            r is Some ==> r->0 as int == hash_dist(a.0@, b.0@),
    {
        let dist = self.distance(a, b);
        if dist <= threshold {
            Some(dist)
        } else {
            None
        }
    }
}

/// Number of set bits in a byte.
pub open spec fn popcount8(b: u8) -> int {
    ((b & 1) + ((b >> 1) & 1) + ((b >> 2) & 1) + ((b >> 3) & 1) + ((b >> 4) & 1) + ((b >> 5) & 1)
        + ((b >> 6) & 1) + ((b >> 7) & 1)) as int
}

/// Bit-level distance contributed by one byte position: the Hamming distance
/// of the two bytes where both are present, eight where only one is.
pub open spec fn pos_dist(a: Option<u8>, b: Option<u8>) -> int {
    match (a, b) {
        (Some(x), Some(y)) => popcount8(x ^ y),
        (Some(_), None) => 8,
        (None, Some(_)) => 8,
        (None, None) => 0,
    }
}

/// The byte at position `i`, if `i` is in range.
pub open spec fn byte_at(h: Seq<u8>, i: int) -> Option<u8> {
    if 0 <= i < h.len() {
        Some(h[i])
    } else {
        None
    }
}

/// Distance accumulated over the first `n` byte positions.
pub open spec fn dist_upto(a: Seq<u8>, b: Seq<u8>, n: int) -> int
    decreases n,
{
    if n <= 0 {
        0
    } else {
        dist_upto(a, b, n - 1) + pos_dist(byte_at(a, n - 1), byte_at(b, n - 1))
    }
}

/// Number of byte positions two hashes span together.
pub open spec fn span(a: Seq<u8>, b: Seq<u8>) -> int {
    if a.len() >= b.len() {
        a.len() as int
    } else {
        b.len() as int
    }
}

/// Hamming distance between two hashes, in bits.
pub open spec fn hash_dist(a: Seq<u8>, b: Seq<u8>) -> int {
    dist_upto(a, b, span(a, b))
}

/// Two hashes are within a threshold when their distance does not exceed it.
pub open spec fn within(a: Seq<u8>, b: Seq<u8>, t: int) -> bool {
    hash_dist(a, b) <= t
}

proof fn lemma_popcount8_bounds(x: u8)
    ensures
        0 <= popcount8(x) <= 8,
        popcount8(x ^ x) == 0,
{
    assert((x & 1) + ((x >> 1) & 1) + ((x >> 2) & 1) + ((x >> 3) & 1) + ((x >> 4) & 1) + ((x >> 5)
        & 1) + ((x >> 6) & 1) + ((x >> 7) & 1) <= 8) by (bit_vector);
    assert(x ^ x == 0) by (bit_vector);
    assert(((0u8 & 1) + ((0u8 >> 1) & 1) + ((0u8 >> 2) & 1) + ((0u8 >> 3) & 1) + ((0u8 >> 4) & 1)
        + ((0u8 >> 5) & 1) + ((0u8 >> 6) & 1) + ((0u8 >> 7) & 1)) == 0) by (bit_vector);
}

proof fn lemma_pos_dist_bounds(a: Option<u8>, b: Option<u8>)
    ensures
        0 <= pos_dist(a, b) <= 8,
        pos_dist(a, a) == 0,
        pos_dist(a, b) == pos_dist(b, a),
{
    match (a, b) {
        (Some(x), Some(y)) => {
            lemma_popcount8_bounds(x ^ y);
            assert(x ^ y == y ^ x) by (bit_vector);
            lemma_popcount8_bounds(x);
        },
        _ => {
            match a {
                Some(x) => lemma_popcount8_bounds(x),
                None => {},
            }
        },
    }
}

/// Distance over a prefix is non-negative and bounded by eight bits per byte.
pub proof fn lemma_dist_upto_bounds(a: Seq<u8>, b: Seq<u8>, n: int)
    ensures
        0 <= dist_upto(a, b, n),
        n >= 0 ==> dist_upto(a, b, n) <= 8 * n,
    decreases n,
{
    if n > 0 {
        lemma_dist_upto_bounds(a, b, n - 1);
        lemma_pos_dist_bounds(byte_at(a, n - 1), byte_at(b, n - 1));
    }
}

/// Extending the prefix never shrinks the accumulated distance.
pub proof fn lemma_dist_upto_monotonic(a: Seq<u8>, b: Seq<u8>, m: int, n: int)
    requires
        m <= n,
    ensures
        dist_upto(a, b, m) <= dist_upto(a, b, n),
    decreases n - m,
{
    if m < n {
        lemma_dist_upto_monotonic(a, b, m, n - 1);
        lemma_pos_dist_bounds(byte_at(a, n - 1), byte_at(b, n - 1));
    }
}

/// The distance of a hash to itself is zero.
pub proof fn lemma_hash_dist_self(a: Seq<u8>)
    ensures
        hash_dist(a, a) == 0,
{
    lemma_dist_upto_self(a, a.len() as int);
}

proof fn lemma_dist_upto_self(a: Seq<u8>, n: int)
    ensures
        dist_upto(a, a, n) == 0,
    decreases n,
{
    if n > 0 {
        lemma_dist_upto_self(a, n - 1);
        lemma_pos_dist_bounds(byte_at(a, n - 1), byte_at(a, n - 1));
    }
}

/// The distance is symmetric.
pub proof fn lemma_hash_dist_symmetric(a: Seq<u8>, b: Seq<u8>)
    ensures
        hash_dist(a, b) == hash_dist(b, a),
{
    lemma_dist_upto_symmetric(a, b, span(a, b));
}

proof fn lemma_dist_upto_symmetric(a: Seq<u8>, b: Seq<u8>, n: int)
    ensures
        dist_upto(a, b, n) == dist_upto(b, a, n),
    decreases n,
{
    if n > 0 {
        lemma_dist_upto_symmetric(a, b, n - 1);
        lemma_pos_dist_bounds(byte_at(a, n - 1), byte_at(b, n - 1));
    }
}

proof fn lemma_dist_upto_zero_pointwise(a: Seq<u8>, b: Seq<u8>, n: int)
    requires
        dist_upto(a, b, n) == 0,
    ensures
        forall|i: int| 0 <= i < n ==> pos_dist(byte_at(a, i), byte_at(b, i)) == 0,
    decreases n,
{
    if n > 0 {
        lemma_dist_upto_bounds(a, b, n - 1);
        lemma_pos_dist_bounds(byte_at(a, n - 1), byte_at(b, n - 1));
        lemma_dist_upto_zero_pointwise(a, b, n - 1);
    }
}

/// Only a hash has distance zero to itself: the Hamming distance separates
/// distinct hashes, completing the metric laws beside symmetry and the
/// triangle inequality.
pub proof fn lemma_hash_dist_zero(a: Seq<u8>, b: Seq<u8>)
    ensures
        hash_dist(a, b) == 0 <==> a == b,
{
    if hash_dist(a, b) == 0 {
        lemma_dist_upto_zero_pointwise(a, b, span(a, b));
        assert(a.len() == b.len()) by {
            if a.len() < b.len() {
                assert(pos_dist(byte_at(a, a.len() as int), byte_at(b, a.len() as int)) == 8);
            } else if b.len() < a.len() {
                assert(pos_dist(byte_at(a, b.len() as int), byte_at(b, b.len() as int)) == 8);
            }
        }
        assert forall|i: int| 0 <= i < a.len() implies a[i] == b[i] by {
            assert(pos_dist(byte_at(a, i), byte_at(b, i)) == 0);
            let x = a[i];
            let y = b[i];
            assert((((x ^ y) & 1) + (((x ^ y) >> 1) & 1) + (((x ^ y) >> 2) & 1) + (((x ^ y) >> 3)
                & 1) + (((x ^ y) >> 4) & 1) + (((x ^ y) >> 5) & 1) + (((x ^ y) >> 6) & 1) + (((x
                ^ y) >> 7) & 1) == 0) ==> x == y) by (bit_vector);
        }
        assert(a =~= b);
    }
    if a == b {
        lemma_hash_dist_self(a);
    }
}

proof fn lemma_popcount8_triangle(x: u8, y: u8, z: u8)
    ensures
        popcount8(x ^ z) <= popcount8(x ^ y) + popcount8(y ^ z),
{
    assert(((x ^ z) & 1) + (((x ^ z) >> 1) & 1) + (((x ^ z) >> 2) & 1) + (((x ^ z) >> 3) & 1) + ((
    (x ^ z) >> 4) & 1) + (((x ^ z) >> 5) & 1) + (((x ^ z) >> 6) & 1) + (((x ^ z) >> 7) & 1) <= ((x
        ^ y) & 1) + (((x ^ y) >> 1) & 1) + (((x ^ y) >> 2) & 1) + (((x ^ y) >> 3) & 1) + (((x ^ y)
        >> 4) & 1) + (((x ^ y) >> 5) & 1) + (((x ^ y) >> 6) & 1) + (((x ^ y) >> 7) & 1) + ((y ^ z)
        & 1) + (((y ^ z) >> 1) & 1) + (((y ^ z) >> 2) & 1) + (((y ^ z) >> 3) & 1) + (((y ^ z) >> 4)
        & 1) + (((y ^ z) >> 5) & 1) + (((y ^ z) >> 6) & 1) + (((y ^ z) >> 7) & 1)) by (bit_vector);
}

proof fn lemma_pos_dist_triangle(a: Option<u8>, b: Option<u8>, c: Option<u8>)
    ensures
        pos_dist(a, c) <= pos_dist(a, b) + pos_dist(b, c),
{
    lemma_pos_dist_bounds(a, b);
    lemma_pos_dist_bounds(b, c);
    lemma_pos_dist_bounds(a, c);
    match (a, b, c) {
        (Some(x), Some(y), Some(z)) => lemma_popcount8_triangle(x, y, z),
        _ => {},
    }
}

proof fn lemma_dist_upto_triangle(a: Seq<u8>, b: Seq<u8>, c: Seq<u8>, n: int)
    ensures
        dist_upto(a, c, n) <= dist_upto(a, b, n) + dist_upto(b, c, n),
    decreases n,
{
    if n > 0 {
        lemma_dist_upto_triangle(a, b, c, n - 1);
        lemma_pos_dist_triangle(byte_at(a, n - 1), byte_at(b, n - 1), byte_at(c, n - 1));
    }
}

proof fn lemma_dist_upto_beyond(a: Seq<u8>, b: Seq<u8>, n: int)
    requires
        n >= span(a, b),
    ensures
        dist_upto(a, b, n) == hash_dist(a, b),
    decreases n,
{
    if n > span(a, b) {
        lemma_dist_upto_beyond(a, b, n - 1);
        assert(pos_dist(byte_at(a, n - 1), byte_at(b, n - 1)) == 0);
    }
}

/// The Hamming distance satisfies the triangle inequality, which makes it
/// a metric and justifies pruning a metric-tree search by edge labels.
pub proof fn lemma_hash_dist_triangle(a: Seq<u8>, b: Seq<u8>, c: Seq<u8>)
    ensures
        hash_dist(a, c) <= hash_dist(a, b) + hash_dist(b, c),
{
    let n = if span(a, c) >= span(a, b) {
        if span(a, c) >= span(b, c) {
            span(a, c)
        } else {
            span(b, c)
        }
    } else {
        if span(a, b) >= span(b, c) {
            span(a, b)
        } else {
            span(b, c)
        }
    };
    lemma_dist_upto_triangle(a, b, c, n);
    lemma_dist_upto_beyond(a, c, n);
    lemma_dist_upto_beyond(a, b, n);
    lemma_dist_upto_beyond(b, c, n);
}

/// Computes the full Hamming distance, wide enough for any pair of hashes.
pub fn hash_dist_exec(a: &Vec<u8>, b: &Vec<u8>) -> (d: u128)
    ensures
        d as int == hash_dist(a@, b@),
{
    let n: usize = if a.len() >= b.len() {
        a.len()
    } else {
        b.len()
    };
    let mut d: u128 = 0;
    let mut i: usize = 0;
    while i < n
        invariant
            0 <= i <= n,
            n == span(a@, b@),
            d as int == dist_upto(a@, b@, i as int),
            d <= 8 * i,
        decreases n - i,
    {
        proof {
            lemma_pos_dist_bounds(byte_at(a@, i as int), byte_at(b@, i as int));
        }
        let step: u8 = if i < a.len() && i < b.len() {
            popcount8_exec(a[i] ^ b[i])
        } else {
            8
        };
        d = d + step as u128;
        i = i + 1;
    }
    d
}

fn popcount8_exec(x: u8) -> (r: u8)
    ensures
        r as int == popcount8(x),
{
    assert((x & 1) + ((x >> 1) & 1) + ((x >> 2) & 1) + ((x >> 3) & 1) + ((x >> 4) & 1) + ((x >> 5)
        & 1) + ((x >> 6) & 1) + ((x >> 7) & 1) < 256) by (bit_vector);
    (x & 1) + ((x >> 1) & 1) + ((x >> 2) & 1) + ((x >> 3) & 1) + ((x >> 4) & 1) + ((x >> 5) & 1) + (
    (x >> 6) & 1) + ((x >> 7) & 1)
}

/// Compares two perceptual hashes and returns the Hamming distance in bits.
pub fn compare_hashes(hash1: &Vec<u8>, hash2: &Vec<u8>) -> (d: u32)
    requires
        hash1@.len() <= 0x1FFF_FFFF,
        hash2@.len() <= 0x1FFF_FFFF,
    ensures
        d as int == hash_dist(hash1@, hash2@),
{
    let n: usize = if hash1.len() >= hash2.len() {
        hash1.len()
    } else {
        hash2.len()
    };
    let mut d: u32 = 0;
    let mut i: usize = 0;
    while i < n
        invariant
            0 <= i <= n,
            n == span(hash1@, hash2@),
            hash1@.len() <= 0x1FFF_FFFF,
            hash2@.len() <= 0x1FFF_FFFF,
            d as int == dist_upto(hash1@, hash2@, i as int),
        decreases n - i,
    {
        proof {
            lemma_dist_upto_bounds(hash1@, hash2@, i as int);
            lemma_pos_dist_bounds(byte_at(hash1@, i as int), byte_at(hash2@, i as int));
        }
        let step: u8 = if i < hash1.len() && i < hash2.len() {
            popcount8_exec(hash1[i] ^ hash2[i])
        } else {
            8
        };
        d = d + step as u32;
        i = i + 1;
    }
    d
}

/// Decides whether two hashes lie within the given Hamming-distance
/// threshold, inclusive. Works for hashes of any length: the running
/// distance is cut off as soon as it exceeds the threshold.
pub fn are_duplicates(hash1: &Vec<u8>, hash2: &Vec<u8>, threshold: u32) -> (r: bool)
    ensures
        r == within(hash1@, hash2@, threshold as int),
{
    let n: usize = if hash1.len() >= hash2.len() {
        hash1.len()
    } else {
        hash2.len()
    };
    let mut d: u64 = 0;
    let mut i: usize = 0;
    while i < n
        invariant
            0 <= i <= n,
            n == span(hash1@, hash2@),
            d as int == dist_upto(hash1@, hash2@, i as int),
            d <= threshold,
        decreases n - i,
    {
        proof {
            lemma_pos_dist_bounds(byte_at(hash1@, i as int), byte_at(hash2@, i as int));
        }
        let step: u8 = if i < hash1.len() && i < hash2.len() {
            popcount8_exec(hash1[i] ^ hash2[i])
        } else {
            8
        };
        d = d + step as u64;
        if d > threshold as u64 {
            proof {
                lemma_dist_upto_monotonic(hash1@, hash2@, i + 1, span(hash1@, hash2@));
            }
            return false;
        }
        i = i + 1;
    }
    true
}

} // verus!
