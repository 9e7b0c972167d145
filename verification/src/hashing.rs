use vstd::prelude::*;

use image_hasher::{HashAlg, HasherConfig};

verus! {

/// The hash bytes that image_hasher's double-gradient algorithm computes for
/// the image decoded from `jpeg`, at hash size `width` x `height`; `None` where
/// the bytes do not decode as an image.
pub uninterp spec fn double_gradient_hash(jpeg: Seq<u8>, width: u32, height: u32) -> Option<Seq<u8>>;

/// Trusted: declares `image::ImageError`, the decoding error that hashing
/// hands on; nothing is read from it here.
#[verifier::external_type_specification]
#[verifier::external_body]
pub struct ExImageError(image::ImageError);

/// Decodes `jpeg` with `image::load_from_memory` and hashes the result with
/// image_hasher's `Hasher::hash_image` (algorithm `DoubleGradient`, size
/// `width` x `height`), handing back `ImageHash::as_bytes`.
/// Trusted: the outcome is `double_gradient_hash(jpeg, width, height)`, and a
/// hash has at most 4096 bytes (for sizes up to 64 x 64 the algorithm emits at
/// most 2 * 32 * 33 bits, packed eight to a byte).
#[verifier::external_body]
fn hash_jpeg_double_gradient(jpeg: &[u8], width: u32, height: u32) -> (r: Result<Vec<u8>, image::ImageError>)
    requires
        1 <= width <= 64,
        1 <= height <= 64,
    ensures
        match r {
            Ok(h) => double_gradient_hash(jpeg@, width, height) == Some(h@) && h@.len() <= 4096,
            Err(_) => double_gradient_hash(jpeg@, width, height) is None,
        },
{
    let img = image::load_from_memory(jpeg)?;
    let hasher = HasherConfig::new().hash_alg(HashAlg::DoubleGradient).hash_size(width, height).to_hasher();
    Ok(hasher.hash_image(&img).as_bytes().to_vec())
}

/// Width and height of the perceptual hash used for scene stacking.
pub const PHASH_SIZE: u32 = 8;

/// The perceptual hash of a preview: `None` where it does not decode.
pub open spec fn spec_phash(jpeg: Seq<u8>) -> Option<Seq<u8>> {
    double_gradient_hash(jpeg, PHASH_SIZE, PHASH_SIZE)
}

/// A perceptual hash, held as its bytes.
#[derive(Debug, Clone)]
pub struct PerceptualHash {
    pub bytes: Vec<u8>,
}

impl View for PerceptualHash {
    type V = Seq<u8>;

    open spec fn view(&self) -> Seq<u8> {
        self.bytes@
    }
}

/// Why a perceptual hash could not be computed.
#[derive(Debug, Clone, Copy, PartialEq, Eq, Structural)]
pub enum PhashError {
    /// The preview bytes do not decode as an image.
    UndecodablePreview,
}

/// Number of one bits in a byte.
pub open spec fn ones(x: u8) -> nat
    decreases x,
{
    if x == 0 {
        0
    } else {
        (x % 2) as nat + ones(x / 2)
    }
}

/// Hamming distance of two hashes: the number of differing bits over the
/// bytes that both have.
pub open spec fn hamming(a: Seq<u8>, b: Seq<u8>) -> nat
    decreases a.len(),
{
    if a.len() == 0 || b.len() == 0 {
        0
    } else {
        ones(a[0] ^ b[0]) + hamming(a.drop_first(), b.drop_first())
    }
}

proof fn lemma_ones_le_8(x: u8)
    ensures
        ones(x) <= 8,
{
    reveal_with_fuel(pow2_int, 9);
    assert(pow2_int(8) == 256);
    lemma_ones_bound(x, 8);
}

proof fn lemma_ones_bound(x: u8, k: nat)
    requires
        (x as int) < pow2_int(k),
    ensures
        ones(x) <= k,
    decreases x,
{
    if x != 0 {
        assert(k > 0) by {
            if k == 0 {
                assert(pow2_int(0) == 1);
            }
        }
        assert(((x / 2) as int) < pow2_int((k - 1) as nat)) by {
            assert(pow2_int(k) == 2 * pow2_int((k - 1) as nat));
        }
        lemma_ones_bound(x / 2, (k - 1) as nat);
    }
}

spec fn pow2_int(k: nat) -> int
    decreases k,
{
    if k == 0 {
        1
    } else {
        2 * pow2_int((k - 1) as nat)
    }
}

/// The distance is at most eight per byte of the shorter hash.
pub proof fn lemma_hamming_bound(a: Seq<u8>, b: Seq<u8>)
    ensures
        hamming(a, b) <= 8 * a.len(),
        hamming(a, b) <= 8 * b.len(),
    decreases a.len(),
{
    if a.len() != 0 && b.len() != 0 {
        lemma_hamming_bound(a.drop_first(), b.drop_first());
        lemma_ones_le_8(a[0] ^ b[0]);
    }
}

/// The distance is symmetric, and a hash is at distance zero from itself.
pub proof fn law_hamming_symmetric_and_reflexive(a: Seq<u8>, b: Seq<u8>)
    ensures
        hamming(a, b) == hamming(b, a),
        hamming(a, a) == 0,
    decreases a.len(),
{
    if a.len() != 0 {
        assert(a[0] ^ a[0] == 0) by (bit_vector);
        if b.len() != 0 {
            let (x, y) = (a[0], b[0]);
            assert(x ^ y == y ^ x) by (bit_vector);
        }
        law_hamming_symmetric_and_reflexive(a.drop_first(), b.drop_first());
        law_hamming_symmetric_and_reflexive(a.drop_first(), a.drop_first());
    }
}

/// Whether bit `k` of `x` differs from bit `k` of `y`, as 1 or 0.
pub open spec fn bit_differs(x: u8, y: u8, k: u8) -> nat {
    if (x >> k) & 1u8 == (y >> k) & 1u8 {
        0
    } else {
        1
    }
}

proof fn lemma_ones_step(z: u8)
    ensures
        ones(z) == ((z & 1u8) as nat) + ones(z >> 1u8),
{
    assert(z & 1u8 == z % 2) by (bit_vector);
    assert(z >> 1u8 == z / 2) by (bit_vector);
}

proof fn lemma_shift_once_more(z: u8, k: u8, k1: u8)
    requires
        k < 8,
        k1 == k + 1,
    ensures
        (z >> k) >> 1u8 == z >> k1,
{
    assert(k < 8 && k1 == k + 1 ==> (z >> k) >> 1u8 == z >> k1) by (bit_vector);
}

proof fn lemma_xor_bit(x: u8, y: u8, k: u8)
    requires
        k < 8,
    ensures
        bit_differs(x, y, k) == ((((x ^ y) >> k) & 1u8) as nat),
{
    assert(k < 8 ==> ((((x >> k) & 1u8) == ((y >> k) & 1u8)) <==> (((x ^ y) >> k) & 1u8) == 0u8))
        by (bit_vector);
    assert(((x ^ y) >> k) & 1u8 <= 1u8) by (bit_vector);
}

/// The distance of two one-byte hashes is the number of bit positions in
/// which the two bytes differ.
pub proof fn law_hamming_counts_differing_bits(x: u8, y: u8)
    ensures
        hamming(seq![x], seq![y]) == bit_differs(x, y, 0) + bit_differs(x, y, 1) + bit_differs(x, y, 2)
            + bit_differs(x, y, 3) + bit_differs(x, y, 4) + bit_differs(x, y, 5) + bit_differs(x, y, 6)
            + bit_differs(x, y, 7),
{
    let z: u8 = x ^ y;
    assert(seq![x].drop_first() =~= Seq::<u8>::empty());
    assert(seq![y].drop_first() =~= Seq::<u8>::empty());
    assert(hamming(seq![x], seq![y]) == ones(z) + hamming(Seq::<u8>::empty(), Seq::<u8>::empty()));
    assert(z >> 0u8 == z) by (bit_vector);
    lemma_ones_from(z, 0);
    reveal_with_fuel(bits_from, 9);
    lemma_xor_bit(x, y, 0);
    lemma_xor_bit(x, y, 1);
    lemma_xor_bit(x, y, 2);
    lemma_xor_bit(x, y, 3);
    lemma_xor_bit(x, y, 4);
    lemma_xor_bit(x, y, 5);
    lemma_xor_bit(x, y, 6);
    lemma_xor_bit(x, y, 7);
}

/// Bits `k..8` of `z`, summed.
spec fn bits_from(z: u8, k: u8) -> nat
    decreases 8 - k,
{
    if k >= 8 {
        0
    } else {
        (((z >> k) & 1u8) as nat) + bits_from(z, (k + 1) as u8)
    }
}

proof fn lemma_ones_from(z: u8, k: u8)
    requires
        k <= 8,
    ensures
        ones(z >> k) == bits_from(z, k),
    decreases 8 - k,
{
    if k == 8 {
        assert(k == 8 ==> z >> k == 0u8) by (bit_vector);
    } else {
        lemma_ones_step(z >> k);
        lemma_shift_once_more(z, k, (k + 1) as u8);
        lemma_ones_from(z, (k + 1) as u8);
    }
}

/// The distance adds up byte by byte: the distance of two hashes made of
/// equally long parts is the sum of the distances of the parts.
pub proof fn law_hamming_adds_over_parts(a: Seq<u8>, b: Seq<u8>, c: Seq<u8>, d: Seq<u8>)
    requires
        a.len() == b.len(),
    ensures
        hamming(a + c, b + d) == hamming(a, b) + hamming(c, d),
    decreases a.len(),
{
    if a.len() == 0 {
        assert(a + c =~= c);
        assert(b + d =~= d);
    } else {
        law_hamming_adds_over_parts(a.drop_first(), b.drop_first(), c, d);
        assert((a + c).drop_first() =~= a.drop_first() + c);
        assert((b + d).drop_first() =~= b.drop_first() + d);
        assert((a + c)[0] == a[0]);
        assert((b + d)[0] == b[0]);
    }
}

/// Two bytes that differ in exactly one bit are at distance one.
pub proof fn law_single_bit_distance(k: u8)
    requires
        k < 8,
    ensures
        hamming(seq![1u8 << k], seq![0u8]) == 1,
{
    law_hamming_counts_differing_bits(1u8 << k, 0u8);
    lemma_single_bit(k, 0);
    lemma_single_bit(k, 1);
    lemma_single_bit(k, 2);
    lemma_single_bit(k, 3);
    lemma_single_bit(k, 4);
    lemma_single_bit(k, 5);
    lemma_single_bit(k, 6);
    lemma_single_bit(k, 7);
}

proof fn lemma_single_bit(k: u8, j: u8)
    requires
        k < 8,
        j < 8,
    ensures
        bit_differs(1u8 << k, 0u8, j) == (if j == k { 1nat } else { 0nat }),
{
    assert(k < 8 && j < 8 ==> ((((1u8 << k) >> j) & 1u8 == (0u8 >> j) & 1u8) <==> j != k)) by (bit_vector);
}

fn count_ones(x: u8) -> (r: u32)
    ensures
        r == ones(x),
{
    let mut y: u8 = x;
    let mut c: u32 = 0;
    proof {
        lemma_ones_le_8(x);
    }
    while y != 0
        invariant
            c + ones(y) == ones(x),
            ones(x) <= 8,
        decreases y,
    {
        let bit: u8 = y & 1;
        assert(y & 1 == y % 2) by (bit_vector);
        assert(y >> 1 == y / 2) by (bit_vector);
        c = c + bit as u32;
        y = y >> 1;
    }
    c
}

/// Perceptual hash of a JPEG preview (double-gradient, 8 x 8).
pub fn compute_phash(jpeg_bytes: &[u8]) -> (r: Result<PerceptualHash, PhashError>)
    ensures
        match r {
            Ok(h) => spec_phash(jpeg_bytes@) == Some(h@) && h@.len() <= 4096,
            Err(e) => spec_phash(jpeg_bytes@) is None && e == PhashError::UndecodablePreview,
        },
{
    match hash_jpeg_double_gradient(jpeg_bytes, PHASH_SIZE, PHASH_SIZE) {
        Ok(bytes) => Ok(PerceptualHash { bytes }),
        Err(_) => Err(PhashError::UndecodablePreview),
    }
}

/// Like `compute_phash`, but a preview that does not decode gives `None`.
pub fn try_compute_phash(jpeg_bytes: &[u8], file_name: &str) -> (r: Option<PerceptualHash>)
    ensures
        match r {
            Some(h) => spec_phash(jpeg_bytes@) == Some(h@) && h@.len() <= 4096,
            None => spec_phash(jpeg_bytes@) is None,
        },
{
    match compute_phash(jpeg_bytes) {
        Ok(h) => Some(h),
        Err(_) => None,
    }
}

/// Number of bits in which two hashes differ (over the bytes both have).
pub fn hamming_distance(hash_a: &PerceptualHash, hash_b: &PerceptualHash) -> (r: u32)
    requires
        hamming(hash_a@, hash_b@) <= u32::MAX,
    ensures
        r == hamming(hash_a@, hash_b@),
{
    let a = &hash_a.bytes;
    let b = &hash_b.bytes;
    let n = if a.len() < b.len() { a.len() } else { b.len() };
    let mut i: usize = 0;
    let mut total: u32 = 0;
    assert(a@.skip(0) =~= a@);
    assert(b@.skip(0) =~= b@);
    while i < n
        invariant
            n <= a@.len(),
            n <= b@.len(),
            n == a@.len() || n == b@.len(),
            i <= n,
            total + hamming(a@.skip(i as int), b@.skip(i as int)) == hamming(a@, b@),
            hamming(a@, b@) <= u32::MAX,
        decreases n - i,
    {
        assert(a@.skip(i as int).drop_first() =~= a@.skip(i + 1));
        assert(b@.skip(i as int).drop_first() =~= b@.skip(i + 1));
        let c = count_ones(a[i] ^ b[i]);
        total = total + c;
        i = i + 1;
    }
    assert(a@.skip(i as int).len() == 0 || b@.skip(i as int).len() == 0);
    total
}

} // verus!
