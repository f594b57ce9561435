use vstd::prelude::*;

use crate::traits::BLOCK_LENGTH;
use crate::Block;

verus! {

// ===================================================================
// Byte-level model of blocks
//
// A block is 16 bytes read as a 128-bit big-bit-endian string: byte 0
// carries the most significant bits. The field operations below are
// the doubling, halving, tripling and septupling maps of GF(2^128)
// reduced by the field polynomial, written out byte by byte.
// ===================================================================

/// Byte-wise XOR of two 16-byte values.
pub open spec fn xor_block(a: Seq<u8>, b: Seq<u8>) -> Seq<u8> {
    Seq::new(BLOCK_LENGTH as nat, |i: int| a[i] ^ b[i])
}

/// The all-zero block.
pub open spec fn zero_block() -> Seq<u8> {
    Seq::new(BLOCK_LENGTH as nat, |i: int| 0u8)
}

/// Left shift of the 128-bit string by one bit; when the vacated top bit
/// was set, the reduction constant 0x87 is folded into the last byte.
pub open spec fn spec_double(s: Seq<u8>) -> Seq<u8> {
    Seq::new(
        BLOCK_LENGTH as nat,
        |i: int|
            if i < 15 {
                (s[i] << 1) | (s[i + 1] >> 7)
            } else if s[0] >> 7 == 1 {
                (s[15] << 1) ^ 0x87
            } else {
                s[15] << 1
            },
    )
}

/// Right shift of the 128-bit string by one bit; when the bit shifted out
/// was set, 0x43 is folded into the last byte and 0x80 into the first.
pub open spec fn spec_halve(s: Seq<u8>) -> Seq<u8> {
    Seq::new(
        BLOCK_LENGTH as nat,
        |i: int|
            if i == 0 {
                if s[15] & 1 == 1 {
                    (s[0] >> 1) ^ 0x80
                } else {
                    s[0] >> 1
                }
            } else if i == 15 && s[15] & 1 == 1 {
                ((s[14] << 7) | (s[15] >> 1)) ^ 0x43
            } else {
                (s[i - 1] << 7) | (s[i] >> 1)
            },
    )
}

/// The scalar-3 multiple: `double(s) ^ s`.
pub open spec fn spec_triple(s: Seq<u8>) -> Seq<u8> {
    xor_block(spec_double(s), s)
}

/// The scalar-7 multiple: `triple(double(s)) ^ s`.
pub open spec fn spec_septuple(s: Seq<u8>) -> Seq<u8> {
    xor_block(spec_triple(spec_double(s)), s)
}

// ===================================================================
// Executable field arithmetic
// ===================================================================

/// XOR of two blocks.
pub fn block_xor(a: &Block, b: &Block) -> (r: Block)
    ensures
        r@ == xor_block(a@, b@),
{
    let mut r: Block = [0u8; BLOCK_LENGTH];
    let mut i: usize = 0;
    while i < BLOCK_LENGTH
        invariant
            i <= BLOCK_LENGTH,
            forall|j: int| 0 <= j < i ==> r@[j] == (a@[j] ^ b@[j]),
        decreases BLOCK_LENGTH - i,
    {
        r[i] = a[i] ^ b[i];
        i += 1;
    }
    proof {
        assert(r@ =~= xor_block(a@, b@));
    }
    r
}

/// Doubling in GF(2^128).
pub fn double(s: &Block) -> (r: Block)
    ensures
        r@ == spec_double(s@),
{
    let t: u8 = s[0] >> 7;
    let mut r: Block = [0u8; BLOCK_LENGTH];
    let mut i: usize = 0;
    while i < 15
        invariant
            i <= 15,
            forall|j: int| 0 <= j < i ==> r@[j] == ((s@[j] << 1) | (s@[j + 1] >> 7)),
        decreases 15 - i,
    {
        r[i] = (s[i] << 1) | (s[i + 1] >> 7);
        i += 1;
    }
    r[15] = s[15] << 1;
    if t == 1 {
        r[15] = r[15] ^ 0x87;
    }
    proof {
        assert(r@ =~= spec_double(s@));
    }
    r
}

/// Halving in GF(2^128), the multiplicative inverse of `double`.
pub fn halve(s: &Block) -> (r: Block)
    ensures
        r@ == spec_halve(s@),
{
    let t: u8 = s[15] & 1;
    let mut r: Block = [0u8; BLOCK_LENGTH];
    let mut i: usize = 1;
    while i < 16
        invariant
            1 <= i <= 16,
            forall|j: int| 1 <= j < i ==> r@[j] == ((s@[j - 1] << 7) | (s@[j] >> 1)),
            r@[0] == 0u8,
        decreases 16 - i,
    {
        r[i] = (s[i - 1] << 7) | (s[i] >> 1);
        i += 1;
    }
    r[0] = s[0] >> 1;
    if t == 1 {
        r[15] = r[15] ^ 0x43;
        r[0] = r[0] ^ 0x80;
    }
    proof {
        assert(r@ =~= spec_halve(s@));
    }
    r
}

/// Tripling in GF(2^128): `double(s) ^ s`.
pub fn triple(s: &Block) -> (r: Block)
    ensures
        r@ == spec_triple(s@),
{
    let d = double(s);
    block_xor(&d, s)
}

/// Septupling in GF(2^128): `triple(double(s)) ^ s`.
pub fn septuple(s: &Block) -> (r: Block)
    ensures
        r@ == spec_septuple(s@),
{
    let d = double(s);
    let t = triple(&d);
    block_xor(&t, s)
}

// ===================================================================
// The mixing function and its decrypt-direction mirror
// ===================================================================

/// Feistel-style mixing: `y = x ^ triple(w)`, and the chain value becomes
/// `x ^ double(w)`.
pub fn p(w: &mut Block, y: &mut Block, x: &Block)
    ensures
        final(y)@ == xor_block(x@, spec_triple(old(w)@)),
        final(w)@ == xor_block(x@, spec_double(old(w)@)),
{
    let wv: Block = *w;
    let w3 = triple(&wv);
    let w2 = double(&wv);
    *y = block_xor(x, &w3);
    *w = block_xor(x, &w2);
}

/// Decrypt-direction mixing: `y = x ^ triple(w)`, and the chain value
/// becomes `x ^ w`. The two directions keep the chain in step, because
/// on matching blocks `x ^ w` here equals `x' ^ double(w)` there.
pub fn p_inv(w: &mut Block, y: &mut Block, x: &Block)
    ensures
        final(y)@ == xor_block(x@, spec_triple(old(w)@)),
        final(w)@ == xor_block(x@, old(w)@),
{
    let wv: Block = *w;
    let w3 = triple(&wv);
    *y = block_xor(x, &w3);
    *w = block_xor(x, &wv);
}

// ===================================================================
// Block roles and their mask-advance rules
// ===================================================================

/// A block role: how the evolving masks advance before the block is
/// processed. `Process` is any interior block and the tag block;
/// `LastFul` the final block of a message whose length is a multiple of
/// 16; `Last` the final, marker-padded partial block.
pub trait Mask {
    /// The mask-advance map of this role.
    spec fn advance(d: Seq<u8>) -> Seq<u8>;

    /// The advance map yields a 16-byte value.
    proof fn advance_len(d: Seq<u8>)
        ensures
            Self::advance(d).len() == BLOCK_LENGTH,
    ;

    /// Advance the mask in place, then write `input ^ mask` to `xx`.
    fn mask(delta: &mut Block, xx: &mut Block, input: &Block)
        ensures
            final(delta)@ == Self::advance(old(delta)@),
            final(xx)@ == xor_block(input@, Self::advance(old(delta)@)),
    ;
}

/// Interior blocks (and the tag block): the mask doubles.
pub struct Process;

/// A final full block: the mask septuples.
pub struct LastFul;

/// A final partial block: the mask septuples twice, an extra step of
/// domain separation so no (role, position) pair reuses a mask.
pub struct Last;

/// The dedicated tag block advances its masks exactly as an interior
/// block does.
pub type Tag = Process;

impl Mask for Process {
    open spec fn advance(d: Seq<u8>) -> Seq<u8> {
        spec_double(d)
    }

    proof fn advance_len(d: Seq<u8>) {
    }

    fn mask(delta: &mut Block, xx: &mut Block, input: &Block) {
        let dv: Block = *delta;
        let nd = double(&dv);
        *delta = nd;
        *xx = block_xor(input, &nd);
    }
}

impl Mask for LastFul {
    open spec fn advance(d: Seq<u8>) -> Seq<u8> {
        spec_septuple(d)
    }

    proof fn advance_len(d: Seq<u8>) {
    }

    fn mask(delta: &mut Block, xx: &mut Block, input: &Block) {
        let dv: Block = *delta;
        let nd = septuple(&dv);
        *delta = nd;
        *xx = block_xor(input, &nd);
    }
}

impl Mask for Last {
    open spec fn advance(d: Seq<u8>) -> Seq<u8> {
        spec_septuple(spec_septuple(d))
    }

    proof fn advance_len(d: Seq<u8>) {
    }

    fn mask(delta: &mut Block, xx: &mut Block, input: &Block) {
        let dv: Block = *delta;
        let d7 = septuple(&dv);
        let nd = septuple(&d7);
        *delta = nd;
        *xx = block_xor(input, &nd);
    }
}

} // verus!
