use vstd::prelude::*;

use crate::module::{
    spec_double, spec_halve, spec_septuple, spec_triple, xor_block, zero_block, Last, LastFul,
    Mask, Process,
};
use crate::traits::{BlockCipher, BLOCK_LENGTH};

verus! {

// ===================================================================
// The mathematical model of a session
//
// A session is the pair of evolving masks, the chain value and the
// checksum accumulator. Every executable operation of the mode is
// specified as a function of this state; the laws of the mode are
// proved about these functions.
// ===================================================================

/// The state of one session: the two masks, the chain value and the
/// running checksum.
#[verifier::ext_equal]
pub ghost struct SessionState {
    pub delta1: Seq<u8>,
    pub delta2: Seq<u8>,
    pub w: Seq<u8>,
    pub cs: Seq<u8>,
}

impl SessionState {
    /// All four components are 16 bytes.
    pub open spec fn wf(self) -> bool {
        &&& self.delta1.len() == BLOCK_LENGTH
        &&& self.delta2.len() == BLOCK_LENGTH
        &&& self.w.len() == BLOCK_LENGTH
        &&& self.cs.len() == BLOCK_LENGTH
    }
}

// ===================================================================
// Session initialization: mask derivation and absorption
// ===================================================================

/// A byte sequence of at most 16 bytes laid left-aligned in an
/// otherwise zero block.
pub open spec fn pad_zero(t: Seq<u8>) -> Seq<u8> {
    Seq::new(BLOCK_LENGTH as nat, |i: int| if i < t.len() { t[i] } else { 0u8 })
}

/// A short chunk padded to a full block with the 0x80 marker at the
/// first unused byte and zeros after it.
pub open spec fn pad_mark(chunk: Seq<u8>) -> Seq<u8> {
    Seq::new(
        BLOCK_LENGTH as nat,
        |i: int|
            if i < chunk.len() {
                chunk[i]
            } else if i == chunk.len() {
                0x80u8
            } else {
                0u8
            },
    )
}

/// One absorption step on a full 16-byte chunk: the absorption mask
/// doubles, the masked chunk is encrypted, and the result folds into
/// the accumulator. Returns the new (mask, accumulator) pair.
pub open spec fn absorb_full<BC: BlockCipher>(
    cipher: BC,
    d0: Seq<u8>,
    w: Seq<u8>,
    chunk: Seq<u8>,
) -> (Seq<u8>, Seq<u8>) {
    let d = spec_double(d0);
    (d, xor_block(w, cipher.enc_spec(xor_block(chunk, d))))
}

/// One absorption step on a final short chunk: the absorption mask
/// septuples and the chunk is marker-padded before masking.
pub open spec fn absorb_partial<BC: BlockCipher>(
    cipher: BC,
    d0: Seq<u8>,
    w: Seq<u8>,
    chunk: Seq<u8>,
) -> (Seq<u8>, Seq<u8>) {
    let d = spec_septuple(d0);
    (d, xor_block(w, cipher.enc_spec(xor_block(pad_mark(chunk), d))))
}

/// Absorption of the associated data, 16 bytes at a time from the
/// front; a final chunk shorter than a block takes the marker-padded
/// step. Empty associated data leaves the pair unchanged.
pub open spec fn absorb_aad<BC: BlockCipher>(
    cipher: BC,
    d0: Seq<u8>,
    w: Seq<u8>,
    aad: Seq<u8>,
) -> (Seq<u8>, Seq<u8>)
    decreases aad.len(),
{
    if aad.len() == 0 {
        (d0, w)
    } else if aad.len() < BLOCK_LENGTH {
        absorb_partial(cipher, d0, w, aad)
    } else {
        let r = absorb_full(cipher, d0, w, aad.take(BLOCK_LENGTH as int));
        absorb_aad(cipher, r.0, r.1, aad.skip(BLOCK_LENGTH as int))
    }
}

/// Mask derivation and absorption: `L` is the cipher on the zero
/// block; the session masks are `L` and `triple(triple(L))`; the
/// absorption mask starts at `halve(triple(L))` and absorbs the nonce
/// block, then the associated data, into the initial chain value.
pub open spec fn init_spec<BC: BlockCipher>(cipher: BC, nonce: Seq<u8>, aad: Seq<u8>) -> (
    Seq<u8>,
    Seq<u8>,
    Seq<u8>,
) {
    let l = cipher.enc_spec(zero_block());
    let l3 = spec_triple(l);
    let d0 = spec_halve(l3);
    let nb = absorb_full(cipher, d0, zero_block(), pad_zero(nonce));
    let r = absorb_aad(cipher, nb.0, nb.1, aad);
    (l, spec_triple(l3), r.1)
}

/// The session state right after initialization: checksum zero, chain
/// value from absorption.
pub open spec fn init_state<BC: BlockCipher>(
    cipher: BC,
    nonce: Seq<u8>,
    aad: Seq<u8>,
) -> SessionState {
    let t = init_spec(cipher, nonce, aad);
    SessionState { delta1: t.0, delta2: t.1, w: t.2, cs: zero_block() }
}

// ===================================================================
// The per-block transform, in both directions
// ===================================================================

/// The encrypt-direction block transform for role `S`: both masks
/// advance; the input is masked, encrypted, mixed through `p`,
/// encrypted again and masked. The checksum is untouched.
pub open spec fn enc_block_spec<BC: BlockCipher, S: Mask>(
    cipher: BC,
    st: SessionState,
    input: Seq<u8>,
) -> (SessionState, Seq<u8>) {
    let d1 = S::advance(st.delta1);
    let d2 = S::advance(st.delta2);
    let xx = cipher.enc_spec(xor_block(input, d1));
    let yy = xor_block(xx, spec_triple(st.w));
    let w2 = xor_block(xx, spec_double(st.w));
    let out = xor_block(cipher.enc_spec(yy), d2);
    (SessionState { delta1: d1, delta2: d2, w: w2, cs: st.cs }, out)
}

/// The decrypt-direction block transform for role `S`: the mirror of
/// `enc_block_spec`, with the mask roles swapped, the cipher inverted,
/// and the chain value updated through the decrypt-direction mixing.
pub open spec fn dec_block_spec<BC: BlockCipher, S: Mask>(
    cipher: BC,
    st: SessionState,
    input: Seq<u8>,
) -> (SessionState, Seq<u8>) {
    let d1 = S::advance(st.delta1);
    let d2 = S::advance(st.delta2);
    let xx = cipher.dec_spec(xor_block(input, d2));
    let yy = xor_block(xx, spec_triple(st.w));
    let w2 = xor_block(xx, st.w);
    let out = xor_block(cipher.dec_spec(yy), d1);
    (SessionState { delta1: d1, delta2: d2, w: w2, cs: st.cs }, out)
}

/// One interior encrypt step: the plaintext block folds into the
/// checksum, then the block transform runs with the interior role.
pub open spec fn enc_process_spec<BC: BlockCipher>(
    cipher: BC,
    st: SessionState,
    input: Seq<u8>,
) -> (SessionState, Seq<u8>) {
    enc_block_spec::<BC, Process>(
        cipher,
        SessionState { cs: xor_block(st.cs, input), ..st },
        input,
    )
}

/// One interior decrypt step: the block transform runs first, then the
/// recovered plaintext block folds into the checksum.
pub open spec fn dec_process_spec<BC: BlockCipher>(
    cipher: BC,
    st: SessionState,
    input: Seq<u8>,
) -> (SessionState, Seq<u8>) {
    let r = dec_block_spec::<BC, Process>(cipher, st, input);
    (SessionState { cs: xor_block(st.cs, r.1), ..r.0 }, r.1)
}

/// Interior encrypt steps over a whole number of blocks, consumed from
/// the front; the outputs are concatenated.
pub open spec fn enc_blocks_spec<BC: BlockCipher>(
    cipher: BC,
    st: SessionState,
    m: Seq<u8>,
) -> (SessionState, Seq<u8>)
    decreases m.len(),
{
    if m.len() < BLOCK_LENGTH {
        (st, Seq::empty())
    } else {
        let r = enc_process_spec(cipher, st, m.take(BLOCK_LENGTH as int));
        let rest = enc_blocks_spec(cipher, r.0, m.skip(BLOCK_LENGTH as int));
        (rest.0, r.1 + rest.1)
    }
}

/// Interior decrypt steps over a whole number of blocks.
pub open spec fn dec_blocks_spec<BC: BlockCipher>(
    cipher: BC,
    st: SessionState,
    c: Seq<u8>,
) -> (SessionState, Seq<u8>)
    decreases c.len(),
{
    if c.len() < BLOCK_LENGTH {
        (st, Seq::empty())
    } else {
        let r = dec_process_spec(cipher, st, c.take(BLOCK_LENGTH as int));
        let rest = dec_blocks_spec(cipher, r.0, c.skip(BLOCK_LENGTH as int));
        (rest.0, r.1 + rest.1)
    }
}

/// The interior encrypt steps emit exactly one output byte per input
/// byte.
pub proof fn lemma_enc_blocks_len<BC: BlockCipher>(cipher: BC, st: SessionState, m: Seq<u8>)
    requires
        m.len() % 16 == 0,
    ensures
        enc_blocks_spec(cipher, st, m).1.len() == m.len(),
    decreases m.len(),
{
    if m.len() < BLOCK_LENGTH {
        assert(m.len() == 0);
    } else {
        let r = enc_process_spec(cipher, st, m.take(BLOCK_LENGTH as int));
        assert(m.skip(BLOCK_LENGTH as int).len() % 16 == 0);
        lemma_enc_blocks_len(cipher, r.0, m.skip(BLOCK_LENGTH as int));
    }
}

/// The interior decrypt steps emit exactly one output byte per input
/// byte.
pub proof fn lemma_dec_blocks_len<BC: BlockCipher>(cipher: BC, st: SessionState, c: Seq<u8>)
    requires
        c.len() % 16 == 0,
    ensures
        dec_blocks_spec(cipher, st, c).1.len() == c.len(),
    decreases c.len(),
{
    if c.len() < BLOCK_LENGTH {
        assert(c.len() == 0);
    } else {
        let r = dec_process_spec(cipher, st, c.take(BLOCK_LENGTH as int));
        assert(c.skip(BLOCK_LENGTH as int).len() % 16 == 0);
        lemma_dec_blocks_len(cipher, r.0, c.skip(BLOCK_LENGTH as int));
    }
}

// ===================================================================
// Finalization
// ===================================================================

/// The fixed pattern that the checksum must carry beyond the plaintext
/// tail: the 0x80 marker followed by zeros.
pub open spec fn ozs() -> Seq<u8> {
    Seq::new(BLOCK_LENGTH as nat, |i: int| if i == 0 { 0x80u8 } else { 0u8 })
}

/// The combined final buffer: the tail zero-padded to a block, XORed
/// with the checksum, and, for a partial tail, the 0x80 marker folded
/// in at the first unused byte.
pub open spec fn final_buf(cs: Seq<u8>, tail: Seq<u8>) -> Seq<u8> {
    let b0 = xor_block(pad_zero(tail), cs);
    if tail.len() < BLOCK_LENGTH {
        b0.update(tail.len() as int, b0[tail.len() as int] ^ 0x80)
    } else {
        b0
    }
}

/// Encrypt-direction finalization on a tail of 1 to 16 bytes: the
/// combined buffer runs once through the block transform in its tail
/// role, and a second time in the tag role; the output is the full
/// output block followed by the tag truncated to the tail length.
pub open spec fn enc_finalize_spec<BC: BlockCipher>(
    cipher: BC,
    st: SessionState,
    tail: Seq<u8>,
) -> Seq<u8> {
    let l = tail.len() as int;
    let buf = final_buf(st.cs, tail);
    let r1 = if l < BLOCK_LENGTH {
        enc_block_spec::<BC, Last>(cipher, st, buf)
    } else {
        enc_block_spec::<BC, LastFul>(cipher, st, buf)
    };
    let r2 = enc_block_spec::<BC, Process>(cipher, r1.0, buf);
    r1.1 + r2.1.take(l)
}

/// Decrypt-direction finalization on the trailing 17 to 32 bytes of a
/// ciphertext (one full block and a 1-to-16-byte tag): the block is
/// transformed back, the checksum folds it in and yields the plaintext
/// tail; verification holds exactly when the checksum remainder is the
/// marker pattern and the supplied tag equals the recomputed one.
pub open spec fn dec_finalize_spec<BC: BlockCipher>(
    cipher: BC,
    st: SessionState,
    input: Seq<u8>,
) -> (Seq<u8>, bool) {
    let l = input.len() - BLOCK_LENGTH;
    let cblk = input.take(BLOCK_LENGTH as int);
    let tag = input.skip(BLOCK_LENGTH as int);
    let r1 = if l < BLOCK_LENGTH {
        dec_block_spec::<BC, Last>(cipher, st, cblk)
    } else {
        dec_block_spec::<BC, LastFul>(cipher, st, cblk)
    };
    let buf = r1.1;
    let cs2 = xor_block(st.cs, buf);
    let ptail = cs2.take(l);
    let ok1 = cs2.skip(l) == ozs().take(BLOCK_LENGTH - l);
    let r2 = enc_block_spec::<BC, Process>(
        cipher,
        SessionState { cs: cs2, ..r1.0 },
        buf,
    );
    let ok2 = tag == r2.1.take(l);
    (ptail, ok1 && ok2)
}

// ===================================================================
// The whole mode
// ===================================================================

/// Where a message splits into interior blocks and final tail: the
/// tail is the last 1 to 16 bytes, a full block when the length is a
/// positive multiple of 16.
pub open spec fn split_point(len: int) -> int {
    if len % 16 == 0 {
        len - 16
    } else {
        len / 16 * 16
    }
}

/// Where a ciphertext splits into interior blocks and the trailing
/// block-plus-tag handed to finalization.
pub open spec fn dec_split_point(len: int) -> int {
    if len % 16 == 0 {
        len - 32
    } else {
        len / 16 * 16 - 16
    }
}

/// The complete ciphertext of a message of at least one byte: interior
/// blocks streamed through the interior transform, then the finalized
/// tail and tag.
pub open spec fn colm_encrypt_spec<BC: BlockCipher>(
    cipher: BC,
    nonce: Seq<u8>,
    aad: Seq<u8>,
    m: Seq<u8>,
) -> Seq<u8> {
    let st0 = init_state(cipher, nonce, aad);
    let take = split_point(m.len() as int);
    let r = enc_blocks_spec(cipher, st0, m.take(take));
    r.1 + enc_finalize_spec(cipher, r.0, m.skip(take))
}

/// The decryption of a ciphertext of at least 17 bytes: the recovered
/// plaintext and the verification verdict.
pub open spec fn colm_decrypt_spec<BC: BlockCipher>(
    cipher: BC,
    nonce: Seq<u8>,
    aad: Seq<u8>,
    c: Seq<u8>,
) -> (Seq<u8>, bool) {
    let st0 = init_state(cipher, nonce, aad);
    let take = dec_split_point(c.len() as int);
    let r = dec_blocks_spec(cipher, st0, c.take(take));
    let f = dec_finalize_spec(cipher, r.0, c.skip(take));
    (r.1 + f.0, f.1)
}

} // verus!
