use vstd::prelude::*;

use crate::model::{
    absorb_aad, colm_decrypt_spec, colm_encrypt_spec, dec_block_spec, dec_blocks_spec,
    dec_finalize_spec, dec_process_spec, enc_block_spec, enc_blocks_spec, enc_finalize_spec,
    enc_process_spec, final_buf, init_state, lemma_enc_blocks_len, ozs, split_point, SessionState,
};
use crate::module::{spec_double, spec_triple, xor_block, zero_block, Last, LastFul, Mask, Process};
use crate::traits::{BlockCipher, BLOCK_LENGTH};

verus! {

// ===================================================================
// Laws of the mode
//
// The central statement is `lemma_round_trip`: decryption undoes
// encryption and verifies, for every cipher that meets the
// `BlockCipher` contract, every nonce, every associated data and
// every message of at least one byte.
// ===================================================================

proof fn lemma_u8_xor(x: u8, y: u8, z: u8)
    by (bit_vector)
    ensures
        (x ^ y) ^ y == x,
        (x ^ (y ^ z)) ^ z == x ^ y,
        x ^ (y ^ x) == y,
{
}

/// XORing the same 16-byte value in twice is the identity.
proof fn lemma_xor_cancel(a: Seq<u8>, b: Seq<u8>)
    requires
        a.len() == BLOCK_LENGTH,
    ensures
        xor_block(xor_block(a, b), b) == a,
{
    assert forall|i: int| 0 <= i < BLOCK_LENGTH implies xor_block(xor_block(a, b), b)[i] == a[i] by {
        lemma_u8_xor(a[i], b[i], 0);
    }
    assert(xor_block(xor_block(a, b), b) =~= a);
}

/// The decrypt-direction chain update lands on the encrypt-direction
/// one: `(x ^ triple(w)) ^ w == x ^ double(w)`.
proof fn lemma_chain_match(x: Seq<u8>, w: Seq<u8>)
    ensures
        xor_block(xor_block(x, spec_triple(w)), w) == xor_block(x, spec_double(w)),
{
    assert forall|i: int|
        0 <= i < BLOCK_LENGTH implies xor_block(xor_block(x, spec_triple(w)), w)[i] == xor_block(
        x,
        spec_double(w),
    )[i] by {
        lemma_u8_xor(x[i], spec_double(w)[i], w[i]);
    }
    assert(xor_block(xor_block(x, spec_triple(w)), w) =~= xor_block(x, spec_double(w)));
}

/// Round trip of one block transform: from one state, decrypting what
/// the encrypt transform produced recovers the block and the same
/// successor state, in every role.
pub proof fn lemma_block_round_trip<BC: BlockCipher, S: Mask>(
    cipher: BC,
    st: SessionState,
    m: Seq<u8>,
)
    requires
        st.wf(),
        m.len() == BLOCK_LENGTH,
    ensures
        dec_block_spec::<BC, S>(cipher, st, enc_block_spec::<BC, S>(cipher, st, m).1).1 == m,
        dec_block_spec::<BC, S>(cipher, st, enc_block_spec::<BC, S>(cipher, st, m).1).0
            == enc_block_spec::<BC, S>(cipher, st, m).0,
{
    S::advance_len(st.delta1);
    S::advance_len(st.delta2);
    let d1 = S::advance(st.delta1);
    let d2 = S::advance(st.delta2);
    let mi = xor_block(m, d1);
    cipher.lemma_inverse(mi);
    let xx = cipher.enc_spec(mi);
    let yy = xor_block(xx, spec_triple(st.w));
    cipher.lemma_inverse(yy);
    let cpre = cipher.enc_spec(yy);
    lemma_xor_cancel(cpre, d2);
    lemma_xor_cancel(xx, spec_triple(st.w));
    lemma_xor_cancel(m, d1);
    lemma_chain_match(xx, st.w);
    assert(dec_block_spec::<BC, S>(cipher, st, enc_block_spec::<BC, S>(cipher, st, m).1).0
        =~= enc_block_spec::<BC, S>(cipher, st, m).0);
}

/// Round trip of one interior step, checksum included.
pub proof fn lemma_process_round_trip<BC: BlockCipher>(cipher: BC, st: SessionState, m: Seq<u8>)
    requires
        st.wf(),
        m.len() == BLOCK_LENGTH,
    ensures
        dec_process_spec(cipher, st, enc_process_spec(cipher, st, m).1).1 == m,
        dec_process_spec(cipher, st, enc_process_spec(cipher, st, m).1).0 == enc_process_spec(
            cipher,
            st,
            m,
        ).0,
{
    let st1 = SessionState { cs: xor_block(st.cs, m), ..st };
    assert(st1.wf());
    lemma_block_round_trip::<BC, Process>(cipher, st1, m);
    let e = enc_process_spec(cipher, st, m);
    let d = dec_process_spec(cipher, st, e.1);
    assert(dec_block_spec::<BC, Process>(cipher, st, e.1).1 == dec_block_spec::<BC, Process>(
        cipher,
        st1,
        e.1,
    ).1);
    assert(d.0 =~= e.0);
}

/// Each interior step leaves a well-formed state behind.
pub proof fn lemma_enc_blocks_wf<BC: BlockCipher>(cipher: BC, st: SessionState, m: Seq<u8>)
    requires
        st.wf(),
    ensures
        enc_blocks_spec(cipher, st, m).0.wf(),
    decreases m.len(),
{
    if m.len() >= BLOCK_LENGTH {
        let r = enc_process_spec(cipher, st, m.take(BLOCK_LENGTH as int));
        assert(r.0.wf());
        lemma_enc_blocks_wf(cipher, r.0, m.skip(BLOCK_LENGTH as int));
    }
}

/// Round trip of any whole number of interior steps.
pub proof fn lemma_blocks_round_trip<BC: BlockCipher>(cipher: BC, st: SessionState, m: Seq<u8>)
    requires
        st.wf(),
        m.len() % 16 == 0,
    ensures
        dec_blocks_spec(cipher, st, enc_blocks_spec(cipher, st, m).1).1 == m,
        dec_blocks_spec(cipher, st, enc_blocks_spec(cipher, st, m).1).0 == enc_blocks_spec(
            cipher,
            st,
            m,
        ).0,
    decreases m.len(),
{
    let e = enc_blocks_spec(cipher, st, m);
    if m.len() < BLOCK_LENGTH {
        assert(m.len() == 0);
        assert(e.1.len() == 0);
        assert(dec_blocks_spec(cipher, st, e.1).1 =~= m);
    } else {
        let mh = m.take(BLOCK_LENGTH as int);
        let mt = m.skip(BLOCK_LENGTH as int);
        let ep = enc_process_spec(cipher, st, mh);
        lemma_process_round_trip(cipher, st, mh);
        assert(ep.0.wf());
        assert(mt.len() % 16 == 0);
        lemma_blocks_round_trip(cipher, ep.0, mt);
        let et = enc_blocks_spec(cipher, ep.0, mt);
        assert((ep.1 + et.1).take(BLOCK_LENGTH as int) =~= ep.1);
        assert((ep.1 + et.1).skip(BLOCK_LENGTH as int) =~= et.1);
        let d = dec_blocks_spec(cipher, st, e.1);
        assert(d.1 =~= m);
    }
}

/// Round trip of finalization: from one state, decrypt-finalizing
/// what encrypt-finalization produced recovers the tail and verifies.
pub proof fn lemma_finalize_round_trip<BC: BlockCipher>(cipher: BC, st: SessionState, tail: Seq<u8>)
    requires
        st.wf(),
        1 <= tail.len() <= BLOCK_LENGTH,
    ensures
        dec_finalize_spec(cipher, st, enc_finalize_spec(cipher, st, tail)).0 == tail,
        dec_finalize_spec(cipher, st, enc_finalize_spec(cipher, st, tail)).1,
{
    let l = tail.len() as int;
    let buf = final_buf(st.cs, tail);
    assert(buf.len() == BLOCK_LENGTH);
    let e1 = if l < BLOCK_LENGTH {
        lemma_block_round_trip::<BC, Last>(cipher, st, buf);
        enc_block_spec::<BC, Last>(cipher, st, buf)
    } else {
        lemma_block_round_trip::<BC, LastFul>(cipher, st, buf);
        enc_block_spec::<BC, LastFul>(cipher, st, buf)
    };
    let e2 = enc_block_spec::<BC, Process>(cipher, e1.0, buf);
    let c = enc_finalize_spec(cipher, st, tail);
    assert(c == e1.1 + e2.1.take(l));
    assert(c.len() == BLOCK_LENGTH + l);
    assert(c.take(BLOCK_LENGTH as int) =~= e1.1);
    assert(c.skip(BLOCK_LENGTH as int) =~= e2.1.take(l));

    // The transformed final block comes back as the combined buffer,
    // and the checksum unmasks it to the tail plus the marker pattern.
    let cs2 = xor_block(st.cs, buf);
    assert forall|i: int| 0 <= i < l implies cs2[i] == tail[i] by {
        lemma_u8_xor(st.cs[i], tail[i], 0);
    }
    assert forall|i: int| l <= i < BLOCK_LENGTH implies cs2[i] == ozs()[i - l] by {
        let v = st.cs[i];
        if i == l {
            assert((v ^ ((0u8 ^ v) ^ 0x80u8)) == 0x80u8) by (bit_vector);
        } else {
            assert((v ^ (0u8 ^ v)) == 0u8) by (bit_vector);
        }
    }
    assert(cs2.take(l) =~= tail);
    assert(cs2.skip(l) =~= ozs().take(BLOCK_LENGTH - l));

    // The recomputed tag block matches: its state differs from the
    // encrypt side's in the checksum alone, which the block transform
    // does not read.
    let r2 = enc_block_spec::<BC, Process>(cipher, SessionState { cs: cs2, ..e1.0 }, buf);
    assert(r2.1 == e2.1);
}

/// Round trip of the whole mode: for every cipher meeting the
/// `BlockCipher` contract, every nonce, every associated data and
/// every message of at least one byte, decrypting the encryption
/// recovers the message and verification succeeds.
pub proof fn lemma_round_trip<BC: BlockCipher>(
    cipher: BC,
    nonce: Seq<u8>,
    aad: Seq<u8>,
    m: Seq<u8>,
)
    requires
        m.len() >= 1,
    ensures
        colm_decrypt_spec(cipher, nonce, aad, colm_encrypt_spec(cipher, nonce, aad, m)).0 == m,
        colm_decrypt_spec(cipher, nonce, aad, colm_encrypt_spec(cipher, nonce, aad, m)).1,
{
    let st0 = init_state(cipher, nonce, aad);
    lemma_init_state_wf(cipher, nonce, aad);
    let take = split_point(m.len() as int);
    assert(take % 16 == 0 && 0 <= take <= m.len() && 1 <= m.len() - take <= 16)
        by (nonlinear_arith)
        requires
            m.len() >= 1,
            take == if m.len() as int % 16 == 0 {
                m.len() as int - 16
            } else {
                m.len() as int / 16 * 16
            },
    ;
    let mh = m.take(take);
    let mt = m.skip(take);
    let e = enc_blocks_spec(cipher, st0, mh);
    assert(mh.len() % 16 == 0);
    lemma_blocks_round_trip(cipher, st0, mh);
    lemma_enc_blocks_wf(cipher, st0, mh);
    lemma_enc_blocks_len(cipher, st0, mh);
    lemma_finalize_round_trip(cipher, e.0, mt);
    let fin = enc_finalize_spec(cipher, e.0, mt);
    let c = colm_encrypt_spec(cipher, nonce, aad, m);
    assert(c == e.1 + fin);
    assert(fin.len() == mt.len() + BLOCK_LENGTH);
    assert(c.len() == m.len() + BLOCK_LENGTH);

    // Decryption splits the ciphertext at the same point.
    assert(crate::model::dec_split_point(c.len() as int) == take) by (nonlinear_arith)
        requires
            m.len() >= 1,
            c.len() == m.len() + 16,
            take == if m.len() as int % 16 == 0 {
                m.len() as int - 16
            } else {
                m.len() as int / 16 * 16
            },
    ;
    assert(c.take(take) =~= e.1);
    assert(c.skip(take) =~= fin);
    let d = dec_blocks_spec(cipher, st0, e.1);
    let f = dec_finalize_spec(cipher, e.0, fin);
    assert(colm_decrypt_spec(cipher, nonce, aad, c).0 == d.1 + f.0);
    assert(d.1 + f.0 =~= m);
}

/// The state a session starts in is well formed.
pub proof fn lemma_init_state_wf<BC: BlockCipher>(cipher: BC, nonce: Seq<u8>, aad: Seq<u8>)
    ensures
        init_state(cipher, nonce, aad).wf(),
{
    cipher.lemma_inverse(zero_block());
    let l = cipher.enc_spec(zero_block());
    let l3 = spec_triple(l);
    let d0 = crate::module::spec_halve(l3);
    let nb = crate::model::absorb_full(cipher, d0, zero_block(), crate::model::pad_zero(nonce));
    lemma_absorb_aad_len(cipher, nb.0, nb.1, aad);
}

/// Absorption keeps the accumulator 16 bytes long.
proof fn lemma_absorb_aad_len<BC: BlockCipher>(cipher: BC, d0: Seq<u8>, w: Seq<u8>, aad: Seq<u8>)
    requires
        w.len() == BLOCK_LENGTH,
    ensures
        absorb_aad(cipher, d0, w, aad).1.len() == BLOCK_LENGTH,
    decreases aad.len(),
{
    if aad.len() >= BLOCK_LENGTH {
        let r = crate::model::absorb_full(cipher, d0, w, aad.take(BLOCK_LENGTH as int));
        lemma_absorb_aad_len(cipher, r.0, r.1, aad.skip(BLOCK_LENGTH as int));
    }
}

/// Halving is the multiplicative inverse of doubling: each undoes
/// the other on every 16-byte value.
pub proof fn lemma_halve_double(s: Seq<u8>)
    requires
        s.len() == BLOCK_LENGTH,
    ensures
        crate::module::spec_halve(spec_double(s)) == s,
        spec_double(crate::module::spec_halve(s)) == s,
{
    let d = spec_double(s);
    let h = crate::module::spec_halve(s);

    // Halving a doubled value gives the value back.
    assert forall|i: int| 0 <= i < BLOCK_LENGTH implies crate::module::spec_halve(d)[i] == s[i] by {
        let a = s[0];
        let z = s[15];
        assert(a >> 7 == 1 ==> ((z << 1) ^ 0x87) & 1 == 1) by (bit_vector);
        assert(a >> 7 != 1 ==> (z << 1) & 1 == 0) by (bit_vector);
        if i == 0 {
            let b = s[1];
            assert(a >> 7 == 1 ==> (((a << 1) | (b >> 7)) >> 1) ^ 0x80 == a) by (bit_vector);
            assert(a >> 7 != 1 ==> ((a << 1) | (b >> 7)) >> 1 == a) by (bit_vector);
        } else if i < 15 {
            let x = s[i - 1];
            let y = s[i];
            let v = s[i + 1];
            if i == 14 {
                assert(a >> 7 == 1 ==> ((((x << 1) | (y >> 7)) << 7) | ((((y << 1) | (((v << 1)
                    ^ 0x87) >> 7))) >> 1)) == y) by (bit_vector);
            }
            assert((((x << 1) | (y >> 7)) << 7) | (((y << 1) | (v >> 7)) >> 1) == y)
                by (bit_vector);
            assert(i < 14 ==> d[i] == (y << 1) | (v >> 7));
            if i == 14 && a >> 7 == 1 {
                assert(d[15] == (z << 1) ^ 0x87);
                assert((((x << 1) | (y >> 7)) << 7) | ((((y << 1) | (((z << 1) ^ 0x87) >> 7)))
                    >> 1) == y) by (bit_vector);
            } else if i == 14 {
                assert(d[15] == z << 1);
                assert((((x << 1) | (y >> 7)) << 7) | ((((y << 1) | ((z << 1) >> 7))) >> 1) == y)
                    by (bit_vector);
            }
        } else {
            let y = s[14];
            if a >> 7 == 1 {
                assert(((((y << 1) | (z >> 7)) << 7) | (((z << 1) ^ 0x87) >> 1)) ^ 0x43 == z)
                    by (bit_vector);
            } else {
                assert((((y << 1) | (z >> 7)) << 7) | ((z << 1) >> 1) == z) by (bit_vector);
            }
        }
    }
    assert(crate::module::spec_halve(d) =~= s);

    // Doubling a halved value gives the value back.
    assert forall|i: int| 0 <= i < BLOCK_LENGTH implies spec_double(h)[i] == s[i] by {
        let a = s[0];
        let z = s[15];
        assert(z & 1 == 1 ==> ((a >> 1) ^ 0x80) >> 7 == 1) by (bit_vector);
        assert(z & 1 != 1 ==> (a >> 1) >> 7 == 0) by (bit_vector);
        if i == 0 {
            let b = s[1];
            if z & 1 == 1 {
                assert((((a >> 1) ^ 0x80) << 1) | (((a << 7) | (b >> 1)) >> 7) == a)
                    by (bit_vector);
            } else {
                assert(((a >> 1) << 1) | (((a << 7) | (b >> 1)) >> 7) == a) by (bit_vector);
            }
        } else if i < 15 {
            let x = s[i - 1];
            let y = s[i];
            let v = s[i + 1];
            if i == 14 && z & 1 == 1 {
                assert(h[15] == ((y << 7) | (z >> 1)) ^ 0x43);
                assert((((x << 7) | (y >> 1)) << 1) | (((((y << 7) | (z >> 1)) ^ 0x43)) >> 7)
                    == y) by (bit_vector);
            } else {
                assert((((x << 7) | (y >> 1)) << 1) | (((y << 7) | (v >> 1)) >> 7) == y)
                    by (bit_vector);
            }
        } else {
            let y = s[14];
            if z & 1 == 1 {
                assert(((((y << 7) | (z >> 1)) ^ 0x43) << 1) ^ 0x87 == z) by (bit_vector)
                    requires
                        z & 1 == 1,
                ;
            } else {
                assert(((y << 7) | (z >> 1)) << 1 == z) by (bit_vector)
                    requires
                        z & 1 != 1,
                ;
            }
        }
    }
    assert(spec_double(h) =~= s);
}

/// Encryption is a pure function of cipher, nonce, associated data
/// and message: identical inputs give byte-identical ciphertext and
/// tag, however often it is invoked.
pub proof fn lemma_encrypt_deterministic<BC: BlockCipher>(
    cipher: BC,
    nonce: Seq<u8>,
    aad: Seq<u8>,
    m: Seq<u8>,
)
    ensures
        colm_encrypt_spec(cipher, nonce, aad, m) == colm_encrypt_spec(cipher, nonce, aad, m),
{
}

} // verus!
