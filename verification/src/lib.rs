use vstd::prelude::*;

use subtle::ConstantTimeEq;

pub mod laws;
pub mod model;
pub mod module;
pub mod traits;

use crate::model::{
    colm_decrypt_spec, colm_encrypt_spec, dec_block_spec, dec_blocks_spec, dec_finalize_spec,
    dec_process_spec, enc_block_spec, enc_blocks_spec, enc_finalize_spec, enc_process_spec,
    init_spec, init_state, lemma_dec_blocks_len, lemma_enc_blocks_len, SessionState,
};
use crate::module::{
    block_xor, double, halve, p, p_inv, septuple, triple, Last, LastFul, Mask, Process, Tag,
};
use crate::traits::{BlockCipher, BLOCK_LENGTH, KEY_LENGTH};

verus! {

/// Length in bytes of a session nonce.
pub const NONCE_LENGTH: usize = 8;

/// The unit of all operations: one 16-byte cipher block.
pub type Block = [u8; BLOCK_LENGTH];

/// A cipher handle: the block cipher constructed once from a key,
/// immutable afterwards and shared read-only by all sessions opened
/// from it.
#[derive(Debug, Clone)]
pub struct Colm<BC: BlockCipher>(BC);

/// Marks a session opened for encryption.
pub struct E;

/// Marks a session opened for decryption.
pub struct D;

/// A live session: the cipher handle, the two evolving masks, the
/// chain value and the checksum accumulator, tagged with its mode.
pub struct Process0<'a, BC: BlockCipher, Mode> {
    cipher: &'a BC,
    delta1: Block,
    delta2: Block,
    w: Block,
    cs: Block,
    _mode: Mode,
}

impl<'a, BC: BlockCipher, Mode> Process0<'a, BC, Mode> {
    /// The cipher this session works under.
    pub closed spec fn cipher_spec(&self) -> BC {
        *self.cipher
    }
}

impl<'a, BC: BlockCipher, Mode> View for Process0<'a, BC, Mode> {
    type V = SessionState;

    closed spec fn view(&self) -> SessionState {
        SessionState { delta1: self.delta1@, delta2: self.delta2@, w: self.w@, cs: self.cs@ }
    }
}

impl<BC: BlockCipher> Colm<BC> {
    /// The underlying cipher value.
    pub closed spec fn cipher(&self) -> BC {
        self.0
    }

    /// Construct the cipher handle from a 16-byte key.
    pub fn new(key: &[u8; KEY_LENGTH]) -> (r: Self)
        ensures
            r.cipher() == BC::new_spec(key@),
    {
        Colm(BC::new(key))
    }

    /// Derive the session masks and the initial chain value from one
    /// cipher call plus absorption of the nonce and associated data.
    fn init(&self, nonce: &[u8; NONCE_LENGTH], aad: &[u8]) -> (r: (Block, Block, Block))
        ensures
            (r.0@, r.1@, r.2@) == init_spec(self.cipher(), nonce@, aad@),
    {
        let mut l: Block = [0u8; BLOCK_LENGTH];
        proof {
            assert(l@ =~= crate::module::zero_block());
        }
        self.0.encrypt(&mut l);
        let l3 = triple(&l);
        let mut delta0 = halve(&l3);
        let delta1: Block = l;
        let delta2 = triple(&l3);

        // Absorb the nonce block: the nonce left-aligned in a zero
        // block, taken as a full 16-byte chunk (the absorption mask
        // doubles and no marker byte is set).
        let mut nonce_blk: Block = [0u8; BLOCK_LENGTH];
        let mut i: usize = 0;
        while i < NONCE_LENGTH
            invariant
                i <= NONCE_LENGTH,
                forall|j: int| 0 <= j < i ==> nonce_blk@[j] == nonce@[j],
                forall|j: int| i <= j < BLOCK_LENGTH ==> nonce_blk@[j] == 0u8,
            decreases NONCE_LENGTH - i,
        {
            nonce_blk[i] = nonce[i];
            i += 1;
        }
        proof {
            assert(nonce_blk@ =~= crate::model::pad_zero(nonce@));
        }
        let mut w: Block = [0u8; BLOCK_LENGTH];
        delta0 = double(&delta0);
        let mut xx = block_xor(&nonce_blk, &delta0);
        self.0.encrypt(&mut xx);
        w = block_xor(&w, &xx);
        proof {
            assert(w@ =~= crate::model::absorb_full(
                self.cipher(),
                crate::module::spec_halve(l3@),
                crate::module::zero_block(),
                crate::model::pad_zero(nonce@),
            ).1);
        }

        // Absorb the associated data, a chunk at a time.
        let ghost d0_n: Seq<u8> = delta0@;
        let ghost w_n: Seq<u8> = w@;
        let mut off: usize = 0;
        let aad_n: usize = aad.len();
        proof {
            assert(aad@.len() == aad_n);
            assert(aad@.skip(0) =~= aad@);
        }
        while aad.len() - off >= BLOCK_LENGTH
            invariant
                off <= aad.len(),
                aad@.len() <= usize::MAX,
                crate::model::absorb_aad(self.cipher(), delta0@, w@, aad@.skip(off as int))
                    == crate::model::absorb_aad(self.cipher(), d0_n, w_n, aad@),
            decreases aad.len() - off,
        {
            let chunk = read_block(aad, off);
            proof {
                assert(aad@.skip(off as int).take(BLOCK_LENGTH as int) =~= chunk@);
                assert(aad@.skip(off as int).skip(BLOCK_LENGTH as int) =~= aad@.skip(
                    off + BLOCK_LENGTH,
                ));
            }
            delta0 = double(&delta0);
            let mut cx = block_xor(&chunk, &delta0);
            self.0.encrypt(&mut cx);
            w = block_xor(&w, &cx);
            off += BLOCK_LENGTH;
        }
        if off < aad.len() {
            let chunk = read_padded(aad, off);
            proof {
                assert(crate::model::pad_mark(aad@.skip(off as int)) =~= chunk@);
            }
            delta0 = septuple(&delta0);
            let mut cx = block_xor(&chunk, &delta0);
            self.0.encrypt(&mut cx);
            w = block_xor(&w, &cx);
            proof {
                assert(aad@.skip(off as int).len() < BLOCK_LENGTH);
            }
        }

        (delta1, delta2, w)
    }

    /// Open an encryption session over a nonce and associated data.
    pub fn encrypt<'a>(&'a self, nonce: &[u8; NONCE_LENGTH], aad: &[u8]) -> (s: Process0<
        'a,
        BC,
        E,
    >)
        ensures
            s@ == init_state(self.cipher(), nonce@, aad@),
            s.cipher_spec() == self.cipher(),
    {
        let (delta1, delta2, w) = self.init(nonce, aad);
        let s = Process0 { cipher: &self.0, delta1, delta2, w, cs: [0u8; BLOCK_LENGTH], _mode: E };
        proof {
            assert(s@ =~= init_state(self.cipher(), nonce@, aad@));
        }
        s
    }

    /// Open a decryption session over a nonce and associated data.
    pub fn decrypt<'a>(&'a self, nonce: &[u8; NONCE_LENGTH], aad: &[u8]) -> (s: Process0<
        'a,
        BC,
        D,
    >)
        ensures
            s@ == init_state(self.cipher(), nonce@, aad@),
            s.cipher_spec() == self.cipher(),
    {
        let (delta1, delta2, w) = self.init(nonce, aad);
        let s = Process0 { cipher: &self.0, delta1, delta2, w, cs: [0u8; BLOCK_LENGTH], _mode: D };
        proof {
            assert(s@ =~= init_state(self.cipher(), nonce@, aad@));
        }
        s
    }
}

impl<BC: BlockCipher> Colm<BC> {
    /// Encrypt a whole message of at least one byte in one call: the
    /// interior blocks stream through an encryption session, the tail
    /// is finalized, and the result is the complete ciphertext
    /// followed by the tag.
    pub fn aead_encrypt(&self, nonce: &[u8; NONCE_LENGTH], aad: &[u8], m: &[u8]) -> (c: Vec<u8>)
        requires
            1 <= m@.len(),
            m@.len() + BLOCK_LENGTH <= usize::MAX,
        ensures
            c@ == colm_encrypt_spec(self.cipher(), nonce@, aad@, m@),
            c@.len() == m@.len() + BLOCK_LENGTH,
    {
        let mut sess = self.encrypt(nonce, aad);
        let take: usize = if m.len() % BLOCK_LENGTH == 0 {
            m.len() - BLOCK_LENGTH
        } else {
            m.len() / BLOCK_LENGTH * BLOCK_LENGTH
        };
        proof {
            assert(take == crate::model::split_point(m@.len() as int));
            assert(take % 16 == 0 && take <= m@.len() && 1 <= m@.len() - take <= 16)
                by (nonlinear_arith)
                requires
                    m@.len() >= 1,
                    take == if m@.len() as int % 16 == 0 {
                        m@.len() as int - 16
                    } else {
                        m@.len() as int / 16 * 16
                    },
            ;
        }
        let ghost st0 = sess@;
        let ghost interior = m@.take(take as int);
        let mut c: Vec<u8> = Vec::new();
        let mut off: usize = 0;
        proof {
            assert(interior.skip(0) =~= interior);
        }
        while off < take
            invariant
                off <= take,
                off % BLOCK_LENGTH == 0,
                take % BLOCK_LENGTH == 0,
                take <= m@.len(),
                m@.len() + BLOCK_LENGTH <= usize::MAX,
                interior == m@.take(take as int),
                sess.cipher_spec() == self.cipher(),
                enc_blocks_spec(self.cipher(), sess@, interior.skip(off as int)).0
                    == enc_blocks_spec(self.cipher(), st0, interior).0,
                c@ + enc_blocks_spec(self.cipher(), sess@, interior.skip(off as int)).1
                    == enc_blocks_spec(self.cipher(), st0, interior).1,
            decreases take - off,
        {
            let ghost pre_st = sess@;
            let ghost pre_c = c@;
            let ghost rest = interior.skip(off as int);
            let blk = read_block(m, off);
            proof {
                assert(rest.take(BLOCK_LENGTH as int) =~= blk@);
                assert(rest.skip(BLOCK_LENGTH as int) =~= interior.skip(off + BLOCK_LENGTH));
            }
            let mut outb: Block = [0u8; BLOCK_LENGTH];
            sess.process(&blk, &mut outb);
            push_prefix(&mut c, &outb, BLOCK_LENGTH);
            off += BLOCK_LENGTH;
            proof {
                assert(outb@.take(BLOCK_LENGTH as int) =~= outb@);
                let r = enc_process_spec(self.cipher(), pre_st, blk@);
                let rest2 = enc_blocks_spec(self.cipher(), r.0, rest.skip(BLOCK_LENGTH as int));
                assert(pre_c + (r.1 + rest2.1) =~= (pre_c + r.1) + rest2.1);
            }
        }
        let ghost blocks = enc_blocks_spec(self.cipher(), st0, interior);
        proof {
            assert(interior.skip(take as int).len() == 0);
            assert(sess@ == blocks.0);
            assert(c@ + Seq::<u8>::empty() =~= c@);
        }
        let tailv = read_range(m, take, m.len());
        proof {
            assert(tailv@ =~= m@.skip(take as int));
        }
        let t = sess.finalize(tailv.as_slice());
        push_vec(&mut c, &t);
        proof {
            assert(c@ == colm_encrypt_spec(self.cipher(), nonce@, aad@, m@));
            assert(enc_finalize_spec(self.cipher(), blocks.0, m@.skip(take as int)).len()
                == m@.skip(take as int).len() + BLOCK_LENGTH);
            assert(blocks.1.len() == take) by {
                lemma_enc_blocks_len(self.cipher(), st0, interior);
            }
        }
        c
    }

    /// Decrypt a whole ciphertext of at least 17 bytes in one call:
    /// the recovered plaintext, 16 bytes shorter than the input, and
    /// the verification verdict. On a false verdict the recovered
    /// bytes must be treated as untrusted.
    pub fn aead_decrypt(&self, nonce: &[u8; NONCE_LENGTH], aad: &[u8], c: &[u8]) -> (r: (
        Vec<u8>,
        bool,
    ))
        requires
            BLOCK_LENGTH < c@.len(),
        ensures
            r.0@ == colm_decrypt_spec(self.cipher(), nonce@, aad@, c@).0,
            r.1 == colm_decrypt_spec(self.cipher(), nonce@, aad@, c@).1,
            r.0@.len() == c@.len() - BLOCK_LENGTH,
    {
        let mut sess = self.decrypt(nonce, aad);
        let take: usize = if c.len() % BLOCK_LENGTH == 0 {
            c.len() - 2 * BLOCK_LENGTH
        } else {
            (c.len() / BLOCK_LENGTH - 1) * BLOCK_LENGTH
        };
        proof {
            assert(c@.len() % 16 == 0 ==> c@.len() >= 32) by (nonlinear_arith)
                requires
                    c@.len() > 16,
            ;
            assert(c@.len() / 16 >= 1) by (nonlinear_arith)
                requires
                    c@.len() > 16,
            ;
            assert(take == crate::model::dec_split_point(c@.len() as int));
            assert(take % 16 == 0 && take + 16 < c@.len() && c@.len() - take <= 32)
                by (nonlinear_arith)
                requires
                    c@.len() > 16,
                    take == if c@.len() as int % 16 == 0 {
                        c@.len() as int - 32
                    } else {
                        (c@.len() as int / 16 - 1) * 16
                    },
            ;
        }
        let ghost st0 = sess@;
        let ghost interior = c@.take(take as int);
        let mut out: Vec<u8> = Vec::new();
        let mut off: usize = 0;
        proof {
            assert(interior.skip(0) =~= interior);
        }
        while off < take
            invariant
                off <= take,
                off % BLOCK_LENGTH == 0,
                take % BLOCK_LENGTH == 0,
                take + BLOCK_LENGTH < c@.len(),
                c@.len() <= usize::MAX,
                interior == c@.take(take as int),
                sess.cipher_spec() == self.cipher(),
                dec_blocks_spec(self.cipher(), sess@, interior.skip(off as int)).0
                    == dec_blocks_spec(self.cipher(), st0, interior).0,
                out@ + dec_blocks_spec(self.cipher(), sess@, interior.skip(off as int)).1
                    == dec_blocks_spec(self.cipher(), st0, interior).1,
            decreases take - off,
        {
            let ghost pre_st = sess@;
            let ghost pre_out = out@;
            let ghost rest = interior.skip(off as int);
            let blk = read_block(c, off);
            proof {
                assert(rest.take(BLOCK_LENGTH as int) =~= blk@);
                assert(rest.skip(BLOCK_LENGTH as int) =~= interior.skip(off + BLOCK_LENGTH));
            }
            let mut outb: Block = [0u8; BLOCK_LENGTH];
            sess.process(&blk, &mut outb);
            push_prefix(&mut out, &outb, BLOCK_LENGTH);
            off += BLOCK_LENGTH;
            proof {
                assert(outb@.take(BLOCK_LENGTH as int) =~= outb@);
                let r = dec_process_spec(self.cipher(), pre_st, blk@);
                let rest2 = dec_blocks_spec(self.cipher(), r.0, rest.skip(BLOCK_LENGTH as int));
                assert(pre_out + (r.1 + rest2.1) =~= (pre_out + r.1) + rest2.1);
            }
        }
        let ghost blocks = dec_blocks_spec(self.cipher(), st0, interior);
        proof {
            assert(interior.skip(take as int).len() == 0);
            assert(sess@ == blocks.0);
            assert(out@ + Seq::<u8>::empty() =~= out@);
        }
        let tailv = read_range(c, take, c.len());
        proof {
            assert(tailv@ =~= c@.skip(take as int));
        }
        let f = sess.finalize(tailv.as_slice());
        push_vec(&mut out, &f.0);
        proof {
            assert(out@ == colm_decrypt_spec(self.cipher(), nonce@, aad@, c@).0);
            assert(blocks.1.len() == take) by {
                lemma_dec_blocks_len(self.cipher(), st0, interior);
            }
            assert(dec_finalize_spec(self.cipher(), blocks.0, c@.skip(take as int)).0.len()
                == c@.len() - take - BLOCK_LENGTH);
        }
        (out, f.1)
    }
}

/// Append a whole vector's bytes to another.
fn push_vec(v: &mut Vec<u8>, t: &Vec<u8>)
    ensures
        final(v)@ == old(v)@ + t@,
{
    let n: usize = t.len();
    let mut i: usize = 0;
    proof {
        assert(v@ =~= old(v)@ + t@.take(0));
    }
    while i < n
        invariant
            i <= n,
            n == t@.len(),
            v@ == old(v)@ + t@.take(i as int),
        decreases n - i,
    {
        v.push(t[i]);
        i += 1;
        proof {
            assert(v@ =~= old(v)@ + t@.take(i as int));
        }
    }
    proof {
        assert(old(v)@ + t@.take(n as int) =~= old(v)@ + t@);
    }
}

impl<'a, BC: BlockCipher> Process0<'a, BC, E> {
    /// The encrypt-direction block transform: mask-advance on the
    /// input side, two cipher calls around the mixing function, and
    /// mask-advance on the output side.
    pub(crate) fn process_block<State: Mask>(&mut self, input: &Block, output: &mut Block)
        ensures
            final(self)@ == enc_block_spec::<BC, State>(
                old(self).cipher_spec(),
                old(self)@,
                input@,
            ).0,
            final(output)@ == enc_block_spec::<BC, State>(
                old(self).cipher_spec(),
                old(self)@,
                input@,
            ).1,
            final(self).cipher_spec() == old(self).cipher_spec(),
    {
        let mut xx: Block = [0u8; BLOCK_LENGTH];
        let mut yy: Block = [0u8; BLOCK_LENGTH];
        State::mask(&mut self.delta1, &mut xx, input);
        self.cipher.encrypt(&mut xx);
        p(&mut self.w, &mut yy, &xx);
        self.cipher.encrypt(&mut yy);
        State::mask(&mut self.delta2, output, &yy);
        proof {
            assert(self@ =~= enc_block_spec::<BC, State>(
                old(self).cipher_spec(),
                old(self)@,
                input@,
            ).0);
        }
    }

    /// Encrypt one interior block: the plaintext folds into the
    /// checksum, then the block transform runs.
    pub fn process(&mut self, input: &Block, output: &mut Block)
        ensures
            final(self)@ == enc_process_spec(old(self).cipher_spec(), old(self)@, input@).0,
            final(output)@ == enc_process_spec(old(self).cipher_spec(), old(self)@, input@).1,
            final(self).cipher_spec() == old(self).cipher_spec(),
    {
        self.cs = block_xor(&self.cs, input);
        proof {
            assert(self@ =~= SessionState {
                cs: crate::module::xor_block(old(self)@.cs, input@),
                ..old(self)@
            });
        }
        self.process_block::<Process>(input, output);
    }

    /// Close an encryption session on the message tail of 1 to 16
    /// bytes: the returned bytes are the final output block followed
    /// by the tag, whose length equals the tail's.
    pub fn finalize(self, input: &[u8]) -> (out: Vec<u8>)
        requires
            1 <= input@.len() <= BLOCK_LENGTH,
        ensures
            out@ == enc_finalize_spec(self.cipher_spec(), self@, input@),
    {
        let mut this = self;
        let len: usize = input.len();
        let mut buf: Block = [0u8; BLOCK_LENGTH];
        let mut i: usize = 0;
        while i < len
            invariant
                i <= len,
                len == input@.len(),
                len <= BLOCK_LENGTH,
                forall|j: int| 0 <= j < i ==> buf@[j] == input@[j],
                forall|j: int| i <= j < BLOCK_LENGTH ==> buf@[j] == 0u8,
            decreases len - i,
        {
            buf[i] = input[i];
            i += 1;
        }
        proof {
            assert(buf@ =~= crate::model::pad_zero(input@));
        }
        buf = block_xor(&buf, &this.cs);
        let mut outblk: Block = [0u8; BLOCK_LENGTH];
        if len < BLOCK_LENGTH {
            buf[len] = buf[len] ^ 0x80;
            proof {
                assert(buf@ =~= crate::model::final_buf(self@.cs, input@));
            }
            this.process_block::<Last>(&buf, &mut outblk);
        } else {
            proof {
                assert(buf@ =~= crate::model::final_buf(self@.cs, input@));
            }
            this.process_block::<LastFul>(&buf, &mut outblk);
        }
        let mut tmp: Block = [0u8; BLOCK_LENGTH];
        this.process_block::<Tag>(&buf, &mut tmp);
        let mut out: Vec<u8> = Vec::new();
        push_prefix(&mut out, &outblk, BLOCK_LENGTH);
        push_prefix(&mut out, &tmp, len);
        proof {
            assert(out@ =~= enc_finalize_spec(self.cipher_spec(), self@, input@));
        }
        out
    }
}

impl<'a, BC: BlockCipher> Process0<'a, BC, D> {
    /// The decrypt-direction block transform: the mirror of the
    /// encrypt direction, with the mask roles swapped and the cipher
    /// inverted.
    pub(crate) fn process_block<State: Mask>(&mut self, input: &Block, output: &mut Block)
        ensures
            final(self)@ == dec_block_spec::<BC, State>(
                old(self).cipher_spec(),
                old(self)@,
                input@,
            ).0,
            final(output)@ == dec_block_spec::<BC, State>(
                old(self).cipher_spec(),
                old(self)@,
                input@,
            ).1,
            final(self).cipher_spec() == old(self).cipher_spec(),
    {
        let mut xx: Block = [0u8; BLOCK_LENGTH];
        let mut yy: Block = [0u8; BLOCK_LENGTH];
        State::mask(&mut self.delta2, &mut xx, input);
        self.cipher.decrypt(&mut xx);
        p_inv(&mut self.w, &mut yy, &xx);
        self.cipher.decrypt(&mut yy);
        State::mask(&mut self.delta1, output, &yy);
        proof {
            assert(self@ =~= dec_block_spec::<BC, State>(
                old(self).cipher_spec(),
                old(self)@,
                input@,
            ).0);
        }
    }

    /// Decrypt one interior block: the block transform runs, then the
    /// recovered plaintext folds into the checksum.
    pub fn process(&mut self, input: &Block, output: &mut Block)
        ensures
            final(self)@ == dec_process_spec(old(self).cipher_spec(), old(self)@, input@).0,
            final(output)@ == dec_process_spec(old(self).cipher_spec(), old(self)@, input@).1,
            final(self).cipher_spec() == old(self).cipher_spec(),
    {
        self.process_block::<Process>(input, output);
        self.cs = block_xor(&self.cs, output);
        proof {
            assert(self@ =~= dec_process_spec(old(self).cipher_spec(), old(self)@, input@).0);
        }
    }

    /// Close a decryption session on the trailing bytes of the
    /// ciphertext: one full block plus a tag of 1 to 16 bytes. The
    /// returned bytes are the recovered plaintext tail; the boolean
    /// says whether both constant-time verification checks passed.
    /// On failure the recovered bytes must be treated as untrusted.
    pub fn finalize(self, input: &[u8]) -> (r: (Vec<u8>, bool))
        requires
            BLOCK_LENGTH < input@.len() <= 2 * BLOCK_LENGTH,
        ensures
            r.0@ == dec_finalize_spec(self.cipher_spec(), self@, input@).0,
            r.1 == dec_finalize_spec(self.cipher_spec(), self@, input@).1,
    {
        let mut this = self;
        let len: usize = input.len() - BLOCK_LENGTH;
        let cblk: Block = read_block(input, 0);
        proof {
            assert(cblk@ =~= input@.take(BLOCK_LENGTH as int));
        }
        let mut buf: Block = [0u8; BLOCK_LENGTH];
        if len < BLOCK_LENGTH {
            this.process_block::<Last>(&cblk, &mut buf);
        } else {
            this.process_block::<LastFul>(&cblk, &mut buf);
        }
        this.cs = block_xor(&this.cs, &buf);
        let ghost st_mid: SessionState = this@;

        // The recovered plaintext tail comes straight out of the
        // checksum accumulator.
        let mut out: Vec<u8> = Vec::new();
        push_prefix(&mut out, &this.cs, len);

        // First check: the checksum bytes beyond the tag length must
        // be the 0x80 marker followed by zeros.
        let mut rem: Vec<u8> = Vec::new();
        push_range(&mut rem, &this.cs, len, BLOCK_LENGTH);
        let mut expect: Vec<u8> = Vec::new();
        let mut j: usize = 0;
        while j < BLOCK_LENGTH - len
            invariant
                len <= BLOCK_LENGTH,
                j <= BLOCK_LENGTH - len,
                expect@ == crate::model::ozs().take(j as int),
            decreases BLOCK_LENGTH - len - j,
        {
            if j == 0 {
                expect.push(0x80u8);
            } else {
                expect.push(0u8);
            }
            j += 1;
            proof {
                assert(expect@ =~= crate::model::ozs().take(j as int));
            }
        }
        let ok1: bool = ct_bytes_eq(rem.as_slice(), expect.as_slice());

        // Second check: recompute the tag over the same buffer with
        // the tag role, in the encrypt direction.
        let Process0 { cipher, delta1, delta2, w, cs, _mode } = this;
        let mut etag: Process0<BC, E> = Process0 { cipher, delta1, delta2, w, cs, _mode: E };
        proof {
            assert(etag@ =~= st_mid);
        }
        let mut tmp: Block = [0u8; BLOCK_LENGTH];
        etag.process_block::<Tag>(&buf, &mut tmp);
        let tagv: Vec<u8> = read_range(input, BLOCK_LENGTH, input.len());
        let mut tmpv: Vec<u8> = Vec::new();
        push_prefix(&mut tmpv, &tmp, len);
        let ok2: bool = ct_bytes_eq(tagv.as_slice(), tmpv.as_slice());
        proof {
            let cipher_s = self.cipher_spec();
            let l = input@.len() - BLOCK_LENGTH;
            let cblk_s = input@.take(BLOCK_LENGTH as int);
            let r1 = if l < BLOCK_LENGTH {
                dec_block_spec::<BC, Last>(cipher_s, self@, cblk_s)
            } else {
                dec_block_spec::<BC, LastFul>(cipher_s, self@, cblk_s)
            };
            let cs2 = crate::module::xor_block(self@.cs, r1.1);
            assert(buf@ == r1.1);
            assert(st_mid =~= SessionState { cs: cs2, ..r1.0 });
            assert(out@ =~= cs2.take(l));
            assert(rem@ =~= cs2.skip(l));
            assert(expect@ =~= crate::model::ozs().take(BLOCK_LENGTH - l));
            let r2 = enc_block_spec::<BC, Process>(cipher_s, SessionState { cs: cs2, ..r1.0 }, r1.1);
            assert(tmp@ == r2.1);
            assert(tagv@ =~= input@.skip(BLOCK_LENGTH as int));
            assert(tmpv@ =~= r2.1.take(l));
            let s = dec_finalize_spec(cipher_s, self@, input@);
            assert(out@ == s.0);
            assert((ok1 && ok2) == s.1);
        }
        (out, ok1 && ok2)
    }
}

/// Relies on subtle's `ConstantTimeEq` for byte slices: `ct_eq` holds
/// exactly when the two slices have equal length and equal contents,
/// compared without an early exit on the first mismatch.
#[verifier::external_body]
fn ct_bytes_eq(a: &[u8], b: &[u8]) -> (r: bool)
    ensures
        r == (a@ == b@),
{
    a.ct_eq(b).unwrap_u8() == 1
}

/// Append the first `n` bytes of a block to a byte vector.
fn push_prefix(v: &mut Vec<u8>, b: &Block, n: usize)
    requires
        n <= BLOCK_LENGTH,
    ensures
        final(v)@ == old(v)@ + b@.take(n as int),
{
    let mut i: usize = 0;
    proof {
        assert(v@ =~= old(v)@ + b@.take(0));
    }
    while i < n
        invariant
            i <= n,
            n <= BLOCK_LENGTH,
            v@ == old(v)@ + b@.take(i as int),
        decreases n - i,
    {
        v.push(b[i]);
        i += 1;
        proof {
            assert(v@ =~= old(v)@ + b@.take(i as int));
        }
    }
}

/// Append bytes `from..to` of a block to a byte vector.
fn push_range(v: &mut Vec<u8>, b: &Block, from: usize, to: usize)
    requires
        from <= to <= BLOCK_LENGTH,
    ensures
        final(v)@ == old(v)@ + b@.subrange(from as int, to as int),
{
    let mut i: usize = from;
    proof {
        assert(v@ =~= old(v)@ + b@.subrange(from as int, from as int));
    }
    while i < to
        invariant
            from <= i <= to,
            to <= BLOCK_LENGTH,
            v@ == old(v)@ + b@.subrange(from as int, i as int),
        decreases to - i,
    {
        v.push(b[i]);
        i += 1;
        proof {
            assert(v@ =~= old(v)@ + b@.subrange(from as int, i as int));
        }
    }
}

/// The bytes `from..to` of a slice, as a fresh vector.
fn read_range(s: &[u8], from: usize, to: usize) -> (v: Vec<u8>)
    requires
        from <= to <= s@.len(),
    ensures
        v@ == s@.subrange(from as int, to as int),
{
    let mut v: Vec<u8> = Vec::new();
    let mut i: usize = from;
    while i < to
        invariant
            from <= i <= to,
            to <= s@.len(),
            v@ == s@.subrange(from as int, i as int),
        decreases to - i,
    {
        v.push(s[i]);
        i += 1;
        proof {
            assert(v@ =~= s@.subrange(from as int, i as int));
        }
    }
    v
}

/// The 16 bytes of `s` that start at `off`, as a block.
fn read_block(s: &[u8], off: usize) -> (r: Block)
    requires
        off + BLOCK_LENGTH <= s@.len(),
    ensures
        r@ == s@.subrange(off as int, off + BLOCK_LENGTH),
{
    let mut r: Block = [0u8; BLOCK_LENGTH];
    let n: usize = s.len();
    let mut i: usize = 0;
    while i < BLOCK_LENGTH
        invariant
            i <= BLOCK_LENGTH,
            off + BLOCK_LENGTH <= n,
            n == s@.len(),
            forall|j: int| 0 <= j < i ==> r@[j] == s@[off + j],
        decreases BLOCK_LENGTH - i,
    {
        r[i] = s[off + i];
        i += 1;
    }
    proof {
        assert(r@ =~= s@.subrange(off as int, off + BLOCK_LENGTH));
    }
    r
}

/// The bytes of `s` from `off` to the end, marker-padded to a block.
fn read_padded(s: &[u8], off: usize) -> (r: Block)
    requires
        off < s@.len(),
        s@.len() - off < BLOCK_LENGTH,
    ensures
        r@ == crate::model::pad_mark(s@.skip(off as int)),
{
    let mut r: Block = [0u8; BLOCK_LENGTH];
    let len: usize = s.len() - off;
    let mut i: usize = 0;
    while i < len
        invariant
            i <= len,
            off + len == s@.len(),
            off + len <= usize::MAX,
            len < BLOCK_LENGTH,
            forall|j: int| 0 <= j < i ==> r@[j] == s@[off + j],
            forall|j: int| i <= j < BLOCK_LENGTH ==> r@[j] == 0u8,
        decreases len - i,
    {
        r[i] = s[off + i];
        i += 1;
    }
    r[len] = 0x80;
    proof {
        assert(r@ =~= crate::model::pad_mark(s@.skip(off as int)));
    }
    r
}

} // verus!
