use aes::cipher::generic_array::GenericArray;
use aes::cipher::{BlockDecrypt, BlockEncrypt, KeyInit};
use aes::Aes128;
use colm::module::{block_xor, double, halve, p, p_inv, septuple, triple};
use colm::traits::{BlockCipher, BLOCK_LENGTH, KEY_LENGTH};
use colm::Colm;

struct AesCipher(Aes128);

impl BlockCipher for AesCipher {
    fn enc_spec(&self, _block: vstd::prelude::Seq<u8>) -> vstd::prelude::Seq<u8> {
        panic!()
    }

    fn dec_spec(&self, _block: vstd::prelude::Seq<u8>) -> vstd::prelude::Seq<u8> {
        panic!()
    }

    fn new_spec(_key: vstd::prelude::Seq<u8>) -> Self {
        panic!()
    }

    fn lemma_inverse(&self, _block: vstd::prelude::Seq<u8>) {
    }

    fn new(key: &[u8; KEY_LENGTH]) -> Self {
        AesCipher(Aes128::new(GenericArray::from_slice(key)))
    }

    fn encrypt(&self, block: &mut [u8; BLOCK_LENGTH]) {
        self.0.encrypt_block(GenericArray::from_mut_slice(block));
    }

    fn decrypt(&self, block: &mut [u8; BLOCK_LENGTH]) {
        self.0.decrypt_block(GenericArray::from_mut_slice(block));
    }
}

fn handle() -> Colm<AesCipher> {
    Colm::new(b"keykeykeykeykey!")
}

#[test]
fn round_trip_boundary_lengths() {
    let cipher = handle();
    let nonce = b"nonce!!!";
    let aad = b"header";
    let base: Vec<u8> = (0u8..=255).collect();
    // 15: one partial block; 16: one full block; 17: interior + partial;
    // 32: interior + full; the rest for good measure.
    for &len in &[1usize, 15, 16, 17, 31, 32, 33, 255, 256] {
        let m = &base[..len];
        let c = cipher.aead_encrypt(nonce, aad, m);
        assert_eq!(c.len(), len + BLOCK_LENGTH);
        let (p, ok) = cipher.aead_decrypt(nonce, aad, &c);
        assert!(ok, "length {}", len);
        assert_eq!(&p[..], m, "length {}", len);
    }
}

#[test]
fn deterministic_and_streaming_agree() {
    let cipher = handle();
    let nonce = b"nonce!!!";
    let aad = b"aad bytes";
    let m = b"a message of thirty-seven characters!";
    let c1 = cipher.aead_encrypt(nonce, aad, m);
    let c2 = cipher.aead_encrypt(nonce, aad, m);
    assert_eq!(c1, c2);

    // The one-call form equals the streaming form.
    let mut sess = cipher.encrypt(nonce, aad);
    let mut c3 = Vec::new();
    let take = m.len() / 16 * 16;
    for i in 0..take / BLOCK_LENGTH {
        let mut input = [0u8; BLOCK_LENGTH];
        input.copy_from_slice(&m[i * BLOCK_LENGTH..(i + 1) * BLOCK_LENGTH]);
        let mut output = [0u8; BLOCK_LENGTH];
        sess.process(&input, &mut output);
        c3.extend_from_slice(&output);
    }
    c3.extend_from_slice(&sess.finalize(&m[take..]));
    assert_eq!(c1, c3);
}

#[test]
fn aad_changes_the_tag() {
    let cipher = handle();
    let nonce = b"nonce!!!";
    let m = b"twenty bytes of text";
    let c1 = cipher.aead_encrypt(nonce, b"aad one", m);
    let c2 = cipher.aead_encrypt(nonce, b"aad two", m);
    // The tag is the trailing tail-length bytes.
    let tag_at = c1.len() - (m.len() - m.len() / 16 * 16);
    assert_ne!(&c1[tag_at..], &c2[tag_at..]);

    let (_, ok) = cipher.aead_decrypt(nonce, b"aad two", &c1);
    assert!(!ok);
    let (_, ok) = cipher.aead_decrypt(nonce, b"aad one", &c1);
    assert!(ok);
}

#[test]
fn every_bit_flip_fails_verification() {
    let cipher = handle();
    let nonce = b"nonce!!!";
    let aad = b"bound data";
    let m = b"twenty bytes of text";
    let c = cipher.aead_encrypt(nonce, aad, m);
    for byte in 0..c.len() {
        for bit in 0..8 {
            let mut t = c.clone();
            t[byte] ^= 1u8 << bit;
            let (_, ok) = cipher.aead_decrypt(nonce, aad, &t);
            assert!(!ok, "byte {} bit {}", byte, bit);
        }
    }
}

#[test]
fn field_ops_exact_values() {
    // Doubling the block with only the top bit set shifts it out and
    // folds in the reduction constant.
    let mut top = [0u8; BLOCK_LENGTH];
    top[0] = 0x80;
    let mut reduced = [0u8; BLOCK_LENGTH];
    reduced[15] = 0x87;
    assert_eq!(double(&top), reduced);
    assert_eq!(halve(&reduced), top);

    // On the block holding 1, the scalar multiples are literal.
    let mut one = [0u8; BLOCK_LENGTH];
    one[15] = 1;
    let mut two = [0u8; BLOCK_LENGTH];
    two[15] = 2;
    let mut three = [0u8; BLOCK_LENGTH];
    three[15] = 3;
    let mut seven = [0u8; BLOCK_LENGTH];
    seven[15] = 7;
    assert_eq!(double(&one), two);
    assert_eq!(triple(&one), three);
    assert_eq!(septuple(&one), seven);
}

#[test]
fn halve_undoes_double() {
    let mut v = [0u8; BLOCK_LENGTH];
    for i in 0..BLOCK_LENGTH {
        v[i] = (37 * i + 11) as u8;
    }
    assert_eq!(halve(&double(&v)), v);
    assert_eq!(double(&halve(&v)), v);
}

#[test]
fn mixing_matches_its_equations() {
    let mut w = [0u8; BLOCK_LENGTH];
    let mut x = [0u8; BLOCK_LENGTH];
    for i in 0..BLOCK_LENGTH {
        w[i] = (3 * i + 1) as u8;
        x[i] = (251 * i + 5) as u8;
    }
    let w0 = w;
    let mut y = [0u8; BLOCK_LENGTH];
    p(&mut w, &mut y, &x);
    assert_eq!(y, block_xor(&x, &triple(&w0)));
    assert_eq!(w, block_xor(&x, &double(&w0)));

    let mut w2 = w0;
    let mut y2 = [0u8; BLOCK_LENGTH];
    p_inv(&mut w2, &mut y2, &x);
    assert_eq!(y2, block_xor(&x, &triple(&w0)));
    assert_eq!(w2, block_xor(&x, &w0));
}
