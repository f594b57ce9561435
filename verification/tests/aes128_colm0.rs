use aes::cipher::generic_array::GenericArray;
use aes::cipher::{BlockDecrypt, BlockEncrypt, KeyInit};
use aes::Aes128;
use colm::traits::{BlockCipher, BLOCK_LENGTH, KEY_LENGTH};
use colm::{Colm, NONCE_LENGTH};
use rand::{thread_rng, Rng, RngCore};

struct AesCipher(Aes128);

impl BlockCipher for AesCipher {
    fn enc_spec(&self, _block: vstd::prelude::Seq<u8>) -> vstd::prelude::Seq<u8> {
        panic!()
    }

    fn dec_spec(&self, _block: vstd::prelude::Seq<u8>) -> vstd::prelude::Seq<u8> {
        panic!()
    }

    fn new_spec(_key: vstd::prelude::Seq<u8>) -> Self {
        panic!()
    }

    fn lemma_inverse(&self, _block: vstd::prelude::Seq<u8>) {
    }

    fn new(key: &[u8; KEY_LENGTH]) -> Self {
        AesCipher(Aes128::new(GenericArray::from_slice(key)))
    }

    fn encrypt(&self, block: &mut [u8; BLOCK_LENGTH]) {
        self.0.encrypt_block(GenericArray::from_mut_slice(block));
    }

    fn decrypt(&self, block: &mut [u8; BLOCK_LENGTH]) {
        self.0.decrypt_block(GenericArray::from_mut_slice(block));
    }
}

fn aead_encrypt(key: &[u8; KEY_LENGTH], nonce: &[u8; NONCE_LENGTH], aad: &[u8], m: &[u8], c: &mut [u8]) {
    let cipher: Colm<AesCipher> = Colm::new(key);
    let mut process = cipher.encrypt(nonce, aad);

    let take = if m.len() % 16 == 0 {
        (m.len() / 16 - 1) * 16
    } else {
        m.len() / 16 * 16
    };

    for i in 0..take / BLOCK_LENGTH {
        let mut input = [0u8; BLOCK_LENGTH];
        input.copy_from_slice(&m[i * BLOCK_LENGTH..(i + 1) * BLOCK_LENGTH]);
        let mut output = [0u8; BLOCK_LENGTH];
        process.process(&input, &mut output);
        c[i * BLOCK_LENGTH..(i + 1) * BLOCK_LENGTH].copy_from_slice(&output);
    }
    let tail = process.finalize(&m[take..]);
    c[take..].copy_from_slice(&tail);
}

fn aead_decrypt(key: &[u8; KEY_LENGTH], nonce: &[u8; NONCE_LENGTH], aad: &[u8], c: &[u8], m: &mut [u8]) -> bool {
    let cipher: Colm<AesCipher> = Colm::new(key);
    let mut process = cipher.decrypt(nonce, aad);

    let take = if c.len() % 16 == 0 {
        (c.len() / 16 - 2) * 16
    } else {
        (c.len() / 16 - 1) * 16
    };

    for i in 0..take / BLOCK_LENGTH {
        let mut input = [0u8; BLOCK_LENGTH];
        input.copy_from_slice(&c[i * BLOCK_LENGTH..(i + 1) * BLOCK_LENGTH]);
        let mut output = [0u8; BLOCK_LENGTH];
        process.process(&input, &mut output);
        m[i * BLOCK_LENGTH..(i + 1) * BLOCK_LENGTH].copy_from_slice(&output);
    }
    let (tail, r) = process.finalize(&c[take..]);
    m[take..].copy_from_slice(&tail);
    r
}

#[test]
fn test() {
    const C: &[u8] = &[53, 244, 142, 175, 149, 85, 212, 74, 189, 185, 182, 250, 182, 106, 198, 140, 242, 79, 250, 44, 161, 52, 172, 62, 82, 9, 152, 148, 77, 76, 83, 39, 129, 24, 143, 43, 9, 100, 17, 3, 84, 145, 54, 102, 236, 104, 218, 197, 15, 150, 117, 160, 4, 255, 241, 215, 120, 143];
    const C2: &[u8] = &[209, 198, 126, 145, 80, 152, 227, 101, 42, 149, 162, 178, 117, 240, 195, 217, 19, 53, 49, 74, 70, 89, 213, 202, 147, 38, 111, 15, 143, 198, 7, 252, 122, 83, 72, 23, 169, 190, 11, 221, 115, 71, 95, 112, 190, 203, 216, 72];

    let key = b"keykeykeykeykey!";
    let nonce = b"nonce!!!";
    let m = b"The quick brown fox jumps over a lazy dog.";
    let mut c = vec![0; m.len() + BLOCK_LENGTH];

    // encrypt 1
    aead_encrypt(key, nonce, &m[..10], m, &mut c);
    assert_eq!(c, C);

    // encrypt 2
    let m2 = &m[..32];
    let mut c2 = vec![0; m2.len() + BLOCK_LENGTH];
    aead_encrypt(key, nonce, &m2[..16], m2, &mut c2);
    assert_eq!(c2, C2);

    // decrypt 1
    let mut p = vec![0; m.len()];
    let r = aead_decrypt(key, nonce, &m[..10], &c, &mut p);
    assert!(r);
    assert_eq!(&p[..], &m[..]);

    // decrypt 2
    let mut p2 = vec![0; m2.len()];
    let r = aead_decrypt(key, nonce, &m[..16], &c2, &mut p2);
    assert!(r);
    assert_eq!(&p2[..], &m2[..]);

    // decrypt 3
    let mut p = vec![0; m.len()];
    let mut m3 = *m;
    m3[7] ^= 0x42;
    let r = aead_decrypt(key, nonce, &m3[..10], &c, &mut p);
    assert!(!r);

    // decrypt 4
    let mut p2 = vec![0; m2.len()];
    c2[33] ^= 0x42;
    let r = aead_decrypt(key, nonce, &m[..16], &c2, &mut p2);
    assert!(!r);
}

#[test]
fn test_aead() {
    for i in 0..100 {
        let mut key = [0; KEY_LENGTH];
        let mut nonce = [0; NONCE_LENGTH];
        let mut aad = vec![0; thread_rng().gen_range(1..128)];
        let mut m = vec![0; thread_rng().gen_range(1..256)];
        let mut c = vec![0; m.len() + BLOCK_LENGTH];
        let mut p = vec![0; m.len()];

        thread_rng().fill_bytes(&mut key);
        thread_rng().fill_bytes(&mut nonce);
        thread_rng().fill_bytes(&mut aad);
        thread_rng().fill_bytes(&mut m);

        aead_encrypt(&key, &nonce, &aad, &m, &mut c);
        let r = aead_decrypt(&key, &nonce, &aad, &c, &mut p);
        assert!(r, "{} times", i);
        assert_eq!(p, m, "{} times", i);

        c[0] ^= 0x42;
        let r = aead_decrypt(&key, &nonce, &aad, &c, &mut p);
        assert!(!r, "{} times", i);
    }
}
