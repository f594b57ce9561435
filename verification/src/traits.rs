use vstd::prelude::*;

verus! {

/// Length in bytes of a block-cipher key.
pub const KEY_LENGTH: usize = 16;

/// Length in bytes of a cipher block.
pub const BLOCK_LENGTH: usize = 16;

/// A 16-byte-block substitution cipher, supplied by the caller.
///
/// The mode is proved correct for every implementation on which `encrypt` and
/// `decrypt` act as the mutually inverse block permutations `enc_spec` and
/// `dec_spec`, as `lemma_inverse` states. Implementations live outside this
/// crate and are not verified here: the guarantees of the mode hold of those
/// that meet this contract.
pub trait BlockCipher: Sized {
    /// The permutation that `encrypt` applies to a block; a function of the
    /// cipher value (that is, of the key) and the block alone.
    spec fn enc_spec(&self, block: Seq<u8>) -> Seq<u8>;

    /// The permutation that `decrypt` applies to a block.
    spec fn dec_spec(&self, block: Seq<u8>) -> Seq<u8>;

    /// The cipher value constructed from a key.
    spec fn new_spec(key: Seq<u8>) -> Self;

    /// `encrypt` and `decrypt` are mutually inverse on 16-byte blocks.
    proof fn lemma_inverse(&self, block: Seq<u8>)
        requires
            block.len() == BLOCK_LENGTH,
        ensures
            self.enc_spec(block).len() == BLOCK_LENGTH,
            self.dec_spec(block).len() == BLOCK_LENGTH,
            self.dec_spec(self.enc_spec(block)) == block,
            self.enc_spec(self.dec_spec(block)) == block,
    ;

    fn new(key: &[u8; KEY_LENGTH]) -> (r: Self)
        ensures
            r == Self::new_spec(key@),
    ;

    fn encrypt(&self, block: &mut [u8; BLOCK_LENGTH])
        ensures
            final(block)@ == self.enc_spec(old(block)@),
    ;

    fn decrypt(&self, block: &mut [u8; BLOCK_LENGTH])
        ensures
            final(block)@ == self.dec_spec(old(block)@),
    ;
}

} // verus!
