//! Whole-stream encryption: AES-128 operated in eight-bit cipher feedback
//! mode, so that each wire byte depends on the key and on every byte that
//! went before it. The cipher itself comes from the aes and cfb8 crates;
//! this module keeps, beside the opaque cipher state, a ghost record of the
//! key and of every byte fed through it. Only the single-byte cipher
//! output is trusted; the byte-stream view of it is defined here and the
//! walk over a buffer is verified.
//!
//! The protocol uses the 16-byte key as the initialization vector too, and
//! the named byte functions below are understood under that convention.

use vstd::prelude::*;

verus! {

/// The ciphertext byte AES-128/CFB-8 produces for plaintext byte `b` under
/// `key` (doubling as initialization vector) after the plaintext `hist`
/// has been fed through the cipher.
pub uninterp spec fn cfb8_ct_byte(key: Seq<u8>, hist: Seq<u8>, b: u8) -> u8;

/// The plaintext byte AES-128/CFB-8 recovers from ciphertext byte `b`
/// under `key` (doubling as initialization vector) after the ciphertext
/// `hist` has been fed through the cipher.
pub uninterp spec fn cfb8_pt_byte(key: Seq<u8>, hist: Seq<u8>, b: u8) -> u8;

/// The ciphertext stream for `plain` under `key`: each byte enciphered in
/// order, the cipher state advanced by all plaintext before it.
pub open spec fn cfb8_stream(key: Seq<u8>, plain: Seq<u8>) -> Seq<u8>
    decreases plain.len(),
{
    if plain.len() == 0 {
        Seq::empty()
    } else {
        cfb8_stream(key, plain.drop_last()) + seq![
            cfb8_ct_byte(key, plain.drop_last(), plain.last()),
        ]
    }
}

/// The plaintext recovered from the ciphertext stream `wire` under `key`:
/// each byte deciphered in order, the cipher state advanced by all
/// ciphertext before it.
pub open spec fn cfb8_plain(key: Seq<u8>, wire: Seq<u8>) -> Seq<u8>
    decreases wire.len(),
{
    if wire.len() == 0 {
        Seq::empty()
    } else {
        cfb8_plain(key, wire.drop_last()) + seq![
            cfb8_pt_byte(key, wire.drop_last(), wire.last()),
        ]
    }
}

/// Carries the cfb8 encryptor, which the verifier cannot see into: the
/// crate's generic bounds keep its type from being declared directly.
#[verifier::external_body]
struct EncryptorHandle {
    inner: cfb8::Encryptor<aes::Aes128>,
}

/// Carries the cfb8 decryptor, opaque for the same reason.
#[verifier::external_body]
struct DecryptorHandle {
    inner: cfb8::Decryptor<aes::Aes128>,
}

/// Encryption state: the cipher plus a ghost record of the key and of all
/// plaintext enciphered so far.
pub struct EncryptState {
    inner: EncryptorHandle,
    key: Ghost<Seq<u8>>,
    history: Ghost<Seq<u8>>,
}

/// Decryption state: the cipher plus a ghost record of the key and of all
/// ciphertext deciphered so far.
pub struct DecryptState {
    inner: DecryptorHandle,
    key: Ghost<Seq<u8>>,
    history: Ghost<Seq<u8>>,
}

/// Relies on cfb8::Encryptor::new with aes::Aes128: installs the key, with
/// the key as initialization vector, before any byte is processed.
#[verifier::external_body]
fn new_encryptor(key: &[u8; 16]) -> EncryptorHandle {
    EncryptorHandle { inner: aes::cipher::KeyIvInit::new(key.into(), key.into()) }
}

/// Relies on cfb8::Decryptor::new with aes::Aes128: installs the key, with
/// the key as initialization vector, before any byte is processed.
#[verifier::external_body]
fn new_decryptor(key: &[u8; 16]) -> DecryptorHandle {
    DecryptorHandle { inner: aes::cipher::KeyIvInit::new(key.into(), key.into()) }
}

/// Relies on cfb8::Encryptor with aes::Aes128, one block (one byte) at a
/// time: the byte it returns is the cipher's output for `b` given the key
/// and plaintext history this state carries.
#[verifier::external_body]
fn encrypt_byte(st: &mut EncryptState, b: u8) -> (r: u8)
    ensures
        final(st).key() == old(st).key(),
        final(st).history() == old(st).history() + seq![b],
        r == cfb8_ct_byte(old(st).key(), old(st).history(), b),
{
    let mut block = aes::cipher::generic_array::GenericArray::from([b]);
    aes::cipher::BlockEncryptMut::encrypt_block_mut(&mut st.inner.inner, &mut block);
    block[0]
}

/// Relies on cfb8::Decryptor with aes::Aes128, one block (one byte) at a
/// time: the byte it returns is the cipher's output for `b` given the key
/// and ciphertext history this state carries.
#[verifier::external_body]
fn decrypt_byte(st: &mut DecryptState, b: u8) -> (r: u8)
    ensures
        final(st).key() == old(st).key(),
        final(st).history() == old(st).history() + seq![b],
        r == cfb8_pt_byte(old(st).key(), old(st).history(), b),
{
    let mut block = aes::cipher::generic_array::GenericArray::from([b]);
    aes::cipher::BlockDecryptMut::decrypt_block_mut(&mut st.inner.inner, &mut block);
    block[0]
}

impl EncryptState {
    /// The cipher's key.
    pub closed spec fn key(&self) -> Seq<u8> {
        self.key@
    }

    /// All plaintext fed through the cipher so far, in order.
    pub closed spec fn history(&self) -> Seq<u8> {
        self.history@
    }

    /// A fresh cipher keyed with `key`, nothing processed yet.
    pub fn new(key: &[u8; 16]) -> (st: EncryptState)
        ensures
            st.key() == key@,
            st.history() == Seq::<u8>::empty(),
    {
        EncryptState { inner: new_encryptor(key), key: Ghost(key@), history: Ghost(Seq::empty()) }
    }

    /// Enciphers every byte of `data` in place, in order, continuing the
    /// keystream where the last call left off.
    pub fn encrypt_in_place(&mut self, data: &mut Vec<u8>)
        ensures
            final(self).key() == old(self).key(),
            final(self).history() == old(self).history() + old(data)@,
            final(data)@.len() == old(data)@.len(),
            cfb8_stream(old(self).key(), final(self).history()) == cfb8_stream(
                old(self).key(),
                old(self).history(),
            ) + final(data)@,
    {
        let ghost key = self.key@;
        let ghost plain0 = data@;
        let n = data.len();
        let mut i: usize = 0;
        while i < n
            invariant
                n == data@.len(),
                n == plain0.len(),
                0 <= i <= n,
                self.key@ == key,
                self.history@ == old(self).history@ + plain0.take(i as int),
                forall|j: int| i <= j < n ==> #[trigger] data@[j] == plain0[j],
                cfb8_stream(key, self.history@) == cfb8_stream(key, old(self).history@)
                    + data@.take(i as int),
            decreases n - i,
        {
            let ghost data_before = data@;
            let ghost hist_before = self.history@;
            let b = data[i];
            let c = encrypt_byte(self, b);
            data.set(i, c);
            proof {
                assert(self.history@ =~= old(self).history@ + plain0.take(i + 1)) by {
                    assert(plain0.take(i + 1) =~= plain0.take(i as int) + seq![b]);
                }
                assert(cfb8_stream(key, self.history@) =~= cfb8_stream(key, old(self).history@)
                    + data@.take(i + 1)) by {
                    assert(self.history@.drop_last() =~= hist_before);
                    assert(self.history@.last() == b);
                    assert(data@.take(i + 1) =~= data_before.take(i as int) + seq![c]);
                }
            }
            i = i + 1;
        }
        proof {
            assert(plain0.take(n as int) =~= plain0);
            assert(data@.take(n as int) =~= data@);
        }
    }
}

impl DecryptState {
    /// The cipher's key.
    pub closed spec fn key(&self) -> Seq<u8> {
        self.key@
    }

    /// All ciphertext fed through the cipher so far, in order.
    pub closed spec fn history(&self) -> Seq<u8> {
        self.history@
    }

    /// A fresh cipher keyed with `key`, nothing processed yet.
    pub fn new(key: &[u8; 16]) -> (st: DecryptState)
        ensures
            st.key() == key@,
            st.history() == Seq::<u8>::empty(),
    {
        DecryptState { inner: new_decryptor(key), key: Ghost(key@), history: Ghost(Seq::empty()) }
    }

    /// Deciphers every byte of `data` in place, in order, continuing the
    /// keystream where the last call left off.
    pub fn decrypt_in_place(&mut self, data: &mut Vec<u8>)
        ensures
            final(self).key() == old(self).key(),
            final(self).history() == old(self).history() + old(data)@,
            final(data)@.len() == old(data)@.len(),
            cfb8_plain(old(self).key(), final(self).history()) == cfb8_plain(
                old(self).key(),
                old(self).history(),
            ) + final(data)@,
    {
        let ghost key = self.key@;
        let ghost wire0 = data@;
        let n = data.len();
        let mut i: usize = 0;
        while i < n
            invariant
                n == data@.len(),
                n == wire0.len(),
                0 <= i <= n,
                self.key@ == key,
                self.history@ == old(self).history@ + wire0.take(i as int),
                forall|j: int| i <= j < n ==> #[trigger] data@[j] == wire0[j],
                cfb8_plain(key, self.history@) == cfb8_plain(key, old(self).history@) + data@.take(
                    i as int,
                ),
            decreases n - i,
        {
            let ghost data_before = data@;
            let ghost hist_before = self.history@;
            let b = data[i];
            let c = decrypt_byte(self, b);
            data.set(i, c);
            proof {
                assert(self.history@ =~= old(self).history@ + wire0.take(i + 1)) by {
                    assert(wire0.take(i + 1) =~= wire0.take(i as int) + seq![b]);
                }
                assert(cfb8_plain(key, self.history@) =~= cfb8_plain(key, old(self).history@)
                    + data@.take(i + 1)) by {
                    assert(self.history@.drop_last() =~= hist_before);
                    assert(self.history@.last() == b);
                    assert(data@.take(i + 1) =~= data_before.take(i as int) + seq![c]);
                }
            }
            i = i + 1;
        }
        proof {
            assert(wire0.take(n as int) =~= wire0);
            assert(data@.take(n as int) =~= data@);
        }
    }
}

} // verus!
