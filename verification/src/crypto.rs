//! Cryptographic primitives: message digest, keyed message authentication,
//! password stretching, and Twofish in ECB and CBC mode.
//!
//! The outside calls are confined to small trusted wrappers; everything that
//! combines them (stretching, the streaming authenticator) is verified.
use vstd::prelude::*;
use vstd::slice::slice_to_vec;
use vstd::string::StringSliceAdditionalSpecFns;

use cipher::block_padding::NoPadding;
use cipher::{BlockModeDecrypt, BlockModeEncrypt, KeyInit, KeyIvInit};
use hmac::Mac;
use rand::RngCore;
use sha2::Digest;

use crate::PwsError;

verus! {

/// What `sha2::Sha256` returns for the given input bytes.
pub uninterp spec fn spec_sha256(data: Seq<u8>) -> Seq<u8>;

/// What `hmac::Hmac<sha2::Sha256>` returns for the given key and message.
pub uninterp spec fn spec_hmac_sha256(key: Seq<u8>, data: Seq<u8>) -> Seq<u8>;

/// What Twofish-ECB encryption returns for the given key and whole blocks.
pub uninterp spec fn spec_ecb_encrypt(key: Seq<u8>, data: Seq<u8>) -> Seq<u8>;

/// What Twofish-ECB decryption returns for the given key and whole blocks.
pub uninterp spec fn spec_ecb_decrypt(key: Seq<u8>, data: Seq<u8>) -> Seq<u8>;

/// What Twofish-CBC encryption returns for the given key, IV and whole blocks.
pub uninterp spec fn spec_cbc_encrypt(key: Seq<u8>, iv: Seq<u8>, data: Seq<u8>) -> Seq<u8>;

/// What Twofish-CBC decryption returns for the given key, IV and whole blocks.
pub uninterp spec fn spec_cbc_decrypt(key: Seq<u8>, iv: Seq<u8>, data: Seq<u8>) -> Seq<u8>;

/// Iterated key stretching: one digest of password and salt, then `iter`
/// further digest rounds. An iteration count of 0 keeps the first digest.
pub open spec fn spec_stretch(pw: Seq<u8>, salt: Seq<u8>, iter: nat) -> Seq<u8>
    decreases iter,
{
    if iter == 0 {
        spec_sha256(pw + salt)
    } else {
        spec_sha256(spec_stretch(pw, salt, (iter - 1) as nat))
    }
}

/// Relies on `sha2::Sha256` through `Digest::digest`: a 32-byte digest that
/// depends on the input bytes alone.
#[verifier::external_body]
pub fn sha256(input: &[u8]) -> (r: Vec<u8>)
    ensures
        r@ == spec_sha256(input@),
        r@.len() == 32,
{
    sha2::Sha256::digest(input).as_slice().to_vec()
}

/// Relies on `hmac::Hmac<sha2::Sha256>`: a 32-byte code that depends on the
/// key and message bytes alone; HMAC accepts keys of every length.
#[verifier::external_body]
fn hmac_sha256(key: &[u8], data: &[u8]) -> (r: Vec<u8>)
    ensures
        r@ == spec_hmac_sha256(key@, data@),
        r@.len() == 32,
{
    let mut m = <hmac::Hmac<sha2::Sha256> as hmac::KeyInit>::new_from_slice(key).expect("any key length fits");
    m.update(data);
    m.finalize().into_bytes().as_slice().to_vec()
}

/// Relies on `ecb::Encryptor<twofish::Twofish>` with `NoPadding`: Twofish-ECB
/// over whole blocks, each 16-byte block encrypted independently with no
/// chaining; decrypting the result with the same key restores the input,
/// and a 32-byte key is a valid Twofish key.
#[verifier::external_body]
fn ecb_encrypt_raw(key: &[u8], data: &[u8]) -> (r: Vec<u8>)
    requires
        key@.len() == 32,
        data@.len() % 16 == 0,
    ensures
        r@ == spec_ecb_encrypt(key@, data@),
        r@.len() == data@.len(),
        spec_ecb_decrypt(key@, r@) == data@,
        forall|j: int| #![trigger r@.subrange(16 * j, 16 * j + 16)]
            0 <= j && 16 * j + 16 <= data@.len() ==> r@.subrange(16 * j, 16 * j + 16)
                == spec_ecb_encrypt(key@, data@.subrange(16 * j, 16 * j + 16)),
{
    let mut buf = data.to_vec();
    let c = ecb::Encryptor::<twofish::Twofish>::new_from_slice(key).expect("32-byte key");
    let n = buf.len();
    c.encrypt_padded::<NoPadding>(&mut buf, n).expect("whole blocks");
    buf
}

/// Relies on `ecb::Decryptor<twofish::Twofish>` with `NoPadding`: Twofish-ECB
/// decryption over whole blocks, each 16-byte block independently.
#[verifier::external_body]
fn ecb_decrypt_raw(key: &[u8], data: &[u8]) -> (r: Vec<u8>)
    requires
        key@.len() == 32,
        data@.len() % 16 == 0,
    ensures
        r@ == spec_ecb_decrypt(key@, data@),
        r@.len() == data@.len(),
        forall|j: int| #![trigger r@.subrange(16 * j, 16 * j + 16)]
            0 <= j && 16 * j + 16 <= data@.len() ==> r@.subrange(16 * j, 16 * j + 16)
                == spec_ecb_decrypt(key@, data@.subrange(16 * j, 16 * j + 16)),
{
    let mut buf = data.to_vec();
    let c = ecb::Decryptor::<twofish::Twofish>::new_from_slice(key).expect("32-byte key");
    c.decrypt_padded::<NoPadding>(&mut buf).expect("whole blocks");
    buf
}

/// Relies on `cbc::Encryptor<twofish::Twofish>` with `NoPadding`: Twofish-CBC
/// over whole blocks; decrypting the result with the same key and IV restores
/// the input.
#[verifier::external_body]
fn cbc_encrypt_raw(key: &[u8], iv: &[u8], data: &[u8]) -> (r: Vec<u8>)
    requires
        key@.len() == 32,
        iv@.len() == 16,
        data@.len() % 16 == 0,
    ensures
        r@ == spec_cbc_encrypt(key@, iv@, data@),
        r@.len() == data@.len(),
        spec_cbc_decrypt(key@, iv@, r@) == data@,
{
    let mut buf = data.to_vec();
    let c = cbc::Encryptor::<twofish::Twofish>::new_from_slices(key, iv).expect("key and IV sizes");
    let n = buf.len();
    c.encrypt_padded::<NoPadding>(&mut buf, n).expect("whole blocks");
    buf
}

/// Relies on `cbc::Decryptor<twofish::Twofish>` with `NoPadding`: Twofish-CBC
/// decryption over whole blocks.
#[verifier::external_body]
fn cbc_decrypt_raw(key: &[u8], iv: &[u8], data: &[u8]) -> (r: Vec<u8>)
    requires
        key@.len() == 32,
        iv@.len() == 16,
        data@.len() % 16 == 0,
    ensures
        r@ == spec_cbc_decrypt(key@, iv@, data@),
        r@.len() == data@.len(),
{
    let mut buf = data.to_vec();
    let c = cbc::Decryptor::<twofish::Twofish>::new_from_slices(key, iv).expect("key and IV sizes");
    c.decrypt_padded::<NoPadding>(&mut buf).expect("whole blocks");
    buf
}

/// Relies on `rand::rngs::OsRng`: a buffer filled from the operating system's
/// secure source. Nothing is promised of the values; `None` when the source
/// is unavailable.
#[verifier::external_body]
pub(crate) fn random_bytes(n: usize) -> (r: Option<Vec<u8>>)
    ensures
        r matches Some(v) ==> v@.len() == n,
{
    let mut v = vec![0u8; n];
    match rand::rngs::OsRng.try_fill_bytes(&mut v) {
        Ok(_) => Some(v),
        Err(_) => None,
    }
}

/// Byte-for-byte equality of two slices.
pub fn bytes_eq(a: &[u8], b: &[u8]) -> (r: bool)
    ensures
        r == (a@ == b@),
{
    if a.len() != b.len() {
        proof {
            assert(a@.len() != b@.len());
        }
        return false;
    }
    let n = a.len();
    let mut i: usize = 0;
    while i < n
        invariant
            n == a@.len() == b@.len(),
            i <= n,
            forall|j: int| 0 <= j < i ==> a@[j] == b@[j],
        decreases n - i,
    {
        if a[i] != b[i] {
            return false;
        }
        i = i + 1;
    }
    proof {
        assert(a@ =~= b@);
    }
    true
}

/// Twofish-ECB encryption of a 32-byte block pair with a 32-byte key:
/// two independent 16-byte blocks, no IV, no chaining. Succeeds exactly
/// when both sizes are right.
pub fn encrypt_block_ecb(block: &[u8], key: &[u8]) -> (r: Result<Vec<u8>, PwsError>)
    ensures
        match r {
            Ok(v) => {
                &&& block@.len() == 32 && key@.len() == 32
                &&& v@ == spec_ecb_encrypt(key@, block@) && v@.len() == 32
                &&& spec_ecb_decrypt(key@, v@) == block@
                &&& v@.subrange(0, 16) == spec_ecb_encrypt(key@, block@.subrange(0, 16))
                &&& v@.subrange(16, 32) == spec_ecb_encrypt(key@, block@.subrange(16, 32))
            },
            Err(e) => (block@.len() != 32 || key@.len() != 32) && e == PwsError::Crypto,
        },
{
    if block.len() == 32 && key.len() == 32 {
        let v = ecb_encrypt_raw(key, block);
        proof {
            let ghost j0: int = 0;
            let ghost j1: int = 1;
            assert(v@.subrange(16 * j0, 16 * j0 + 16) == spec_ecb_encrypt(
                key@,
                block@.subrange(16 * j0, 16 * j0 + 16),
            ));
            assert(v@.subrange(16 * j1, 16 * j1 + 16) == spec_ecb_encrypt(
                key@,
                block@.subrange(16 * j1, 16 * j1 + 16),
            ));
        }
        Ok(v)
    } else {
        Err(PwsError::Crypto)
    }
}

/// Twofish-ECB decryption of a 32-byte block pair with a 32-byte key:
/// two independent 16-byte blocks. Succeeds exactly when both sizes are
/// right.
pub fn decrypt_block_ecb(block: &[u8], key: &[u8]) -> (r: Result<Vec<u8>, PwsError>)
    ensures
        match r {
            Ok(v) => {
                &&& block@.len() == 32 && key@.len() == 32
                &&& v@ == spec_ecb_decrypt(key@, block@) && v@.len() == 32
                &&& v@.subrange(0, 16) == spec_ecb_decrypt(key@, block@.subrange(0, 16))
                &&& v@.subrange(16, 32) == spec_ecb_decrypt(key@, block@.subrange(16, 32))
            },
            Err(e) => (block@.len() != 32 || key@.len() != 32) && e == PwsError::Crypto,
        },
{
    if block.len() == 32 && key.len() == 32 {
        let v = ecb_decrypt_raw(key, block);
        proof {
            let ghost j0: int = 0;
            let ghost j1: int = 1;
            assert(v@.subrange(16 * j0, 16 * j0 + 16) == spec_ecb_decrypt(
                key@,
                block@.subrange(16 * j0, 16 * j0 + 16),
            ));
            assert(v@.subrange(16 * j1, 16 * j1 + 16) == spec_ecb_decrypt(
                key@,
                block@.subrange(16 * j1, 16 * j1 + 16),
            ));
        }
        Ok(v)
    } else {
        Err(PwsError::Crypto)
    }
}

/// Twofish-CBC encryption in place. Succeeds exactly when the key is 32
/// bytes, the IV 16, and the buffer a whole number of blocks; on failure the
/// buffer is untouched.
pub fn encrypt_inplace(data: &mut Vec<u8>, key: &[u8], iv: &[u8]) -> (r: Result<(), PwsError>)
    ensures
        match r {
            Ok(_) => {
                &&& key@.len() == 32
                &&& iv@.len() == 16
                &&& old(data)@.len() % 16 == 0
                &&& final(data)@ == spec_cbc_encrypt(key@, iv@, old(data)@)
                &&& final(data)@.len() == old(data)@.len()
                &&& spec_cbc_decrypt(key@, iv@, final(data)@) == old(data)@
            },
            Err(e) => {
                &&& (key@.len() != 32 || iv@.len() != 16 || old(data)@.len() % 16 != 0)
                &&& *final(data) == *old(data)
                &&& e == PwsError::Crypto
            },
        },
{
    if key.len() == 32 && iv.len() == 16 && data.len() % 16 == 0 {
        let out = cbc_encrypt_raw(key, iv, data.as_slice());
        *data = out;
        Ok(())
    } else {
        Err(PwsError::Crypto)
    }
}

/// Twofish-CBC decryption in place. Succeeds exactly when the key is 32
/// bytes, the IV 16, and the buffer a whole number of blocks; on failure the
/// buffer is untouched.
pub fn decrypt_inplace(data: &mut Vec<u8>, key: &[u8], iv: &[u8]) -> (r: Result<(), PwsError>)
    ensures
        match r {
            Ok(_) => {
                &&& key@.len() == 32
                &&& iv@.len() == 16
                &&& old(data)@.len() % 16 == 0
                &&& final(data)@ == spec_cbc_decrypt(key@, iv@, old(data)@)
                &&& final(data)@.len() == old(data)@.len()
            },
            Err(e) => {
                &&& (key@.len() != 32 || iv@.len() != 16 || old(data)@.len() % 16 != 0)
                &&& *final(data) == *old(data)
                &&& e == PwsError::Crypto
            },
        },
{
    if key.len() == 32 && iv.len() == 16 && data.len() % 16 == 0 {
        let out = cbc_decrypt_raw(key, iv, data.as_slice());
        *data = out;
        Ok(())
    } else {
        Err(PwsError::Crypto)
    }
}

/// Key stretching: digest the password bytes and salt once, then `iter`
/// further digest rounds. The result is a function of the three arguments
/// alone, so two calls with equal arguments return equal keys.
pub fn stretch(password: &str, salt: &[u8], iter: u32) -> (r: Vec<u8>)
    ensures
        r@ == spec_stretch(password.spec_bytes(), salt@, iter as nat),
        r@.len() == 32,
{
    let mut buf = slice_to_vec(password.as_bytes());
    let mut tail = slice_to_vec(salt);
    buf.append(&mut tail);
    let mut b = sha256(buf.as_slice());
    let mut i: u32 = 0;
    while i < iter
        invariant
            i <= iter,
            b@ == spec_stretch(password.spec_bytes(), salt@, i as nat),
            b@.len() == 32,
        decreases iter - i,
    {
        b = sha256(b.as_slice());
        i = i + 1;
    }
    b
}

/// A streaming keyed authenticator: bytes fed through `update` accumulate,
/// and the tag is the HMAC of everything accumulated so far.
pub struct HMAC {
    key: Vec<u8>,
    data: Vec<u8>,
}

impl HMAC {
    /// The key this authenticator was created with.
    pub closed spec fn key_spec(self) -> Seq<u8> {
        self.key@
    }

    /// Every byte fed through `update`, in order.
    pub closed spec fn data_spec(self) -> Seq<u8> {
        self.data@
    }

    /// The tag the authenticator would produce now.
    pub open spec fn mac_spec(self) -> Seq<u8> {
        spec_hmac_sha256(self.key_spec(), self.data_spec())
    }

    /// A fresh authenticator over the given key with nothing accumulated.
    pub fn new(key: &[u8]) -> (r: HMAC)
        ensures
            r.key_spec() == key@,
            r.data_spec() == Seq::<u8>::empty(),
    {
        let r = HMAC { key: slice_to_vec(key), data: Vec::new() };
        proof {
            assert(r.data@ =~= Seq::<u8>::empty());
        }
        r
    }

    /// Append bytes to the authenticated stream.
    pub fn update(&mut self, data: &[u8])
        ensures
            final(self).key_spec() == old(self).key_spec(),
            final(self).data_spec() == old(self).data_spec() + data@,
    {
        let mut tail = slice_to_vec(data);
        self.data.append(&mut tail);
    }

    /// The tag over everything accumulated so far; the authenticator is left
    /// as it was.
    pub fn get_mac(&mut self) -> (r: Vec<u8>)
        ensures
            *final(self) == *old(self),
            r@ == old(self).mac_spec(),
            r@.len() == 32,
    {
        hmac_sha256(self.key.as_slice(), self.data.as_slice())
    }

    /// Compare the tag against an expected one; `Err` exactly on mismatch.
    pub fn verify(&mut self, expected: &[u8]) -> (r: Result<(), PwsError>)
        ensures
            *final(self) == *old(self),
            match r {
                Ok(_) => old(self).mac_spec() == expected@,
                Err(e) => old(self).mac_spec() != expected@ && e == PwsError::Authentication,
            },
    {
        let tag = self.get_mac();
        if bytes_eq(tag.as_slice(), expected) {
            Ok(())
        } else {
            Err(PwsError::Authentication)
        }
    }
}

} // verus!
