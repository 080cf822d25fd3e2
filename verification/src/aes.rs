//! AES-256-SHA-256 coder of the 7z format.
//!
//! The 7z format uses a custom key derivation (iterated SHA-256, not PBKDF2)
//! followed by AES-256-CBC. The password is encoded as UTF-16LE.
//!
//! Properties: byte 0 holds NumCyclesPower in bits 0..5, an IV flag in bit 6
//! and a salt flag in bit 7. Byte 1, present when either flag is set, holds
//! extra salt bytes in its high nibble and extra IV bytes in its low nibble.
//! The salt bytes, then the IV bytes follow.
use crate::error::R7zError;
use crate::parsers::le_bytes;
use crate::parsers::push_le;
use cbc::cipher::{BlockModeDecrypt, BlockModeEncrypt, KeyIvInit};
use vstd::prelude::*;
use vstd::slice::slice_subrange;

verus! {

/// The largest key-derivation exponent the writer accepts.
pub const MAX_AES_NUM_CYCLES_POWER: u8 = 24;

/// Exponent value that marks a raw key (salt and password, zero-padded).
pub const AES_RAW_KEY_CYCLES: u8 = 0x3F;

/// UTF-16 code units of a string.
pub open spec fn spec_utf16_encode(s: Seq<char>) -> Seq<u16>
    decreases s.len(),
{
    if s.len() == 0 {
        Seq::empty()
    } else {
        let v = s[0] as nat;
        let units = if v < 0x10000 {
            seq![v as u16]
        } else {
            let w = (v - 0x10000) as nat;
            seq![(0xD800 + w / 0x400) as u16, (0xDC00 + w % 0x400) as u16]
        };
        units + spec_utf16_encode(s.skip(1))
    }
}

/// Little-endian bytes of 16-bit units.
pub open spec fn units_le_bytes(u: Seq<u16>) -> Seq<u8>
    decreases u.len(),
{
    if u.len() == 0 {
        Seq::empty()
    } else {
        units_le_bytes(u.drop_last()) + seq![(u.last() % 256) as u8, (u.last() / 256) as u8]
    }
}

/// The password bytes fed to the key derivation: UTF-16LE.
pub open spec fn password_bytes(password: Seq<char>) -> Seq<u8> {
    units_le_bytes(spec_utf16_encode(password))
}

/// UTF-16 code units of `s`.
///
/// Calls `str::encode_utf16`, documented to give the string encoded as
/// UTF-16; the contract states that encoding.
#[verifier::external_body]
fn utf16_units_of(s: &str) -> (r: Vec<u16>)
    ensures
        r@ == spec_utf16_encode(s@),
{
    s.encode_utf16().collect()
}

/// The SHA-256 hasher of the `sha2` crate.
#[verifier::external_type_specification]
#[verifier::external_body]
pub struct ExSha256(sha2::Sha256);

/// The bytes fed to a SHA-256 hasher so far.
pub uninterp spec fn sha256_input(h: sha2::Sha256) -> Seq<u8>;

/// The SHA-256 digest of a byte string.
pub uninterp spec fn sha256(data: Seq<u8>) -> Seq<u8>;

/// A fresh hasher (`sha2::Sha256::new`): nothing fed yet.
#[verifier::external_body]
fn sha256_new() -> (h: sha2::Sha256)
    ensures
        sha256_input(h) == Seq::<u8>::empty(),
{
    <sha2::Sha256 as sha2::Digest>::new()
}

/// Feed `data` to the hasher (`Digest::update`): it is appended to what was fed.
#[verifier::external_body]
fn sha256_update(h: &mut sha2::Sha256, data: &[u8])
    ensures
        sha256_input(*final(h)) == sha256_input(*old(h)) + data@,
{
    sha2::Digest::update(h, data)
}

/// The digest of everything fed (`Digest::finalize`), as 32 bytes.
#[verifier::external_body]
fn sha256_finalize(h: sha2::Sha256) -> (r: [u8; 32])
    ensures
        r@ == sha256(sha256_input(h)),
{
    sha2::Digest::finalize(h).into()
}

/// The AES-256-CBC decryption (no padding) of whole blocks.
pub uninterp spec fn aes256_cbc_decrypt(data: Seq<u8>, key: Seq<u8>, iv: Seq<u8>) -> Seq<u8>;

/// The AES-256-CBC encryption (no padding) of whole blocks.
pub uninterp spec fn aes256_cbc_encrypt(data: Seq<u8>, key: Seq<u8>, iv: Seq<u8>) -> Seq<u8>;

/// Decrypt whole 16-byte blocks with `cbc::Decryptor<aes::Aes256>`.
///
/// `decrypt_padded::<NoPadding>` fails only for a partial final block, which
/// `requires` rules out; the contract names the plaintext.
#[verifier::external_body]
fn aes256_cbc_decrypt_blocks(data: &[u8], key: &[u8; 32], iv: &[u8; 16]) -> (r: Option<Vec<u8>>)
    requires
        data@.len() % 16 == 0,
    ensures
        r is Some,
        r.unwrap()@ == aes256_cbc_decrypt(data@, key@, iv@),
{
    let mut buf = data.to_vec();
    let dec = cbc::Decryptor::<aes::Aes256>::new(key.into(), iv.into());
    match dec.decrypt_padded::<cbc::cipher::block_padding::NoPadding>(&mut buf) {
        Ok(plain) => Some(plain.to_vec()),
        Err(_) => None,
    }
}

/// Encrypt whole 16-byte blocks with `cbc::Encryptor<aes::Aes256>`.
///
/// `encrypt_padded::<NoPadding>` fails only when the message is not whole
/// blocks, which `requires` rules out; the contract names the ciphertext.
#[verifier::external_body]
fn aes256_cbc_encrypt_blocks(data: &[u8], key: &[u8; 32], iv: &[u8; 16]) -> (r: Option<Vec<u8>>)
    requires
        data@.len() % 16 == 0,
    ensures
        r is Some,
        r.unwrap()@ == aes256_cbc_encrypt(data@, key@, iv@),
{
    let mut buf = data.to_vec();
    let enc = cbc::Encryptor::<aes::Aes256>::new(key.into(), iv.into());
    let n = buf.len();
    match enc.encrypt_padded::<cbc::cipher::block_padding::NoPadding>(&mut buf, n) {
        Ok(ct) => Some(ct.to_vec()),
        Err(_) => None,
    }
}

/// The model of parsed AES properties: exponent, salt, 16-byte IV.
pub struct AesPropertiesView {
    pub num_cycles_power: u8,
    pub salt: Seq<u8>,
    pub iv: Seq<u8>,
}

/// Parse of AES coder properties (see the module documentation); the IV is
/// zero-padded to 16 bytes.
pub open spec fn spec_parse_aes_properties(p: Seq<u8>) -> Option<AesPropertiesView> {
    if p.len() == 0 {
        None
    } else {
        let b0 = p[0];
        let has_salt = (b0 >> 7u8) & 1 != 0;
        let has_iv = (b0 >> 6u8) & 1 != 0;
        if (has_salt || has_iv) && p.len() < 2 {
            None
        } else {
            let salt_size: nat = if has_salt || has_iv {
                (if has_salt { 1nat } else { 0nat }) + (p[1] >> 4u8) as nat
            } else {
                0
            };
            let iv_size: nat = if has_salt || has_iv {
                (if has_iv { 1nat } else { 0nat }) + (p[1] & 0x0Fu8) as nat
            } else {
                0
            };
            let rest = if has_salt || has_iv {
                p.skip(2)
            } else {
                p.skip(1)
            };
            if rest.len() < salt_size + iv_size {
                None
            } else {
                Some(
                    AesPropertiesView {
                        num_cycles_power: b0 & 0x3Fu8,
                        salt: rest.take(salt_size as int),
                        iv: rest.subrange(salt_size as int, (salt_size + iv_size) as int) + Seq::new(
                            (16 - iv_size) as nat,
                            |i: int| 0u8,
                        ),
                    },
                )
            }
        }
    }
}

/// Parsed AES-256-SHA-256 properties from a 7z coder.
#[derive(Debug)]
pub struct AesProperties {
    /// Number of SHA-256 iterations = 2^num_cycles_power.
    pub num_cycles_power: u8,
    /// Salt (0..16 bytes).
    pub salt: Vec<u8>,
    /// Initialization vector, zero-padded to 16 bytes.
    pub iv: [u8; 16],
}

impl View for AesProperties {
    type V = AesPropertiesView;

    open spec fn view(&self) -> AesPropertiesView {
        AesPropertiesView { num_cycles_power: self.num_cycles_power, salt: self.salt@, iv: self.iv@ }
    }
}

impl AesProperties {
    /// Parse the AES properties from the coder's properties bytes.
    pub fn parse(props: &[u8]) -> (r: Result<Self, R7zError>)
        ensures
            match spec_parse_aes_properties(props@) {
                None => r == Err::<Self, R7zError>(R7zError::Decompression),
                Some(v) => r matches Ok(a) && a@ == v,
            },
    {
        if props.len() == 0 {
            return Err(R7zError::Decompression);
        }
        let byte0 = props[0];
        let num_cycles_power = byte0 & 0x3F;
        let has_salt = (byte0 >> 7) & 1 != 0;
        let has_iv = (byte0 >> 6) & 1 != 0;
        let mut salt_size: usize = 0;
        let mut iv_size: usize = 0;
        let mut start: usize = 1;
        if has_salt || has_iv {
            if props.len() < 2 {
                return Err(R7zError::Decompression);
            }
            let byte1 = props[1];
            let high = byte1 >> 4;
            let low = byte1 & 0x0F;
            assert(high <= 15 && low <= 15) by (bit_vector)
                requires
                    high == byte1 >> 4u8,
                    low == byte1 & 0x0Fu8,
            ;
            salt_size = (if has_salt { 1usize } else { 0usize }) + high as usize;
            iv_size = (if has_iv { 1usize } else { 0usize }) + low as usize;
            start = 2;
        }
        let rest = slice_subrange(props, start, props.len());
        if rest.len() < salt_size + iv_size {
            return Err(R7zError::Decompression);
        }
        let salt = vstd::slice::slice_to_vec(slice_subrange(rest, 0, salt_size));
        let mut iv = [0u8; 16];
        let mut k: usize = 0;
        while k < iv_size
            invariant
                k <= iv_size <= 16,
                salt_size + iv_size <= rest@.len(),
                salt_size + iv_size <= rest.len(),
                forall|q: int| 0 <= q < k ==> iv@[q] == rest@[salt_size + q],
                forall|q: int| k <= q < 16 ==> iv@[q] == 0u8,
            decreases iv_size - k,
        {
            iv[k] = rest[salt_size + k];
            k = k + 1;
        }
        let r = AesProperties { num_cycles_power, salt, iv };
        proof {
            let v = spec_parse_aes_properties(props@).unwrap();
            assert(rest@ =~= (if has_salt || has_iv { props@.skip(2) } else { props@.skip(1) }));
            assert(r@.salt =~= v.salt);
            assert(r@.iv =~= v.iv);
        }
        Ok(r)
    }
}

/// The bytes fed to SHA-256 by the key derivation after `rounds` rounds:
/// each round feeds `prefix` then the round number as 8 little-endian bytes.
pub open spec fn kdf_stream(prefix: Seq<u8>, rounds: nat) -> Seq<u8>
    decreases rounds,
{
    if rounds == 0 {
        Seq::empty()
    } else {
        kdf_stream(prefix, (rounds - 1) as nat) + prefix + le_bytes((rounds - 1) as nat, 8)
    }
}

/// `2^n`.
pub open spec fn pow2(n: nat) -> nat
    decreases n,
{
    if n == 0 {
        1
    } else {
        2 * pow2((n - 1) as nat)
    }
}

/// The 32-byte key the 7z key derivation gives: with the raw-key exponent,
/// salt then password bytes, cut or zero-padded to 32; otherwise the SHA-256
/// of `2^num_cycles_power` rounds of salt, password and round number.
pub open spec fn spec_derive_key(password: Seq<char>, salt: Seq<u8>, num_cycles_power: u8) -> Seq<u8> {
    let prefix = salt + password_bytes(password);
    if num_cycles_power == AES_RAW_KEY_CYCLES {
        if prefix.len() >= 32 {
            prefix.take(32)
        } else {
            prefix + Seq::new((32 - prefix.len()) as nat, |i: int| 0u8)
        }
    } else {
        sha256(kdf_stream(prefix, pow2(num_cycles_power as nat)))
    }
}

/// UTF-16LE bytes of `s`.
pub(crate) fn utf16le_bytes_of(s: &str) -> (r: Vec<u8>)
    ensures
        r@ == units_le_bytes(spec_utf16_encode(s@)),
{
    let units = utf16_units_of(s);
    let mut r: Vec<u8> = Vec::new();
    let mut i: usize = 0;
    proof {
        assert(units@.take(0) =~= Seq::<u16>::empty());
    }
    while i < units.len()
        invariant
            i <= units@.len(),
            r@ == units_le_bytes(units@.take(i as int)),
        decreases units@.len() - i,
    {
        let u = units[i];
        r.push((u % 256) as u8);
        r.push((u / 256) as u8);
        proof {
            assert(units@.take(i + 1).drop_last() =~= units@.take(i as int));
            assert(r@ =~= units_le_bytes(units@.take(i + 1)));
        }
        i = i + 1;
    }
    proof {
        assert(units@.take(units@.len() as int) =~= units@);
    }
    r
}

/// Salt followed by the UTF-16LE password.
fn key_prefix(password: &str, salt: &[u8]) -> (r: Vec<u8>)
    ensures
        r@ == salt@ + password_bytes(password@),
{
    let units = utf16_units_of(password);
    let mut r = vstd::slice::slice_to_vec(salt);
    let mut i: usize = 0;
    proof {
        assert(units@.take(0) =~= Seq::<u16>::empty());
        assert(r@ =~= salt@ + units_le_bytes(units@.take(0)));
    }
    while i < units.len()
        invariant
            i <= units@.len(),
            r@ == salt@ + units_le_bytes(units@.take(i as int)),
        decreases units@.len() - i,
    {
        let u = units[i];
        r.push((u % 256) as u8);
        r.push((u / 256) as u8);
        proof {
            assert(units@.take(i + 1).drop_last() =~= units@.take(i as int));
            assert(r@ =~= salt@ + units_le_bytes(units@.take(i + 1)));
        }
        i = i + 1;
    }
    proof {
        assert(units@.take(units@.len() as int) =~= units@);
    }
    r
}

proof fn lemma_pow2_monotone(n: nat, m: nat)
    requires
        n <= m,
    ensures
        1 <= pow2(n) <= pow2(m),
    decreases m,
{
    if m > 0 {
        if n < m {
            lemma_pow2_monotone(n, (m - 1) as nat);
        } else {
            lemma_pow2_monotone((n - 1) as nat, (m - 1) as nat);
        }
    }
}

proof fn lemma_pow2_u64(n: nat)
    requires
        n <= 62,
    ensures
        pow2(n) <= 0x4000_0000_0000_0000,
        pow2(n) >= 1,
{
    assert(pow2(62) == 0x4000_0000_0000_0000) by {
        reveal_with_fuel(pow2, 63);
    }
    lemma_pow2_monotone(n, 62);
}

/// Derive the 32-byte AES key from a password using the 7z SHA-256 KDF.
pub fn derive_key(password: &str, salt: &[u8], num_cycles_power: u8) -> (key: [u8; 32])
    requires
        num_cycles_power <= 62 || num_cycles_power == AES_RAW_KEY_CYCLES,
    ensures
        key@ == spec_derive_key(password@, salt@, num_cycles_power),
{
    let prefix = key_prefix(password, salt);
    if num_cycles_power == AES_RAW_KEY_CYCLES {
        let mut key = [0u8; 32];
        let len = if prefix.len() < 32 {
            prefix.len()
        } else {
            32
        };
        let mut k: usize = 0;
        while k < len
            invariant
                k <= len <= 32,
                len <= prefix@.len(),
                forall|q: int| 0 <= q < k ==> key@[q] == prefix@[q],
                forall|q: int| k <= q < 32 ==> key@[q] == 0u8,
            decreases len - k,
        {
            key[k] = prefix[k];
            k = k + 1;
        }
        proof {
            if prefix@.len() >= 32 {
                assert(key@ =~= prefix@.take(32));
            } else {
                assert(key@ =~= prefix@ + Seq::new((32 - prefix@.len()) as nat, |i: int| 0u8));
            }
        }
        return key;
    }
    proof {
        lemma_pow2_u64(num_cycles_power as nat);
    }
    let mut num_rounds: u64 = 1;
    let mut j: u8 = 0;
    while j < num_cycles_power
        invariant
            j <= num_cycles_power <= 62,
            num_rounds == pow2(j as nat),
        decreases num_cycles_power - j,
    {
        proof {
            lemma_pow2_u64(j as nat);
        }
        num_rounds = num_rounds * 2;
        j = j + 1;
    }
    let mut hasher = sha256_new();
    let mut i: u64 = 0;
    while i < num_rounds
        invariant
            i <= num_rounds,
            sha256_input(hasher) == kdf_stream(prefix@, i as nat),
        decreases num_rounds - i,
    {
        let mut buf = prefix.clone();
        push_le(&mut buf, i, 8);
        sha256_update(&mut hasher, buf.as_slice());
        i = i + 1;
    }
    sha256_finalize(hasher)
}

/// Decrypt `data` using AES-256-CBC with the given key and IV. The input
/// must be whole 16-byte blocks.
pub fn decrypt_aes256_cbc(data: &[u8], key: &[u8; 32], iv: &[u8; 16]) -> (r: Result<Vec<u8>, R7zError>)
    ensures
        data@.len() % 16 != 0 ==> r == Err::<Vec<u8>, R7zError>(R7zError::Decompression),
        data@.len() % 16 == 0 ==> (r matches Ok(v) && v@ == aes256_cbc_decrypt(data@, key@, iv@)),
{
    if data.len() % 16 != 0 {
        return Err(R7zError::Decompression);
    }
    match aes256_cbc_decrypt_blocks(data, key, iv) {
        Some(v) => Ok(v),
        None => Err(R7zError::Decompression),
    }
}

/// `data` zero-padded to whole 16-byte blocks.
pub open spec fn zero_pad_16(data: Seq<u8>) -> Seq<u8> {
    let rem = data.len() % 16;
    if rem == 0 {
        data
    } else {
        data + Seq::new((16 - rem) as nat, |i: int| 0u8)
    }
}

/// Encrypt `data`, zero-padded to whole blocks, with AES-256-CBC.
pub fn encrypt_aes256_cbc_zero_pad(data: &[u8], key: &[u8; 32], iv: &[u8; 16]) -> (r: Result<Vec<u8>, R7zError>)
    ensures
        r matches Ok(v) && v@ == aes256_cbc_encrypt(zero_pad_16(data@), key@, iv@),
{
    let mut buf = vstd::slice::slice_to_vec(data);
    let rem = buf.len() % 16;
    if rem != 0 {
        let mut k: usize = 0;
        while k < 16 - rem
            invariant
                k <= 16 - rem,
                rem == data@.len() % 16,
                rem != 0,
                buf@ == data@ + Seq::new(k as nat, |i: int| 0u8),
            decreases 16 - rem - k,
        {
            buf.push(0);
            k = k + 1;
            proof {
                assert(buf@ =~= data@ + Seq::new(k as nat, |i: int| 0u8));
            }
        }
    } else {
        proof {
            assert(buf@ =~= data@);
        }
    }
    assert(buf@.len() % 16 == 0);
    match aes256_cbc_encrypt_blocks(buf.as_slice(), key, iv) {
        Some(v) => Ok(v),
        None => Err(R7zError::Decompression),
    }
}

/// The properties bytes that describe an AES coder with this exponent, salt
/// and IV (salt and IV of at most 16 bytes each).
pub open spec fn spec_encode_aes_properties(num_cycles_power: u8, salt: Seq<u8>, iv: Seq<u8>) -> Seq<u8> {
    let b0 = (num_cycles_power & 0x3Fu8) | (if salt.len() > 0 { 0x80u8 } else { 0u8 }) | (if iv.len() > 0 {
        0x40u8
    } else {
        0u8
    });
    if salt.len() == 0 && iv.len() == 0 {
        seq![b0]
    } else {
        let salt_extra = if salt.len() > 0 { salt.len() - 1 } else { 0 };
        let iv_extra = if iv.len() > 0 { iv.len() - 1 } else { 0 };
        seq![b0, ((salt_extra * 16) + iv_extra) as u8] + salt + iv
    }
}

/// Build the AES coder properties for an exponent, salt and IV.
pub fn encode_aes_properties(num_cycles_power: u8, salt: &[u8], iv: &[u8]) -> (r: Vec<u8>)
    requires
        salt@.len() <= 16,
        iv@.len() <= 16,
    ensures
        r@ == spec_encode_aes_properties(num_cycles_power, salt@, iv@),
{
    let b0 = (num_cycles_power & 0x3F) | (if salt.len() > 0 { 0x80u8 } else { 0u8 }) | (if iv.len() > 0 {
        0x40u8
    } else {
        0u8
    });
    let mut r: Vec<u8> = Vec::new();
    r.push(b0);
    if salt.len() == 0 && iv.len() == 0 {
        proof {
            assert(r@ =~= seq![b0]);
        }
        return r;
    }
    let salt_extra: u8 = if salt.len() > 0 { (salt.len() - 1) as u8 } else { 0 };
    let iv_extra: u8 = if iv.len() > 0 { (iv.len() - 1) as u8 } else { 0 };
    r.push(salt_extra * 16 + iv_extra);
    let mut tail = vstd::slice::slice_to_vec(salt);
    r.append(&mut tail);
    let mut tail2 = vstd::slice::slice_to_vec(iv);
    r.append(&mut tail2);
    proof {
        assert(r@ =~= seq![b0, (salt_extra * 16 + iv_extra) as u8] + salt@ + iv@);
    }
    r
}

// ---------------------------------------------------------------------------
// Laws of the key derivation and of the coder properties.
// ---------------------------------------------------------------------------

/// Byte `k` of the little-endian encoding of `v` in `n` bytes is the `k`-th
/// base-256 digit of `v`.
pub proof fn lemma_le_bytes_digit(v: nat, n: nat, k: int)
    requires
        0 <= k < n,
    ensures
        le_bytes(v, n).len() == n,
        le_bytes(v, n)[k] as nat == (v / crate::parsers::pow256(k as nat)) % 256,
    decreases n,
{
    crate::parsers::lemma_le_bytes_len(v, n);
    crate::parsers::lemma_le_bytes_len(v, (n - 1) as nat);
    if k < n - 1 {
        lemma_le_bytes_digit(v, (n - 1) as nat, k);
    }
}

/// The bytes the key derivation hashes over `rounds` rounds, written out:
/// round `j` takes `prefix.len() + 8` bytes, first `prefix`, then `j` as
/// eight base-256 digits, least significant first.
pub open spec fn kdf_bytes(prefix: Seq<u8>, rounds: nat) -> Seq<u8> {
    let w = prefix.len() + 8;
    Seq::new(
        rounds * w,
        |t: int|
            {
                let j = t / w as int;
                let o = t % w as int;
                if o < prefix.len() {
                    prefix[o]
                } else {
                    ((j as nat / crate::parsers::pow256((o - prefix.len()) as nat)) % 256) as u8
                }
            },
    )
}

/// What the key derivation hashes is [`kdf_bytes`]: the rounds in order,
/// each the prefix followed by the round number in eight little-endian
/// bytes.
pub proof fn lemma_kdf_stream_bytes(prefix: Seq<u8>, rounds: nat)
    ensures
        kdf_stream(prefix, rounds) == kdf_bytes(prefix, rounds),
    decreases rounds,
{
    let w = prefix.len() + 8;
    if rounds == 0 {
        assert(0 * w == 0);
        assert(kdf_stream(prefix, 0) =~= kdf_bytes(prefix, 0));
    } else {
        let r1 = (rounds - 1) as nat;
        lemma_kdf_stream_bytes(prefix, r1);
        let a = kdf_stream(prefix, r1);
        let tail = prefix + le_bytes(r1, 8);
        crate::parsers::lemma_le_bytes_len(r1, 8);
        assert(r1 * w + w == rounds * w) by (nonlinear_arith)
            requires
                r1 + 1 == rounds,
        ;
        let b = kdf_bytes(prefix, rounds);
        assert(kdf_stream(prefix, rounds) =~= a + tail);
        assert(a.len() == r1 * w);
        assert((a + tail).len() == b.len());
        assert forall|t: int| 0 <= t < rounds * w implies #[trigger] (a + tail)[t] == b[t] by {
            if t < r1 * w {
                assert((a + tail)[t] == a[t]);
                assert(a[t] == kdf_bytes(prefix, r1)[t]);
            } else {
                let o = t - r1 * w;
                assert(0 <= o < w);
                vstd::arithmetic::div_mod::lemma_fundamental_div_mod_converse(t, w as int, r1 as int, o);
                assert((a + tail)[t] == tail[o]);
                if o >= prefix.len() {
                    lemma_le_bytes_digit(r1, 8, o - prefix.len());
                    assert(tail[o] == le_bytes(r1, 8)[o - prefix.len()]);
                } else {
                    assert(tail[o] == prefix[o]);
                }
            }
        }
        assert(a + tail =~= b);
    }
}

proof fn lemma_pow2_is_power(n: nat)
    ensures
        pow2(n) == vstd::arithmetic::power::pow(2, n),
    decreases n,
{
    reveal(vstd::arithmetic::power::pow);
    if n > 0 {
        lemma_pow2_is_power((n - 1) as nat);
    }
}

/// The key for an exponent other than the raw-key one is the SHA-256 of
/// `2^num_cycles_power` rounds of the salt and the password's UTF-16LE
/// bytes, each followed by the round number as eight little-endian bytes.
pub proof fn lemma_derive_key_hashes_rounds(password: Seq<char>, salt: Seq<u8>, num_cycles_power: u8)
    requires
        num_cycles_power != AES_RAW_KEY_CYCLES,
    ensures
        spec_derive_key(password, salt, num_cycles_power) == sha256(
            kdf_bytes(salt + password_bytes(password), vstd::arithmetic::power::pow(2, num_cycles_power as nat) as nat),
        ),
{
    lemma_pow2_is_power(num_cycles_power as nat);
    lemma_kdf_stream_bytes(salt + password_bytes(password), pow2(num_cycles_power as nat));
}

/// With the raw-key exponent the key is the salt and the password's
/// UTF-16LE bytes themselves: their first 32 bytes, zero-padded to 32.
pub proof fn lemma_raw_key(password: Seq<char>, salt: Seq<u8>)
    ensures
        ({
            let prefix = salt + password_bytes(password);
            let key = spec_derive_key(password, salt, AES_RAW_KEY_CYCLES);
            &&& key.len() == 32
            &&& forall|k: int| 0 <= k < 32 ==> #[trigger] key[k] == (if k < prefix.len() { prefix[k] } else { 0u8 })
        }),
{
}

proof fn lemma_flag_bits(b0: u8, b1: u8)
    ensures
        ((b0 >> 7u8) & 1 != 0) == (b0 & 0x80u8 != 0),
        ((b0 >> 6u8) & 1 != 0) == (b0 & 0x40u8 != 0),
        b0 & 0x3Fu8 == b0 % 64,
        b1 >> 4u8 == b1 / 16,
        b1 & 0x0Fu8 == b1 % 16,
{
    assert(((b0 >> 7u8) & 1 != 0) == (b0 & 0x80u8 != 0) && ((b0 >> 6u8) & 1 != 0) == (b0 & 0x40u8 != 0) && b0 & 0x3Fu8
        == b0 % 64 && b1 >> 4u8 == b1 / 16 && b1 & 0x0Fu8 == b1 % 16) by (bit_vector);
}

/// AES properties with the salt flag (`0x80`) and the IV flag (`0x40`) of
/// byte 0: the exponent is the low six bits of byte 0; with either flag,
/// byte 1 adds its high nibble to the salt size and its low nibble to the IV
/// size (each flag adding one), and the salt, then the IV, follow; the IV
/// is zero-padded to 16 bytes.
pub proof fn lemma_aes_properties_layout(p: Seq<u8>)
    requires
        p.len() >= 1,
    ensures
        spec_parse_aes_properties(p) matches Some(a) ==> {
            let has_salt = p[0] & 0x80u8 != 0;
            let has_iv = p[0] & 0x40u8 != 0;
            let ss: int = if has_salt || has_iv { (if has_salt { 1int } else { 0int }) + p[1] / 16 } else { 0 };
            let is: int = if has_salt || has_iv { (if has_iv { 1int } else { 0int }) + p[1] % 16 } else { 0 };
            let start: int = if has_salt || has_iv { 2 } else { 1 };
            &&& a.num_cycles_power == p[0] % 64
            &&& a.salt == p.subrange(start, start + ss)
            &&& a.iv.len() == 16
            &&& a.iv.take(is) == p.subrange(start + ss, start + ss + is)
            &&& forall|k: int| is <= k < 16 ==> a.iv[k] == 0
        },
{
    let b0 = p[0];
    if p.len() >= 2 {
        lemma_flag_bits(b0, p[1]);
    } else {
        lemma_flag_bits(b0, 0);
    }
    match spec_parse_aes_properties(p) {
        Some(a) => {
            let has_salt = b0 & 0x80u8 != 0;
            let has_iv = b0 & 0x40u8 != 0;
            let ss: int = if has_salt || has_iv { (if has_salt { 1int } else { 0int }) + p[1] / 16 } else { 0 };
            let is: int = if has_salt || has_iv { (if has_iv { 1int } else { 0int }) + p[1] % 16 } else { 0 };
            let start: int = if has_salt || has_iv { 2 } else { 1 };
            assert(a.salt =~= p.subrange(start, start + ss));
            assert(a.iv.take(is) =~= p.subrange(start + ss, start + ss + is));
        },
        None => {},
    }
}

/// The properties the writer describes an AES coder with: byte 0 is the
/// exponent's low six bits, plus `0x80` when there is a salt and `0x40`
/// when there is an IV; with either, byte 1 holds the salt size less one
/// in its high nibble and the IV size less one in its low nibble, and the
/// salt, then the IV, follow.
pub proof fn lemma_aes_properties_written(num_cycles_power: u8, salt: Seq<u8>, iv: Seq<u8>)
    requires
        salt.len() <= 16,
        iv.len() <= 16,
    ensures
        ({
            let e = spec_encode_aes_properties(num_cycles_power, salt, iv);
            let b0 = num_cycles_power % 64 + (if salt.len() > 0 { 128int } else { 0int }) + (if iv.len() > 0 {
                64int
            } else {
                0int
            });
            &&& e[0] == b0
            &&& salt.len() == 0 && iv.len() == 0 ==> e.len() == 1
            &&& salt.len() > 0 || iv.len() > 0 ==> e.len() == 2 + salt.len() + iv.len() && e[1] == (if salt.len()
                > 0 { salt.len() - 1 } else { 0 }) * 16 + (if iv.len() > 0 { iv.len() - 1 } else { 0 })
                && e.subrange(2, 2 + salt.len() as int) == salt && e.subrange(2 + salt.len() as int, 2 + salt.len() + iv.len() as int) == iv
        }),
{
    let n = num_cycles_power;
    let e = spec_encode_aes_properties(n, salt, iv);
    assert((n & 0x3Fu8) | 0x80u8 | 0x40u8 == n % 64 + 192) by (bit_vector);
    assert((n & 0x3Fu8) | 0x80u8 | 0u8 == n % 64 + 128) by (bit_vector);
    assert((n & 0x3Fu8) | 0u8 | 0x40u8 == n % 64 + 64) by (bit_vector);
    assert((n & 0x3Fu8) | 0u8 | 0u8 == n % 64) by (bit_vector);
    if salt.len() > 0 || iv.len() > 0 {
        assert(e.subrange(2, 2 + salt.len() as int) =~= salt);
        assert(e.subrange(2 + salt.len() as int, 2 + salt.len() + iv.len() as int) =~= iv);
    }
}

/// Reading the properties the writer describes an AES coder with gives
/// back its exponent (low six bits), salt and IV (zero-padded to 16 bytes).
pub proof fn lemma_aes_properties_read_back(num_cycles_power: u8, salt: Seq<u8>, iv: Seq<u8>)
    requires
        salt.len() <= 16,
        iv.len() <= 16,
    ensures
        spec_parse_aes_properties(spec_encode_aes_properties(num_cycles_power, salt, iv)) == Some(
            AesPropertiesView {
                num_cycles_power: (num_cycles_power % 64) as u8,
                salt,
                iv: iv + Seq::new((16 - iv.len()) as nat, |i: int| 0u8),
            },
        ),
{
    let n = num_cycles_power;
    let e = spec_encode_aes_properties(n, salt, iv);
    let hs = salt.len() > 0;
    let hi = iv.len() > 0;
    let b0 = e[0];
    lemma_aes_properties_written(n, salt, iv);
    if hs && hi {
        assert((b0 >> 7u8) & 1 != 0 && (b0 >> 6u8) & 1 != 0 && b0 & 0x3Fu8 == n & 0x3Fu8) by (bit_vector)
            requires
                b0 == (n & 0x3Fu8) | 0x80u8 | 0x40u8,
        ;
    } else if hs {
        assert((b0 >> 7u8) & 1 != 0 && (b0 >> 6u8) & 1 == 0 && b0 & 0x3Fu8 == n & 0x3Fu8) by (bit_vector)
            requires
                b0 == (n & 0x3Fu8) | 0x80u8 | 0u8,
        ;
    } else if hi {
        assert((b0 >> 7u8) & 1 == 0 && (b0 >> 6u8) & 1 != 0 && b0 & 0x3Fu8 == n & 0x3Fu8) by (bit_vector)
            requires
                b0 == (n & 0x3Fu8) | 0u8 | 0x40u8,
        ;
    } else {
        assert((b0 >> 7u8) & 1 == 0 && (b0 >> 6u8) & 1 == 0 && b0 & 0x3Fu8 == n & 0x3Fu8) by (bit_vector)
            requires
                b0 == (n & 0x3Fu8) | 0u8 | 0u8,
        ;
    }
    assert(n & 0x3Fu8 == n % 64) by (bit_vector);
    if hs || hi {
        let b1 = e[1];
        let se: u8 = if hs { (salt.len() - 1) as u8 } else { 0 };
        let ie: u8 = if hi { (iv.len() - 1) as u8 } else { 0 };
        assert(b1 == se * 16 + ie);
        lemma_flag_bits(b0, b1);
        assert(b1 / 16 == se && b1 % 16 == ie);
        assert(e.skip(2).take(salt.len() as int) =~= salt);
        assert(e.skip(2).subrange(salt.len() as int, (salt.len() + iv.len()) as int) =~= iv);
    }
    let v = spec_parse_aes_properties(e).unwrap();
    assert(v.iv =~= iv + Seq::new((16 - iv.len()) as nat, |i: int| 0u8));
    assert(v.salt =~= salt);
}

} // verus!
