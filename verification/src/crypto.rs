//! Keys and the EncString format.
//!
//! A symmetric key is 32 bytes for AES-256-CBC and 32 bytes for HMAC-SHA-256. A
//! type-2 EncString is `2.<iv>|<ciphertext>|<mac>` in base64, the MAC over the
//! initialisation vector and the ciphertext; a type-4 EncString is `4.<base64>`,
//! RSA-OAEP with SHA-1. RSA keys are held as PKCS#8 documents.

use crate::codec::{b64_bytes, b64_fits, b64_text, bytes_or_message, decode, encode};
use crate::codec::{lemma_b64_alphabet, lemma_b64_no_space, lemma_b64_round_trip};
use crate::error::{Error, ErrorView, Failure};
use crate::text::{after_prefix, chars_of, split, split_on, string_from, strip_prefix, trim};
use crate::text::{lemma_split_last, lemma_split_single, trim_end, trim_start, trimmed, views};
use crate::text::{blank, lemma_after_prefix, lemma_rejoined_splits, lemma_trimmed, rejoined};
use crate::text::white_space;
use aes::cipher::block_padding::Pkcs7;
use aes::cipher::{BlockDecryptMut, BlockEncryptMut, KeyIvInit};
use hmac::{Hmac, Mac};
use rand::RngCore;
use rsa::pkcs8::{DecodePrivateKey, EncodePrivateKey, EncodePublicKey};
use rsa::traits::{PrivateKeyParts, PublicKeyParts};
use rsa::{Oaep, RsaPrivateKey, RsaPublicKey};
use sha1::Sha1;
use sha2::Sha256;
use vstd::prelude::*;
use vstd::utf8::{decode_utf8, encode_utf8, encode_utf8_decode_utf8, encode_utf8_valid_utf8, valid_utf8};

verus! {

/// The AES-256-CBC ciphertext of a message with PKCS#7 padding.
pub uninterp spec fn aes_cbc_ciphertext(key: Seq<u8>, iv: Seq<u8>, plain: Seq<u8>) -> Seq<u8>;

/// The message in an AES-256-CBC ciphertext with PKCS#7 padding, or the cipher's
/// complaint.
pub uninterp spec fn aes_cbc_plaintext(key: Seq<u8>, iv: Seq<u8>, cipher: Seq<u8>) -> Result<
    Seq<u8>,
    Seq<char>,
>;

/// The HMAC-SHA-256 tag of a message.
pub uninterp spec fn hmac_sha256(key: Seq<u8>, message: Seq<u8>) -> Seq<u8>;

/// What is said of bytes that are not UTF-8.
pub uninterp spec fn utf8_fault(bytes: Seq<u8>) -> Seq<char>;

/// What is said of bytes that are not an RSA private key in PKCS#8; `None` of
/// those that are.
pub uninterp spec fn pkcs8_fault(der: Seq<u8>) -> Option<Seq<char>>;

/// The lengths in bits of the modulus, the first prime and the second prime of an
/// RSA private key in PKCS#8.
pub uninterp spec fn pkcs8_bits(der: Seq<u8>) -> (nat, nat, nat);

/// The SubjectPublicKeyInfo document for an RSA private key in PKCS#8, or what
/// stood in the way.
pub uninterp spec fn public_key_document(der: Seq<u8>) -> Result<Seq<u8>, Seq<char>>;

/// What an RSA private key in PKCS#8 opens an OAEP-SHA-1 ciphertext to, or what
/// stood in the way.
pub uninterp spec fn oaep_plaintext(der: Seq<u8>, cipher: Seq<u8>) -> Result<Seq<u8>, Seq<char>>;

/// The length of the ciphertext of `n` bytes: the next multiple of 16 above.
pub open spec fn padded_len(n: nat) -> nat {
    16 * (n / 16 + 1)
}

/// Whether the EncString of `n` bytes fits in memory.
pub open spec fn sealable(n: nat) -> bool {
    b64_fits(padded_len(n))
}

/// Tells whether the EncString of `n` bytes fits in memory.
pub fn can_seal(n: usize) -> (r: bool)
    ensures
        r == sealable(n as nat),
{
    n / 16 < isize::MAX as usize / 4 * 3 / 16
}

/// Whether a ciphertext opens to a message.
pub open spec fn opens_to(key: Seq<u8>, iv: Seq<u8>, cipher: Seq<u8>, plain: Seq<u8>) -> bool {
    aes_cbc_plaintext(key, iv, cipher) == Ok::<Seq<u8>, Seq<char>>(plain)
}

/// `cbc::Encryptor<aes::Aes256>::encrypt_padded_vec_mut::<Pkcs7>`: the ciphertext
/// depends on key, initialisation vector and message alone, is as long as the
/// padded message, and decrypts to the message under the same key and vector.
#[verifier::external_body]
fn aes_cbc_encrypt(key: &[u8; 32], iv: &[u8; 16], plain: &[u8]) -> (r: Vec<u8>)
    requires
        padded_len(plain@.len()) <= isize::MAX,
    ensures
        r@ == aes_cbc_ciphertext(key@, iv@, plain@),
        r@.len() == padded_len(plain@.len()),
        opens_to(key@, iv@, r@, plain@),
{
    cbc::Encryptor::<aes::Aes256>::new(key.into(), iv.into()).encrypt_padded_vec_mut::<Pkcs7>(plain)
}

/// `cbc::Decryptor<aes::Aes256>::decrypt_padded_vec_mut::<Pkcs7>`: the message, or
/// the text of the error, depends on key, initialisation vector and ciphertext
/// alone.
#[verifier::external_body]
fn aes_cbc_decrypt(key: &[u8; 32], iv: &[u8; 16], cipher: &[u8]) -> (r: Result<Vec<u8>, String>)
    ensures
        bytes_or_message(r) == aes_cbc_plaintext(key@, iv@, cipher@),
{
    cbc::Decryptor::<aes::Aes256>::new(key.into(), iv.into())
        .decrypt_padded_vec_mut::<Pkcs7>(cipher)
        .map_err(|e| e.to_string())
}

/// `hmac::Hmac<sha2::Sha256>`, fed with two pieces and finalised: the tag depends
/// on the key and on the two pieces in a row alone, and has 32 bytes.
#[verifier::external_body]
fn hmac_sha256_tag(key: &[u8; 32], first: &[u8], second: &[u8]) -> (r: Vec<u8>)
    ensures
        r@ == hmac_sha256(key@, first@ + second@),
        r@.len() == 32,
{
    let mut mac = <Hmac<Sha256> as Mac>::new_from_slice(key).expect("hmac key");
    mac.update(first);
    mac.update(second);
    mac.finalize().into_bytes().to_vec()
}

/// `hmac::Mac::verify_slice` of `hmac::Hmac<sha2::Sha256>`, fed with two pieces:
/// accepts exactly the tag of the two pieces in a row.
#[verifier::external_body]
fn hmac_sha256_verify(key: &[u8; 32], first: &[u8], second: &[u8], tag: &[u8]) -> (r: bool)
    ensures
        r == (tag@ == hmac_sha256(key@, first@ + second@)),
{
    let mut mac = <Hmac<Sha256> as Mac>::new_from_slice(key).expect("hmac key");
    mac.update(first);
    mac.update(second);
    mac.verify_slice(tag).is_ok()
}

/// `rand::RngCore::fill_bytes` of `rand::thread_rng`: sixteen random bytes.
#[verifier::external_body]
pub(crate) fn random_iv() -> (r: [u8; 16]) {
    let mut iv = [0u8; 16];
    rand::thread_rng().fill_bytes(&mut iv);
    iv
}

/// The text that bytes hold in UTF-8, or what is said of bytes that hold none.
pub open spec fn utf8_text(bytes: Seq<u8>) -> Result<Seq<char>, Seq<char>> {
    if valid_utf8(bytes) {
        Ok(decode_utf8(bytes))
    } else {
        Err(utf8_fault(bytes))
    }
}

/// `String::from_utf8`: succeeds on exactly the valid UTF-8 sequences and decodes
/// them; the text of the error depends on the bytes alone.
#[verifier::external_body]
fn string_from_utf8(bytes: Vec<u8>) -> (r: Result<String, String>)
    ensures
        r matches Ok(s) ==> valid_utf8(bytes@) && s@ == decode_utf8(bytes@),
        r matches Err(e) ==> !valid_utf8(bytes@) && e@ == utf8_fault(bytes@),
{
    String::from_utf8(bytes).map_err(|e| e.to_string())
}

/// `rsa::RsaPrivateKey::new` with `rand::thread_rng`: a fresh private key, handed
/// out as its PKCS#8 document, which is one that can be read back. Its modulus has
/// exactly the length asked for, and each prime half of it.
#[verifier::external_body]
fn generate_private_key(bits: usize) -> (r: Result<Vec<u8>, String>)
    requires
        1024 <= bits <= 4096,
    ensures
        r matches Ok(der) ==> pkcs8_fault(der@) is None,
        r matches Ok(der) ==> pkcs8_bits(der@) == (
            bits as nat,
            (bits / 2) as nat,
            (bits - bits / 2) as nat,
        ),
{
    let key = RsaPrivateKey::new(&mut rand::thread_rng(), bits).map_err(|e| e.to_string())?;
    let der = key.to_pkcs8_der().map_err(|e| e.to_string())?;
    Ok(der.as_bytes().to_vec())
}

/// The view of the complaint of a check, if it has one.
pub open spec fn complaint(r: Result<(), String>) -> Option<Seq<char>> {
    match r {
        Ok(_) => None,
        Err(e) => Some(e@),
    }
}

/// `rsa::RsaPrivateKey::from_pkcs8_der`: whether it accepts the document, and the
/// text of the error, depend on the document alone.
#[verifier::external_body]
fn check_pkcs8(der: &[u8]) -> (r: Result<(), String>)
    ensures
        complaint(r) == pkcs8_fault(der@),
{
    RsaPrivateKey::from_pkcs8_der(der).map(|_| ()).map_err(|e| e.to_string())
}

/// The view of three lengths.
pub open spec fn lengths(r: (usize, usize, usize)) -> (nat, nat, nat) {
    (r.0 as nat, r.1 as nat, r.2 as nat)
}

/// `rsa::BigUint::bits` of the modulus and of the two primes of the private key in a
/// PKCS#8 document: lengths that depend on the document alone.
#[verifier::external_body]
fn key_lengths(der: &[u8]) -> (r: (usize, usize, usize))
    requires
        pkcs8_fault(der@) is None,
    ensures
        lengths(r) == pkcs8_bits(der@),
{
    let key = RsaPrivateKey::from_pkcs8_der(der).expect("a readable key");
    let primes = key.primes();
    (key.n().bits(), primes[0].bits(), primes[1].bits())
}

/// `rsa::RsaPublicKey::to_public_key_der` of the public half of the private key in
/// a PKCS#8 document: the document made, or the text of the error, depends on the
/// document given alone.
#[verifier::external_body]
fn public_key_der(der: &[u8]) -> (r: Result<Vec<u8>, String>)
    ensures
        bytes_or_message(r) == public_key_document(der@),
{
    let key = RsaPrivateKey::from_pkcs8_der(der).map_err(|e| e.to_string())?;
    let public = RsaPublicKey::from(&key).to_public_key_der().map_err(|e| e.to_string())?;
    Ok(public.as_bytes().to_vec())
}

/// `rsa::RsaPrivateKey::decrypt` with `Oaep::new::<Sha1>()`, under the private key
/// in a PKCS#8 document: the message, or the text of the error, depends on the
/// document and the ciphertext alone. The call adds the first prime to itself as
/// often as it goes into the second, so the second is asked not to be longer.
#[verifier::external_body]
fn oaep_decrypt(der: &[u8], cipher: &[u8]) -> (r: Result<Vec<u8>, String>)
    requires
        pkcs8_fault(der@) is None,
        pkcs8_bits(der@).2 <= pkcs8_bits(der@).1,
    ensures
        bytes_or_message(r) == oaep_plaintext(der@, cipher@),
{
    let key = RsaPrivateKey::from_pkcs8_der(der).map_err(|e| e.to_string())?;
    key.decrypt(Oaep::new::<Sha1>(), cipher).map_err(|e| e.to_string())
}

/// The same call under the same key, to which `rsa::RsaPrivateKey::from_components`
/// has given the primes in the other order. What a ciphertext opens to does not
/// depend on their order: it is the one number below the modulus that fits both
/// primes, or, where these have a common factor, the power by the private exponent.
#[verifier::external_body]
fn oaep_decrypt_reversed(der: &[u8], cipher: &[u8]) -> (r: Result<Vec<u8>, String>)
    requires
        pkcs8_fault(der@) is None,
        pkcs8_bits(der@).1 <= pkcs8_bits(der@).2,
    ensures
        bytes_or_message(r) == oaep_plaintext(der@, cipher@),
{
    let key = RsaPrivateKey::from_pkcs8_der(der).map_err(|e| e.to_string())?;
    let (n, e, d) = (key.n().clone(), key.e().clone(), key.d().clone());
    let primes = vec![key.primes()[1].clone(), key.primes()[0].clone()];
    let reversed = RsaPrivateKey::from_components(n, e, d, primes).map_err(|e| e.to_string())?;
    reversed.decrypt(Oaep::new::<Sha1>(), cipher).map_err(|e| e.to_string())
}

/// Opens an OAEP-SHA-1 ciphertext, with the longer prime of the key in front.
fn oaep_open(der: &[u8], cipher: &[u8]) -> (r: Result<Vec<u8>, String>)
    requires
        pkcs8_fault(der@) is None,
    ensures
        bytes_or_message(r) == oaep_plaintext(der@, cipher@),
{
    let (_, first, second): (usize, usize, usize) = key_lengths(der);
    if second > first {
        oaep_decrypt_reversed(der, cipher)
    } else {
        oaep_decrypt(der, cipher)
    }
}

/// The view of bytes or of an error.
pub open spec fn bytes_result(r: Result<Vec<u8>, Error>) -> Result<Seq<u8>, ErrorView> {
    match r {
        Ok(data) => Ok(data@),
        Err(e) => Err(e@),
    }
}

/// The view of text or of an error.
pub open spec fn text_result(r: Result<String, Error>) -> Result<Seq<char>, ErrorView> {
    match r {
        Ok(s) => Ok(s@),
        Err(e) => Err(e@),
    }
}

/// The view of a key or of an error.
pub open spec fn key_result(r: Result<SymmetricKey, Error>) -> Result<Seq<u8>, ErrorView> {
    match r {
        Ok(k) => Ok(k@),
        Err(e) => Err(e@),
    }
}

/// Base64 components of a type-2 EncString.
pub struct EncParts {
    pub iv: String,
    pub data: String,
    pub mac: String,
}

/// The mathematical view of an [`EncParts`].
pub struct EncPartsView {
    pub iv: Seq<char>,
    pub data: Seq<char>,
    pub mac: Seq<char>,
}

impl View for EncParts {
    type V = EncPartsView;

    open spec fn view(&self) -> EncPartsView {
        EncPartsView { iv: self.iv@, data: self.data@, mac: self.mac@ }
    }
}

/// The EncString with given components.
pub open spec fn enc_string(p: EncPartsView) -> Seq<char> {
    "2."@ + p.iv + "|"@ + p.data + "|"@ + p.mac
}

impl EncParts {
    /// The EncString itself: `2.<iv>|<data>|<mac>`.
    pub fn to_enc_string(&self) -> (r: String)
        ensures
            r@ == enc_string(self@),
    {
        let mut out: String = "2.".to_owned();
        out.append(self.iv.as_str());
        out.append("|");
        out.append(self.data.as_str());
        out.append("|");
        out.append(self.mac.as_str());
        out
    }
}

/// The cipher half of a 64-byte key.
pub open spec fn cipher_half(key: Seq<u8>) -> Seq<u8> {
    key.take(32)
}

/// The MAC half of a 64-byte key.
pub open spec fn mac_half(key: Seq<u8>) -> Seq<u8> {
    key.skip(32)
}

/// The key that 64 bytes are.
pub open spec fn key_of(raw: Seq<u8>) -> Result<Seq<u8>, ErrorView> {
    if raw.len() == 64 {
        Ok(raw)
    } else {
        Err(Failure::KeyLength(raw.len() as usize))
    }
}

/// The key that a base64 text, white space around it aside, stands for.
pub open spec fn key_of_b64(text: Seq<char>) -> Result<Seq<u8>, ErrorView> {
    match b64_bytes(trimmed(text)) {
        Ok(raw) => key_of(raw),
        Err(t) => Err(Failure::Base64(t)),
    }
}

/// The bytes of a key make up the key again.
pub proof fn lemma_key_bytes_round_trip(key: &SymmetricKey)
    ensures
        key_of(key@) == Ok::<Seq<u8>, ErrorView>(key@),
{
    key.lemma_len();
}

/// The base64 text of 64 bytes is read as the key of those bytes.
pub proof fn lemma_key_b64_round_trip(key: Seq<u8>)
    requires
        key.len() == 64,
    ensures
        key_of_b64(b64_text(key)) == Ok::<Seq<u8>, ErrorView>(key),
{
    let text = b64_text(key);
    lemma_b64_round_trip(key);
    lemma_b64_no_space(key);
    assert(text.len() > 0);
    assert(!white_space(text[0]));
    assert(!white_space(text.last()));
    assert(trim_start(text) == text);
    assert(trim_end(text) == text);
}

/// The components of the EncString of a message under a key, with a given
/// initialisation vector.
pub open spec fn sealed(key: Seq<u8>, iv: Seq<u8>, plain: Seq<u8>) -> EncPartsView {
    let cipher = aes_cbc_ciphertext(cipher_half(key), iv, plain);
    EncPartsView {
        iv: b64_text(iv),
        data: b64_text(cipher),
        mac: b64_text(hmac_sha256(mac_half(key), iv + cipher)),
    }
}

/// What a key makes of a vector, a ciphertext and a tag: the MAC is checked first.
pub open spec fn opened(key: Seq<u8>, iv: Seq<u8>, cipher: Seq<u8>, tag: Seq<u8>) -> Result<
    Seq<u8>,
    ErrorView,
> {
    if tag != hmac_sha256(mac_half(key), iv + cipher) {
        Err(Failure::MacMismatch)
    } else if iv.len() != 16 {
        Err(Failure::IvLength(iv.len() as usize))
    } else {
        match aes_cbc_plaintext(cipher_half(key), iv, cipher) {
            Ok(plain) => Ok(plain),
            Err(t) => Err(Failure::Cipher(t)),
        }
    }
}

/// What a key makes of the pieces of an EncString after its type. Pieces after the
/// third are ignored.
pub open spec fn opened_pieces(key: Seq<u8>, pieces: Seq<Seq<char>>) -> Result<Seq<u8>, ErrorView> {
    match b64_bytes(pieces[0]) {
        Err(t) => Err(Failure::Base64(t)),
        Ok(iv) => if pieces.len() < 2 {
            Err(Failure::MissingCiphertext)
        } else {
            match b64_bytes(pieces[1]) {
                Err(t) => Err(Failure::Base64(t)),
                Ok(cipher) => if pieces.len() < 3 {
                    Err(Failure::MissingMac)
                } else {
                    match b64_bytes(pieces[2]) {
                        Err(t) => Err(Failure::Base64(t)),
                        Ok(tag) => opened(key, iv, cipher, tag),
                    }
                },
            }
        },
    }
}

/// The first characters of a text, up to eight.
pub open spec fn lead(text: Seq<char>) -> Seq<char> {
    text.take(if text.len() < 8 {
        text.len() as int
    } else {
        8
    })
}

/// What a key makes of an EncString.
pub open spec fn decrypted(key: Seq<u8>, text: Seq<char>) -> Result<Seq<u8>, ErrorView> {
    match after_prefix(text, "2."@) {
        None => Err(Failure::EncStringType(lead(text))),
        Some(body) => opened_pieces(key, split_on(body, '|')),
    }
}

/// What a key makes of an EncString that holds text.
pub open spec fn decrypted_text(key: Seq<u8>, text: Seq<char>) -> Result<Seq<char>, ErrorView> {
    match decrypted(key, text) {
        Err(e) => Err(e),
        Ok(plain) => match utf8_text(plain) {
            Ok(s) => Ok(s),
            Err(t) => Err(Failure::NotUtf8(t)),
        },
    }
}

/// Whether components have the sizes of an encrypted message of `n` bytes: a vector
/// of 16 bytes, a ciphertext of whole blocks with at least one byte of padding, and
/// the 32 bytes of the tag of the two under the MAC half of the key.
pub open spec fn well_sized(key: Seq<u8>, p: EncPartsView, n: nat) -> bool {
    match (b64_bytes(p.iv), b64_bytes(p.data), b64_bytes(p.mac)) {
        (Ok(iv), Ok(cipher), Ok(tag)) => {
            &&& iv.len() == 16
            &&& cipher.len() == padded_len(n)
            &&& tag.len() == 32
            &&& tag == hmac_sha256(mac_half(key), iv + cipher)
        },
        _ => false,
    }
}

/// The EncString made of components without separators gives those components
/// back, and its base64 parts the bytes they were made from.
proof fn lemma_enc_string_pieces(p: EncPartsView)
    requires
        !p.iv.contains('|'),
        !p.data.contains('|'),
        !p.mac.contains('|'),
    ensures
        after_prefix(enc_string(p), "2."@) is Some,
        split_on(after_prefix(enc_string(p), "2."@)->0, '|') == seq![p.iv, p.data, p.mac],
{
    reveal_strlit("2.");
    reveal_strlit("|");
    let text = enc_string(p);
    let body = p.iv + seq!['|'] + p.data + seq!['|'] + p.mac;
    assert("|"@ =~= seq!['|']);
    assert(text =~= "2."@ + body);
    assert(text.subrange(0, 2) =~= "2."@);
    assert(text.skip(2) =~= body);
    lemma_split_single(p.iv, '|');
    lemma_split_last(p.iv, '|', p.data);
    lemma_split_last(p.iv + seq!['|'] + p.data, '|', p.mac);
    assert(split_on(body, '|') =~= seq![p.iv, p.data, p.mac]);
}

/// Decrypting what was encrypted gives the message back, provided that the cipher
/// undoes itself on it.
proof fn lemma_sealed_opens(key: Seq<u8>, iv: Seq<u8>, plain: Seq<u8>)
    requires
        iv.len() == 16,
        opens_to(cipher_half(key), iv, aes_cbc_ciphertext(cipher_half(key), iv, plain), plain),
    ensures
        decrypted(key, enc_string(sealed(key, iv, plain))) == Ok::<Seq<u8>, ErrorView>(plain),
{
    let cipher = aes_cbc_ciphertext(cipher_half(key), iv, plain);
    let tag = hmac_sha256(mac_half(key), iv + cipher);
    lemma_b64_alphabet(iv);
    lemma_b64_alphabet(cipher);
    lemma_b64_alphabet(tag);
    lemma_b64_round_trip(iv);
    lemma_b64_round_trip(cipher);
    lemma_b64_round_trip(tag);
    lemma_enc_string_pieces(sealed(key, iv, plain));
}

/// An EncString whose third part is not the MAC of the first two under the key is
/// refused, whatever else it holds.
pub proof fn lemma_wrong_mac_refused(key: Seq<u8>, iv: Seq<u8>, cipher: Seq<u8>, tag: Seq<u8>)
    requires
        tag != hmac_sha256(mac_half(key), iv + cipher),
    ensures
        decrypted(
            key,
            enc_string(
                EncPartsView { iv: b64_text(iv), data: b64_text(cipher), mac: b64_text(tag) },
            ),
        ) == Err::<Seq<u8>, ErrorView>(Failure::MacMismatch),
{
    lemma_b64_alphabet(iv);
    lemma_b64_alphabet(cipher);
    lemma_b64_alphabet(tag);
    lemma_b64_round_trip(iv);
    lemma_b64_round_trip(cipher);
    lemma_b64_round_trip(tag);
    lemma_enc_string_pieces(
        EncPartsView { iv: b64_text(iv), data: b64_text(cipher), mac: b64_text(tag) },
    );
}

/// A symmetric key: 32 bytes AES and 32 bytes HMAC.
pub struct SymmetricKey {
    enc: [u8; 32],
    mac: [u8; 32],
}

impl View for SymmetricKey {
    type V = Seq<u8>;

    closed spec fn view(&self) -> Seq<u8> {
        self.enc@ + self.mac@
    }
}

impl Clone for SymmetricKey {
    fn clone(&self) -> (r: SymmetricKey)
        ensures
            r@ == self@,
    {
        SymmetricKey { enc: self.enc, mac: self.mac }
    }
}

/// The first `N` bytes of a slice from `from` on.
fn array_from<const N: usize>(raw: &[u8], from: usize) -> (r: [u8; N])
    requires
        from + N <= raw@.len(),
    ensures
        r@ == raw@.subrange(from as int, from + N),
{
    let total: usize = raw.len();
    let mut out: [u8; N] = [0u8; N];
    let mut i: usize = 0;
    while i < N
        invariant
            from + N <= raw@.len() == total,
            i <= N,
            out@.len() == N,
            forall|j: int| 0 <= j < i ==> out@[j] == raw@[from + j],
        decreases N - i,
    {
        out[i] = raw[from + i];
        i += 1;
    }
    assert(out@ =~= raw@.subrange(from as int, from + N));
    out
}

impl SymmetricKey {
    /// A key has 64 bytes.
    pub proof fn lemma_len(&self)
        ensures
            self@.len() == 64,
    {
    }

    /// Makes a key from its 64 bytes.
    pub fn from_bytes(raw: &[u8]) -> (r: Result<Self, Error>)
        ensures
            key_result(r) == key_of(raw@),
    {
        if raw.len() != 64 {
            return Err(Failure::KeyLength(raw.len()));
        }
        let enc: [u8; 32] = array_from::<32>(raw, 0);
        let mac: [u8; 32] = array_from::<32>(raw, 32);
        let key: SymmetricKey = SymmetricKey { enc, mac };
        assert(key@ =~= raw@);
        Ok(key)
    }

    /// Makes a key from the base64 text of its 64 bytes.
    pub fn from_b64(s: &str) -> (r: Result<Self, Error>)
        ensures
            key_result(r) == key_of_b64(s@),
    {
        match decode(trim(s).as_str()) {
            Ok(raw) => Self::from_bytes(raw.as_slice()),
            Err(t) => Err(Failure::Base64(t)),
        }
    }

    /// The 64 bytes of the key.
    pub fn to_bytes(&self) -> (r: Vec<u8>)
        ensures
            r@ == self@,
            r@.len() == 64,
    {
        let mut out: Vec<u8> = Vec::new();
        let mut i: usize = 0;
        while i < 64
            invariant
                i <= 64,
                self.enc@.len() == 32,
                self.mac@.len() == 32,
                self@ == self.enc@ + self.mac@,
                out@ =~= self@.take(i as int),
            decreases 64 - i,
        {
            if i < 32 {
                out.push(self.enc[i]);
            } else {
                out.push(self.mac[i - 32]);
            }
            i += 1;
        }
        assert(self@.take(64) =~= self@);
        out
    }

    /// Decrypts a type-2 EncString that holds text.
    pub fn decrypt_str(&self, enc_string: &str) -> (r: Result<String, Error>)
        ensures
            text_result(r) == decrypted_text(self@, enc_string@),
    {
        match self.decrypt(enc_string) {
            Ok(plain) => match string_from_utf8(plain) {
                Ok(s) => Ok(s),
                Err(t) => Err(Failure::NotUtf8(t)),
            },
            Err(e) => Err(e),
        }
    }

    /// Encrypts a message under a given initialisation vector. What comes out
    /// decrypts to the message.
    pub fn encrypt_parts_with_iv(&self, plaintext: &[u8], iv: &[u8; 16]) -> (r: EncParts)
        requires
            sealable(plaintext@.len()),
        ensures
            r@ == sealed(self@, iv@, plaintext@),
            well_sized(self@, r@, plaintext@.len()),
            decrypted(self@, enc_string(r@)) == Ok::<Seq<u8>, ErrorView>(plaintext@),
    {
        assert(cipher_half(self@) =~= self.enc@);
        assert(mac_half(self@) =~= self.mac@);
        let cipher: Vec<u8> = aes_cbc_encrypt(&self.enc, iv, plaintext);
        let tag: Vec<u8> = hmac_sha256_tag(&self.mac, iv.as_slice(), cipher.as_slice());
        proof {
            lemma_sealed_opens(self@, iv@, plaintext@);
            lemma_b64_round_trip(iv@);
            lemma_b64_round_trip(cipher@);
            lemma_b64_round_trip(tag@);
        }
        EncParts {
            iv: encode(iv.as_slice()),
            data: encode(cipher.as_slice()),
            mac: encode(tag.as_slice()),
        }
    }

    /// Encrypts a message under a random initialisation vector.
    pub fn encrypt_parts(&self, plaintext: &[u8]) -> (r: EncParts)
        requires
            sealable(plaintext@.len()),
        ensures
            exists|iv: Seq<u8>| iv.len() == 16 && r@ == #[trigger] sealed(self@, iv, plaintext@),
            well_sized(self@, r@, plaintext@.len()),
            decrypted(self@, enc_string(r@)) == Ok::<Seq<u8>, ErrorView>(plaintext@),
    {
        let iv: [u8; 16] = random_iv();
        let r: EncParts = self.encrypt_parts_with_iv(plaintext, &iv);
        assert(iv@.len() == 16 && r@ == sealed(self@, iv@, plaintext@));
        r
    }

    /// Decrypts a type-2 EncString. The MAC is verified before anything is
    /// decrypted.
    pub fn decrypt(&self, enc_string: &str) -> (r: Result<Vec<u8>, Error>)
        ensures
            bytes_result(r) == decrypted(self@, enc_string@),
    {
        assert(cipher_half(self@) =~= self.enc@);
        assert(mac_half(self@) =~= self.mac@);
        let body: String = match strip_prefix(enc_string, "2.") {
            Some(body) => body,
            None => {
                let chars: Vec<char> = chars_of(enc_string);
                let end: usize = if chars.len() < 8 {
                    chars.len()
                } else {
                    8
                };
                let prefix: String = string_from(&chars, 0, end);
                assert(prefix@ =~= lead(enc_string@));
                return Err(Failure::EncStringType(prefix));
            },
        };
        let pieces: Vec<String> = split(body.as_str(), '|');
        assert(forall|i: int| 0 <= i < pieces@.len() ==> views(pieces@)[i] == pieces@[i]@);
        let iv: Vec<u8> = match decode(pieces[0].as_str()) {
            Ok(data) => data,
            Err(t) => return Err(Failure::Base64(t)),
        };
        if pieces.len() < 2 {
            return Err(Failure::MissingCiphertext);
        }
        let cipher: Vec<u8> = match decode(pieces[1].as_str()) {
            Ok(data) => data,
            Err(t) => return Err(Failure::Base64(t)),
        };
        if pieces.len() < 3 {
            return Err(Failure::MissingMac);
        }
        let tag: Vec<u8> = match decode(pieces[2].as_str()) {
            Ok(data) => data,
            Err(t) => return Err(Failure::Base64(t)),
        };
        self.open(iv.as_slice(), cipher.as_slice(), tag.as_slice())
    }

    /// Checks the tag and decrypts.
    fn open(&self, iv: &[u8], cipher: &[u8], tag: &[u8]) -> (r: Result<Vec<u8>, Error>)
        ensures
            bytes_result(r) == opened(self@, iv@, cipher@, tag@),
    {
        assert(cipher_half(self@) =~= self.enc@);
        assert(mac_half(self@) =~= self.mac@);
        if !hmac_sha256_verify(&self.mac, iv, cipher, tag) {
            return Err(Failure::MacMismatch);
        }
        if iv.len() != 16 {
            return Err(Failure::IvLength(iv.len()));
        }
        let vector: [u8; 16] = array_from::<16>(iv, 0);
        assert(vector@ =~= iv@);
        match aes_cbc_decrypt(&self.enc, &vector, cipher) {
            Ok(plain) => Ok(plain),
            Err(t) => Err(Failure::Cipher(t)),
        }
    }
}

/// What a private key makes of an OAEP-SHA-1 ciphertext in base64 that holds a
/// symmetric key.
pub open spec fn unwrapped_key(der: Seq<u8>, text: Seq<char>) -> Result<Seq<u8>, ErrorView> {
    match b64_bytes(text) {
        Err(t) => Err(Failure::Base64(t)),
        Ok(cipher) => match oaep_plaintext(der, cipher) {
            Err(t) => Err(Failure::Rsa(t)),
            Ok(raw) => key_of(raw),
        },
    }
}

/// The base64 text of the SubjectPublicKeyInfo document of a private key.
pub open spec fn public_key_text(der: Seq<u8>) -> Result<Seq<char>, ErrorView> {
    match public_key_document(der) {
        Err(t) => Err(Failure::Rsa(t)),
        Ok(document) => if b64_fits(document.len()) {
            Ok(b64_text(document))
        } else {
            Err(Failure::MessageTooLarge)
        },
    }
}

/// The private key in a document, which is the document itself, or the complaint that the
/// document is none.
pub open spec fn private_key_in(der: Seq<u8>) -> Result<Seq<u8>, Seq<char>> {
    match pkcs8_fault(der) {
        None => Ok(der),
        Some(t) => Err(t),
    }
}

/// The ephemeral RSA key pair of a handshake.
pub struct KeyPair {
    der: Vec<u8>,
}

impl View for KeyPair {
    type V = Seq<u8>;

    closed spec fn view(&self) -> Seq<u8> {
        self.der@
    }
}

/// The number of bits of a handshake key.
pub const KEY_PAIR_BITS: usize = 2048;

impl KeyPair {
    #[verifier::type_invariant]
    spec fn opens(self) -> bool {
        pkcs8_fault(self.der@) is None
    }

    /// Makes a new key pair of 2048 bits. The view of a pair is its PKCS#8
    /// document.
    pub fn generate() -> (r: Result<Self, Error>)
        ensures
            r matches Ok(pair) ==> pkcs8_fault(pair@) is None,
            r matches Ok(pair) ==> pkcs8_bits(pair@).0 == KEY_PAIR_BITS,
            r matches Err(e) ==> e is Rsa,
    {
        match generate_private_key(KEY_PAIR_BITS) {
            Ok(der) => Ok(KeyPair { der }),
            Err(t) => Err(Failure::Rsa(t)),
        }
    }

    /// The key pair in a PKCS#8 document.
    pub fn from_pkcs8_der(der: &[u8]) -> (r: Result<Self, Error>)
        ensures
            match private_key_in(der@) {
                Ok(key) => r is Ok && r->Ok_0@ == key,
                Err(t) => r is Err && r->Err_0@ == Failure::Rsa(t),
            },
    {
        match check_pkcs8(der) {
            Ok(_) => Ok(KeyPair { der: vstd::slice::slice_to_vec(der) }),
            Err(t) => Err(Failure::Rsa(t)),
        }
    }

    /// Base64 of the DER-encoded SubjectPublicKeyInfo of the public half.
    pub fn public_key_b64(&self) -> (r: Result<String, Error>)
        ensures
            text_result(r) == public_key_text(self@),
    {
        match public_key_der(self.der.as_slice()) {
            Err(t) => Err(Failure::Rsa(t)),
            Ok(document) => {
                let n: usize = document.len();
                let fits: bool = n <= isize::MAX as usize / 4 * 3;
                if fits {
                    Ok(encode(document.as_slice()))
                } else {
                    Err(Failure::MessageTooLarge)
                }
            },
        }
    }

    /// Decrypts the transport key that was wrapped for this pair.
    pub fn unwrap_transport_key(&self, encrypted_b64: &str) -> (r: Result<SymmetricKey, Error>)
        ensures
            key_result(r) == unwrapped_key(self@, encrypted_b64@),
    {
        proof {
            use_type_invariant(self);
        }
        match decode(encrypted_b64) {
            Err(t) => Err(Failure::Base64(t)),
            Ok(cipher) => match oaep_open(self.der.as_slice(), cipher.as_slice()) {
                Err(t) => Err(Failure::Rsa(t)),
                Ok(raw) => SymmetricKey::from_bytes(raw.as_slice()),
            },
        }
    }
}

/// What a private key makes of a type-4 EncString.
pub open spec fn decrypted_type4(der: Seq<u8>, text: Seq<char>) -> Result<Seq<u8>, ErrorView> {
    match after_prefix(text, "4."@) {
        None => Err(Failure::NotType4),
        Some(body) => match b64_bytes(body) {
            Err(t) => Err(Failure::Base64(t)),
            Ok(cipher) => match oaep_plaintext(der, cipher) {
                Err(t) => Err(Failure::Unwrap(t)),
                Ok(raw) => Ok(raw),
            },
        },
    }
}

/// The account's RSA private key, which unwraps organization keys.
pub struct PrivateKey {
    der: Vec<u8>,
}

impl View for PrivateKey {
    type V = Seq<u8>;

    closed spec fn view(&self) -> Seq<u8> {
        self.der@
    }
}

impl PrivateKey {
    #[verifier::type_invariant]
    spec fn opens(self) -> bool {
        pkcs8_fault(self.der@) is None
    }

    /// Takes the key from a PKCS#8 document, which is its view.
    pub fn from_pkcs8_der(der: &[u8]) -> (r: Result<Self, Error>)
        ensures
            match private_key_in(der@) {
                Ok(key) => r is Ok && r->Ok_0@ == key,
                Err(t) => r is Err && r->Err_0@ == Failure::AccountKey(t),
            },
    {
        match check_pkcs8(der) {
            Ok(_) => Ok(PrivateKey { der: vstd::slice::slice_to_vec(der) }),
            Err(t) => Err(Failure::AccountKey(t)),
        }
    }

    /// Decrypts a type-4 EncString: `4.<base64>`, RSA-OAEP with SHA-1.
    pub fn decrypt_type4(&self, enc_string: &str) -> (r: Result<Vec<u8>, Error>)
        ensures
            bytes_result(r) == decrypted_type4(self@, enc_string@),
    {
        proof {
            use_type_invariant(self);
        }
        match strip_prefix(enc_string, "4.") {
            None => Err(Failure::NotType4),
            Some(body) => match decode(body.as_str()) {
                Err(t) => Err(Failure::Base64(t)),
                Ok(cipher) => match oaep_open(self.der.as_slice(), cipher.as_slice()) {
                    Err(t) => Err(Failure::Unwrap(t)),
                    Ok(raw) => Ok(raw),
                },
            },
        }
    }
}

/// A key of 64 bytes is made of what the cipher uses, 32 bytes, and of what the MAC
/// uses, the other 32, in this order.
pub proof fn lemma_key_halves(enc: Seq<u8>, mac: Seq<u8>)
    requires
        enc.len() == 32,
        mac.len() == 32,
    ensures
        key_of(enc + mac) == Ok::<Seq<u8>, ErrorView>(enc + mac),
        cipher_half(enc + mac) == enc,
        mac_half(enc + mac) == mac,
{
    assert(cipher_half(enc + mac) =~= enc);
    assert(mac_half(enc + mac) =~= mac);
}

/// Bytes are a key if and only if they are 64; the complaint gives their number.
pub proof fn lemma_key_length(raw: Seq<u8>)
    ensures
        raw.len() == 64 ==> key_of(raw) == Ok::<Seq<u8>, ErrorView>(raw),
        raw.len() != 64 ==> key_of(raw) == Err::<Seq<u8>, ErrorView>(
            Failure::KeyLength(raw.len() as usize),
        ),
{
}

/// White space around the base64 text of a key does not matter.
pub proof fn lemma_key_b64_in_space(before: Seq<char>, text: Seq<char>, after: Seq<char>)
    requires
        blank(before),
        blank(after),
        text.len() > 0 ==> !white_space(text[0]) && !white_space(text.last()),
    ensures
        key_of_b64(before + text + after) == (match b64_bytes(text) {
            Err(t) => Err::<Seq<u8>, ErrorView>(Failure::Base64(t)),
            Ok(raw) => if raw.len() == 64 {
                Ok(raw)
            } else {
                Err(Failure::KeyLength(raw.len() as usize))
            },
        }),
{
    lemma_trimmed(before, text, after);
}

/// What decrypting makes of every text of the second type: its parts are told apart
/// by bars and read as base64 one after the other, the MAC is held against vector and
/// ciphertext, and only then the ciphertext is opened. Parts after the third do not
/// matter.
pub proof fn lemma_decrypted_cases(enc: Seq<u8>, mac: Seq<u8>, parts: Seq<Seq<char>>)
    requires
        enc.len() == 32,
        parts.len() > 0,
        forall|i: int| 0 <= i < parts.len() ==> !(#[trigger] parts[i]).contains('|'),
    ensures
        b64_bytes(parts[0]) matches Err(t) ==> decrypted(enc + mac, "2."@ + rejoined(parts, '|'))
            == Err::<Seq<u8>, ErrorView>(Failure::Base64(t)),
        b64_bytes(parts[0]) is Ok && parts.len() == 1 ==> decrypted(
            enc + mac,
            "2."@ + rejoined(parts, '|'),
        ) == Err::<Seq<u8>, ErrorView>(Failure::MissingCiphertext),
        b64_bytes(parts[0]) is Ok && parts.len() > 1 ==> (b64_bytes(parts[1]) matches Err(t)
            ==> decrypted(enc + mac, "2."@ + rejoined(parts, '|')) == Err::<Seq<u8>, ErrorView>(
            Failure::Base64(t),
        )),
        b64_bytes(parts[0]) is Ok && parts.len() == 2 && b64_bytes(parts[1]) is Ok ==> decrypted(
            enc + mac,
            "2."@ + rejoined(parts, '|'),
        ) == Err::<Seq<u8>, ErrorView>(Failure::MissingMac),
        b64_bytes(parts[0]) is Ok && parts.len() > 2 && b64_bytes(parts[1]) is Ok ==> (b64_bytes(
            parts[2],
        ) matches Err(t) ==> decrypted(enc + mac, "2."@ + rejoined(parts, '|')) == Err::<
            Seq<u8>,
            ErrorView,
        >(Failure::Base64(t))),
        forall|iv: Seq<u8>, cipher: Seq<u8>, tag: Seq<u8>|
            #![trigger b64_text(iv), b64_text(cipher), b64_text(tag)]
            parts.len() > 2 && b64_bytes(parts[0]) == Ok::<Seq<u8>, Seq<char>>(iv) && b64_bytes(
                parts[1],
            ) == Ok::<Seq<u8>, Seq<char>>(cipher) && b64_bytes(parts[2]) == Ok::<
                Seq<u8>,
                Seq<char>,
            >(tag) ==> {
                let r = decrypted(enc + mac, "2."@ + rejoined(parts, '|'));
                &&& tag != hmac_sha256(mac, iv + cipher) ==> r == Err::<Seq<u8>, ErrorView>(
                    Failure::MacMismatch,
                )
                &&& tag == hmac_sha256(mac, iv + cipher) && iv.len() != 16 ==> r == Err::<
                    Seq<u8>,
                    ErrorView,
                >(Failure::IvLength(iv.len() as usize))
                &&& tag == hmac_sha256(mac, iv + cipher) && iv.len() == 16 ==> r == (
                match aes_cbc_plaintext(enc, iv, cipher) {
                    Ok(plain) => Ok::<Seq<u8>, ErrorView>(plain),
                    Err(t) => Err(Failure::Cipher(t)),
                })
            },
{
    let key = enc + mac;
    assert(cipher_half(key) =~= enc);
    assert(mac_half(key) =~= mac);
    lemma_after_prefix("2."@, rejoined(parts, '|'));
    lemma_rejoined_splits(parts, '|');
}

/// A text that does not begin with `2.` is of another type, and the complaint quotes
/// its first characters, eight at most.
pub proof fn lemma_other_type_refused(key: Seq<u8>, text: Seq<char>)
    requires
        forall|rest: Seq<char>| text != #[trigger] ("2."@ + rest),
    ensures
        exists|head: Seq<char>, rest: Seq<char>|
            #![trigger (head + rest)]
            text == head + rest && (head.len() == 8 || head.len() < 8 && rest.len() == 0)
                && decrypted(key, text) == Err::<Seq<u8>, ErrorView>(Failure::EncStringType(head)),
{
    if let Some(rest) = after_prefix(text, "2."@) {
        lemma_after_prefix("2."@, text);
        assert(text == "2."@ + rest);
    }
    let head = lead(text);
    let rest = text.skip(head.len() as int);
    assert(text =~= head + rest);
}

/// Text that decrypts to the UTF-8 bytes of some characters is those characters, all
/// of them and as they are; bytes that are no UTF-8 are refused, and what cannot be
/// decrypted is refused for the same reason as text as it is as bytes.
pub proof fn lemma_decrypted_text(key: Seq<u8>, text: Seq<char>, content: Seq<char>)
    ensures
        decrypted(key, text) == Ok::<Seq<u8>, ErrorView>(encode_utf8(content)) <==> decrypted_text(
            key,
            text,
        ) == Ok::<Seq<char>, ErrorView>(content),
        decrypted(key, text) matches Ok(plain) ==> !valid_utf8(plain) ==> decrypted_text(key, text)
            == Err::<Seq<char>, ErrorView>(Failure::NotUtf8(utf8_fault(plain))),
        decrypted(key, text) matches Err(e) ==> decrypted_text(key, text) == Err::<
            Seq<char>,
            ErrorView,
        >(e),
{
    encode_utf8_valid_utf8(content);
    encode_utf8_decode_utf8(content);
    if let Ok(plain) = decrypted(key, text) {
        if valid_utf8(plain) {
            vstd::utf8::decode_utf8_encode_utf8(plain);
        }
    }
}

/// Text that was encrypted under a key comes back whole.
pub proof fn lemma_text_round_trip(key: Seq<u8>, iv: Seq<u8>, content: Seq<char>)
    requires
        key.len() == 64,
        iv.len() == 16,
        opens_to(
            key.take(32),
            iv,
            aes_cbc_ciphertext(key.take(32), iv, encode_utf8(content)),
            encode_utf8(content),
        ),
    ensures
        decrypted_text(key, enc_string(sealed(key, iv, encode_utf8(content)))) == Ok::<
            Seq<char>,
            ErrorView,
        >(content),
{
    lemma_sealed_opens(key, iv, encode_utf8(content));
    lemma_decrypted_text(key, enc_string(sealed(key, iv, encode_utf8(content))), content);
}

/// What is encrypted is named by its parts: the vector, the ciphertext under the first
/// half of the key, and the tag of the two, one after the other, under the second half.
pub proof fn lemma_sealed_parts(enc: Seq<u8>, mac: Seq<u8>, iv: Seq<u8>, plain: Seq<u8>)
    requires
        enc.len() == 32,
    ensures
        enc_string(sealed(enc + mac, iv, plain)) == "2."@ + rejoined(
            seq![
                b64_text(iv),
                b64_text(aes_cbc_ciphertext(enc, iv, plain)),
                b64_text(hmac_sha256(mac, iv + aes_cbc_ciphertext(enc, iv, plain))),
            ],
            '|',
        ),
{
    let key = enc + mac;
    assert(cipher_half(key) =~= enc);
    assert(mac_half(key) =~= mac);
    let p = sealed(key, iv, plain);
    let parts = seq![p.iv, p.data, p.mac];
    reveal_strlit("|");
    assert("|"@ =~= seq!['|']);
    let two = parts.drop_last();
    assert(two.drop_last().len() == 1);
    assert(rejoined(two.drop_last(), '|') == p.iv);
    assert(rejoined(two, '|') == p.iv + seq!['|'] + p.data);
    assert(rejoined(parts, '|') == p.iv + seq!['|'] + p.data + seq!['|'] + p.mac);
    assert(enc_string(p) =~= "2."@ + rejoined(parts, '|'));
}

/// The transport key is what the wrapped bytes open to, if these are 64.
pub proof fn lemma_unwrapped_key(der: Seq<u8>, text: Seq<char>)
    ensures
        b64_bytes(text) matches Err(t) ==> unwrapped_key(der, text) == Err::<Seq<u8>, ErrorView>(
            Failure::Base64(t),
        ),
        b64_bytes(text) matches Ok(cipher) ==> (oaep_plaintext(der, cipher) matches Err(t)
            ==> unwrapped_key(der, text) == Err::<Seq<u8>, ErrorView>(Failure::Rsa(t))),
        b64_bytes(text) matches Ok(cipher) ==> (oaep_plaintext(der, cipher) matches Ok(raw)
            ==> unwrapped_key(der, text) == (if raw.len() == 64 {
            Ok::<Seq<u8>, ErrorView>(raw)
        } else {
            Err(Failure::KeyLength(raw.len() as usize))
        })),
{
}

/// A text of the fourth type opens to what the private key makes of its bytes; a text
/// that does not begin with `4.` is refused.
pub proof fn lemma_type4(der: Seq<u8>, body: Seq<char>, text: Seq<char>)
    ensures
        b64_bytes(body) matches Err(t) ==> decrypted_type4(der, "4."@ + body) == Err::<
            Seq<u8>,
            ErrorView,
        >(Failure::Base64(t)),
        b64_bytes(body) matches Ok(cipher) ==> decrypted_type4(der, "4."@ + body) == (
        match oaep_plaintext(der, cipher) {
            Ok(raw) => Ok::<Seq<u8>, ErrorView>(raw),
            Err(t) => Err(Failure::Unwrap(t)),
        }),
        (forall|rest: Seq<char>| text != #[trigger] ("4."@ + rest)) ==> decrypted_type4(der, text)
            == Err::<Seq<u8>, ErrorView>(Failure::NotType4),
{
    lemma_after_prefix("4."@, body);
    if let Some(rest) = after_prefix(text, "4."@) {
        lemma_after_prefix("4."@, text);
        assert(text == "4."@ + rest);
    }
}

/// The public key is sent as the base64 text of its document.
pub proof fn lemma_public_key_text(der: Seq<u8>)
    ensures
        public_key_document(der) matches Err(t) ==> public_key_text(der) == Err::<
            Seq<char>,
            ErrorView,
        >(Failure::Rsa(t)),
        public_key_text(der) matches Ok(text) ==> (public_key_document(der) matches Ok(document)
            && b64_bytes(text) == Ok::<Seq<u8>, Seq<char>>(document)),
        public_key_document(der) matches Ok(document) ==> b64_fits(document.len()) ==> public_key_text(
            der,
        ) == Ok::<Seq<char>, ErrorView>(b64_text(document)),
{
    if let Ok(document) = public_key_document(der) {
        lemma_b64_round_trip(document);
    }
}

/// A message can be encrypted if and only if the base64 text of its ciphertext fits in
/// memory; the ciphertext is as long as the next multiple of 16 above the message.
pub proof fn lemma_sealable(n: nat, blocks: nat)
    requires
        16 * (blocks - 1) <= n < 16 * blocks,
    ensures
        padded_len(n) == 16 * blocks,
        sealable(n) <==> 4 * ((16 * blocks + 2) / 3) <= isize::MAX,
{
    assert(n / 16 == blocks - 1);
}

/// The pair of a handshake has a modulus of 256 bytes.
pub proof fn lemma_key_pair_bits()
    ensures
        KEY_PAIR_BITS == 8 * 256,
{
}

/// A document holds a private key if and only if nothing is wrong with it, and the key is
/// the one in the document.
pub proof fn lemma_private_key_in(der: Seq<u8>, t: Seq<char>)
    ensures
        pkcs8_fault(der) is None <==> private_key_in(der) == Ok::<Seq<u8>, Seq<char>>(der),
        pkcs8_fault(der) == Some(t) <==> private_key_in(der) == Err::<Seq<u8>, Seq<char>>(t),
{
}

} // verus!
