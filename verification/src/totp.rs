//! Time-based one-time passwords for vault items.
//!
//! A secret is a bare base32 text or an `otpauth://` URI with the parameters
//! `secret`, `digits`, `period` and `algorithm`. SHA-1 is supported.

use crate::clock::{now_secs, possible, reading};
use crate::crypto::text_result;
use crate::error::{Error, ErrorView, Failure};
use crate::text::{after_prefix, chars_of, code_point, cut, cut_at, decimal, decimal_string};
use crate::text::{ascii_lower, digit_char, is_digit, lemma_split_last, lemma_split_single};
use crate::text::{blank, digits_value, lemma_after_prefix, lemma_cut, lemma_cut_at_first};
use crate::text::{lemma_decimal_value, lemma_rejoined_splits, lemma_trimmed, rejoined};
use crate::text::{trim_end, trim_start};
use crate::text::{eq_ignore_ascii_case, is_white_space, parse_unsigned, remove_char, split};
use crate::text::{same_ignoring_ascii_case, split_on, str_eq, strip_prefix, trim, trimmed, views};
use crate::text::{unsigned_number, white_space, without};
use hmac::{Hmac, Mac};
use sha1::Sha1;
use vstd::arithmetic::div_mod::{lemma_breakdown, lemma_div_denominator, lemma_fundamental_div_mod};
use vstd::arithmetic::div_mod::lemma_fundamental_div_mod_converse;
use vstd::arithmetic::power::pow;
use vstd::arithmetic::power2::{lemma2_to64, lemma_pow2_adds, lemma_pow2_pos, pow2};
use vstd::prelude::*;

verus! {

/// The HMAC-SHA-1 tag of a message.
pub uninterp spec fn hmac_sha1(key: Seq<u8>, message: Seq<u8>) -> Seq<u8>;

/// `hmac::Hmac<sha1::Sha1>`, fed with a message and finalised: the tag depends on
/// key and message alone and has 20 bytes.
#[verifier::external_body]
fn hmac_sha1_tag(key: &[u8], message: &[u8]) -> (r: Vec<u8>)
    ensures
        r@ == hmac_sha1(key@, message@),
        r@.len() == 20,
{
    let mut mac = <Hmac<Sha1> as Mac>::new_from_slice(key).expect("hmac key");
    mac.update(message);
    mac.finalize().into_bytes().to_vec()
}

/// What a secret text says: the base32 secret, the length of a code, the seconds
/// for which it is valid, and the hash.
pub struct Params {
    pub secret: String,
    pub digits: u32,
    pub period: u64,
    pub algorithm: String,
}

/// The mathematical view of [`Params`].
pub struct ParamsView {
    pub secret: Seq<char>,
    pub digits: nat,
    pub period: nat,
    pub algorithm: Seq<char>,
}

impl View for Params {
    type V = ParamsView;

    open spec fn view(&self) -> ParamsView {
        ParamsView {
            secret: self.secret@,
            digits: self.digits as nat,
            period: self.period as nat,
            algorithm: self.algorithm@,
        }
    }
}

/// The parameters where a secret text says nothing else.
pub open spec fn default_params(secret: Seq<char>) -> ParamsView {
    ParamsView { secret, digits: 6, period: 30, algorithm: "SHA1"@ }
}

/// A number of at most `max`, or a default.
pub open spec fn number_or(text: Seq<char>, max: nat, default: nat) -> nat {
    match unsigned_number(text, max) {
        Some(n) => n,
        None => default,
    }
}

/// The parameters after one `key=value` pair of a query; other pairs change
/// nothing.
pub open spec fn with_pair(p: ParamsView, pair: Seq<char>) -> ParamsView {
    match cut_at(pair, '=') {
        None => p,
        Some((key, value)) => if key == "secret"@ {
            ParamsView { secret: value, ..p }
        } else if key == "digits"@ {
            ParamsView { digits: number_or(value, u32::MAX as nat, 6), ..p }
        } else if key == "period"@ {
            ParamsView { period: number_or(value, u64::MAX as nat, 30), ..p }
        } else if key == "algorithm"@ {
            ParamsView { algorithm: value, ..p }
        } else {
            p
        },
    }
}

/// The parameters after a list of pairs, the later ones winning.
pub open spec fn with_pairs(pairs: Seq<Seq<char>>) -> ParamsView
    decreases pairs.len(),
{
    if pairs.len() == 0 {
        default_params(Seq::empty())
    } else {
        with_pair(with_pairs(pairs.drop_last()), pairs.last())
    }
}

/// The query of a URI: what stands between the first and the second `?`.
pub open spec fn query_of(uri: Seq<char>) -> Seq<char> {
    let pieces = split_on(uri, '?');
    if pieces.len() > 1 {
        pieces[1]
    } else {
        Seq::empty()
    }
}

/// What a secret text says.
pub open spec fn params_of(text: Seq<char>) -> Result<ParamsView, ErrorView> {
    match after_prefix(trimmed(text), "otpauth://"@) {
        Some(uri) => {
            let p = with_pairs(split_on(query_of(uri), '&'));
            if p.secret.len() == 0 {
                Err(Failure::TotpMissingSecret)
            } else {
                Ok(p)
            }
        },
        None => Ok(default_params(without(trimmed(text), ' '))),
    }
}

/// Takes one pair of a query into account.
fn apply_pair(p: Params, pair: &str) -> (r: Params)
    ensures
        r@ == with_pair(p@, pair@),
{
    let mut p: Params = p;
    if let Some((key, value)) = cut(pair, '=') {
        if str_eq(key.as_str(), "secret") {
            p.secret = value;
        } else if str_eq(key.as_str(), "digits") {
            p.digits = match parse_unsigned(value.as_str(), u32::MAX as u64) {
                Some(n) => n as u32,
                None => 6,
            };
        } else if str_eq(key.as_str(), "period") {
            p.period = match parse_unsigned(value.as_str(), u64::MAX) {
                Some(n) => n,
                None => 30,
            };
        } else if str_eq(key.as_str(), "algorithm") {
            p.algorithm = value;
        }
    }
    p
}

/// The view of parameters or of an error.
pub open spec fn params_result(r: Result<Params, Error>) -> Result<ParamsView, ErrorView> {
    match r {
        Ok(p) => Ok(p@),
        Err(e) => Err(e@),
    }
}

/// Reads a secret text.
pub fn parse(s: &str) -> (r: Result<Params, Error>)
    ensures
        params_result(r) == params_of(s@),
{
    let text: String = trim(s);
    match strip_prefix(text.as_str(), "otpauth://") {
        Some(uri) => {
            let pieces: Vec<String> = split(uri.as_str(), '?');
            assert(views(pieces@).len() == pieces@.len());
            assert(pieces@.len() > 1 ==> views(pieces@)[1] == pieces@[1]@);
            let query: String = if pieces.len() > 1 {
                pieces[1].clone()
            } else {
                String::new()
            };
            assert(query@ =~= query_of(uri@));
            let pairs: Vec<String> = split(query.as_str(), '&');
            let ghost all = split_on(query@, '&');
            let mut p: Params = Params {
                secret: String::new(),
                digits: 6,
                period: 30,
                algorithm: "SHA1".to_owned(),
            };
            let mut i: usize = 0;
            assert(all.take(0) =~= Seq::empty());
            assert(p@.secret =~= Seq::<char>::empty());
            while i < pairs.len()
                invariant
                    i <= pairs@.len(),
                    views(pairs@) == all,
                    p@ == with_pairs(all.take(i as int)),
                decreases pairs@.len() - i,
            {
                assert(all[i as int] == pairs@[i as int]@);
                assert(all.take(i + 1).drop_last() =~= all.take(i as int));
                p = apply_pair(p, pairs[i].as_str());
                i += 1;
            }
            assert(all.take(i as int) =~= all);
            if p.secret.as_str().is_empty() {
                Err(Failure::TotpMissingSecret)
            } else {
                Ok(p)
            }
        },
        None => Ok(
            Params {
                secret: remove_char(text.as_str(), ' '),
                digits: 6,
                period: 30,
                algorithm: "SHA1".to_owned(),
            },
        ),
    }
}

/// Whether a character of a base32 text carries no digit: padding and white space.
pub open spec fn base32_skipped(c: char) -> bool {
    c == '=' || white_space(c)
}

/// The value of a base32 digit: a letter in either case, or `2` to `7`.
pub open spec fn base32_value(c: char) -> Option<nat> {
    let u = if 97 <= c as u32 <= 122 {
        (c as u32 - 32) as nat
    } else {
        (c as u32) as nat
    };
    if 65 <= u <= 90 {
        Some((u - 65) as nat)
    } else if 50 <= u <= 55 {
        Some((u - 24) as nat)
    } else {
        None
    }
}

/// The values of the digits of a base32 text, if it holds nothing else.
pub open spec fn base32_values(s: Seq<char>) -> Option<Seq<nat>>
    decreases s.len(),
{
    if s.len() == 0 {
        Some(Seq::empty())
    } else if base32_skipped(s.last()) {
        base32_values(s.drop_last())
    } else {
        match (base32_values(s.drop_last()), base32_value(s.last())) {
            (Some(values), Some(v)) => Some(values.push(v)),
            _ => None,
        }
    }
}

/// The number whose digits to base 32 are given.
pub open spec fn base32_number(values: Seq<nat>) -> nat
    decreases values.len(),
{
    if values.len() == 0 {
        0
    } else {
        base32_number(values.drop_last()) * 32 + values.last()
    }
}

/// The `k`-th group of eight bits, from the left, of a number of `bits` bits.
pub open spec fn octet(number: nat, bits: nat, k: int) -> u8 {
    (number / pow2((bits - 8 * (k + 1)) as nat) % 256) as u8
}

/// The whole octets that the digits make up, five bits each; what is left of the
/// last digits is dropped.
pub open spec fn base32_octets(values: Seq<nat>) -> Seq<u8> {
    let bits = 5 * values.len();
    Seq::new(bits / 8, |k: int| octet(base32_number(values), bits, k))
}

/// The bytes that a base32 text stands for.
pub open spec fn base32_bytes(s: Seq<char>) -> Option<Seq<u8>> {
    match base32_values(s) {
        Some(values) => Some(base32_octets(values)),
        None => None,
    }
}

/// One more digit leaves the octets as they are.
proof fn lemma_octet_kept(number: nat, v: nat, bits: nat, k: int)
    requires
        v < 32,
        0 <= k,
        8 * (k + 1) <= bits,
    ensures
        octet(number * 32 + v, bits + 5, k) == octet(number, bits, k),
{
    let e = (bits - 8 * (k + 1)) as nat;
    lemma2_to64();
    lemma_pow2_adds(5, e);
    lemma_pow2_pos(e);
    let x = (number * 32 + v) as int;
    lemma_div_denominator(x, 32, pow2(e) as int);
    assert(x / 32 == number);
    assert((bits + 5 - 8 * (k + 1)) as nat == 5 + e);
}

/// What remains of a number below its last `bits` bits, with one more digit.
proof fn lemma_rest_extended(number: nat, v: nat, bits: nat)
    requires
        v < 32,
    ensures
        (number * 32 + v) % pow2(bits + 5) == (number % pow2(bits)) * 32 + v,
{
    lemma2_to64();
    lemma_pow2_adds(5, bits);
    lemma_pow2_pos(bits);
    let x = (number * 32 + v) as int;
    lemma_breakdown(x, 32, pow2(bits) as int);
    assert(x / 32 == number);
    assert(x % 32 == v);
}

/// The number `2^bits`.
fn power_of_two(bits: u32) -> (r: u32)
    requires
        bits <= 12,
    ensures
        r == pow2(bits as nat),
{
    proof {
        lemma2_to64();
    }
    let mut r: u32 = 1;
    let mut i: u32 = 0;
    while i < bits
        invariant
            i <= bits <= 12,
            r == pow2(i as nat),
            r <= 4096,
            i < 12 ==> r <= 2048,
        decreases bits - i,
    {
        proof {
            lemma2_to64();
        }
        r = r * 2;
        i += 1;
    }
    r
}

/// The value of one base32 digit.
fn base32_digit(c: char) -> (r: Option<u32>)
    ensures
        r matches Some(v) ==> base32_value(c) == Some(v as nat) && v < 32,
        r is None ==> base32_value(c) is None,
{
    let code: u32 = code_point(c);
    let u: u32 = if 97 <= code && code <= 122 {
        code - 32
    } else {
        code
    };
    if 65 <= u && u <= 90 {
        Some(u - 65)
    } else if 50 <= u && u <= 55 {
        Some(u - 24)
    } else {
        None
    }
}

/// The view of optional bytes.
pub open spec fn opt_bytes(o: Option<Vec<u8>>) -> Option<Seq<u8>> {
    match o {
        Some(v) => Some(v@),
        None => None,
    }
}

/// A base32 text with a character that is no digit stands for nothing, whatever
/// follows.
proof fn lemma_base32_prefix(s: Seq<char>, i: int)
    requires
        0 <= i <= s.len(),
        base32_values(s.take(i)) is None,
    ensures
        base32_values(s) is None,
    decreases s.len(),
{
    if i == s.len() {
        assert(s.take(i) =~= s);
    } else {
        assert(s.drop_last().take(i) =~= s.take(i));
        lemma_base32_prefix(s.drop_last(), i);
    }
}

/// Decodes base32 in either case, padding and white space aside.
pub fn base32_decode(s: &str) -> (r: Option<Vec<u8>>)
    ensures
        opt_bytes(r) == base32_bytes(s@),
{
    let chars: Vec<char> = chars_of(s);
    let mut out: Vec<u8> = Vec::new();
    let mut buffer: u32 = 0;
    let mut bits: u32 = 0;
    let mut i: usize = 0;
    let ghost mut values: Seq<nat> = Seq::empty();
    assert(s@.take(0) =~= Seq::<char>::empty());
    proof {
        lemma2_to64();
    }
    while i < chars.len()
        invariant
            i <= chars@.len(),
            chars@ == s@,
            base32_values(s@.take(i as int)) == Some(values),
            bits < 8,
            bits + 8 * out@.len() == 5 * values.len(),
            buffer == base32_number(values) % pow2(bits as nat),
            buffer < 256,
            forall|k: int|
                0 <= k < out@.len() ==> #[trigger] out@[k] == octet(
                    base32_number(values),
                    5 * values.len(),
                    k,
                ),
        decreases chars@.len() - i,
    {
        let c: char = chars[i];
        assert(s@.take(i + 1).drop_last() =~= s@.take(i as int));
        if c == '=' || is_white_space(c) {
            i += 1;
            continue;
        }
        let v: u32 = match base32_digit(c) {
            Some(v) => v,
            None => {
                proof {
                    lemma_base32_prefix(s@, i + 1);
                }
                return None;
            },
        };
        let ghost before = values;
        let ghost number = base32_number(before);
        proof {
            values = values.push(v as nat);
            assert(values.drop_last() =~= before);
            lemma_rest_extended(number, v as nat, bits as nat);
            assert forall|k: int| 0 <= k < out@.len() implies #[trigger] out@[k] == octet(
                base32_number(values),
                5 * values.len(),
                k,
            ) by {
                lemma_octet_kept(number, v as nat, 5 * before.len(), k);
            }
        }
        buffer = buffer * 32 + v;
        bits += 5;
        if bits >= 8 {
            bits -= 8;
            let unit: u32 = power_of_two(bits);
            let ghost total = base32_number(values);
            proof {
                lemma2_to64();
                lemma_pow2_adds(bits as nat, 8);
                lemma_pow2_pos(bits as nat);
                lemma_breakdown(total as int, unit as int, 256);
                let q = (total as int / unit as int) % 256;
                let r = total as int % unit as int;
                let d = unit as int;
                assert(pow2((bits + 8) as nat) == unit * 256);
                assert(buffer as int == total as int % (d * 256));
                assert(buffer as int == d * q + r);
                assert(d * q == q * d) by (nonlinear_arith);
                lemma_fundamental_div_mod_converse(buffer as int, d, q, r);
                assert(octet(total, 5 * values.len(), out@.len() as int) == (total / (unit as nat)
                    % 256) as u8);
            }
            out.push((buffer / unit) as u8);
            buffer = buffer % unit;
        }
        proof {
            lemma2_to64();
            lemma_pow2_pos(bits as nat);
        }
        i += 1;
    }
    assert(s@.take(i as int) =~= s@);
    assert(out@ =~= base32_octets(values));
    Some(out)
}

/// A counter as eight bytes, the most significant first.
pub open spec fn counter_bytes(n: u64) -> Seq<u8> {
    seq![
        (n / 0x100_0000_0000_0000) as u8,
        (n / 0x1_0000_0000_0000 % 256) as u8,
        (n / 0x100_0000_0000 % 256) as u8,
        (n / 0x1_0000_0000 % 256) as u8,
        (n / 0x100_0000 % 256) as u8,
        (n / 0x1_0000 % 256) as u8,
        (n / 0x100 % 256) as u8,
        (n % 256) as u8,
    ]
}

/// The number that dynamic truncation takes from a tag: 31 bits from the place
/// that the last four bits tell.
pub open spec fn truncated(tag: Seq<u8>) -> nat {
    let at = tag.last() as int % 16;
    ((tag[at] as nat % 128) * 0x100_0000 + tag[at + 1] as nat * 0x1_0000 + tag[at + 2] as nat * 0x100
        + tag[at + 3] as nat) as nat
}

/// Ten to the power of `n`.
pub open spec fn ten_to(n: nat) -> nat
    decreases n,
{
    if n == 0 {
        1
    } else {
        10 * ten_to((n - 1) as nat)
    }
}

/// A number in decimal, filled up to a width with zeros in front.
pub open spec fn zero_padded(n: nat, width: nat) -> Seq<char> {
    let digits = decimal(n);
    if digits.len() >= width {
        digits
    } else {
        Seq::new((width - digits.len()) as nat, |i: int| '0') + digits
    }
}

/// The code that a tag stands for.
pub open spec fn tag_code(tag: Seq<u8>, digits: nat) -> Seq<char> {
    zero_padded(truncated(tag) % ten_to(digits), digits)
}

/// The code for a counter.
pub open spec fn hotp_code(key: Seq<u8>, counter: u64, digits: nat) -> Seq<char> {
    tag_code(hmac_sha1(key, counter_bytes(counter)), digits)
}

/// The powers of ten that fit in 32 bits.
proof fn lemma_ten_to()
    ensures
        ten_to(0) == 1,
        ten_to(1) == 10,
        ten_to(2) == 100,
        ten_to(3) == 1000,
        ten_to(4) == 10000,
        ten_to(5) == 100000,
        ten_to(6) == 1000000,
        ten_to(7) == 10000000,
        ten_to(8) == 100000000,
        ten_to(9) == 1000000000,
{
    reveal_with_fuel(ten_to, 11);
}

/// Ten to the power of `digits`.
fn power_of_ten(digits: u32) -> (r: u64)
    requires
        digits <= 9,
    ensures
        r == ten_to(digits as nat),
        0 < r <= 1000000000,
{
    proof {
        lemma_ten_to();
    }
    let mut r: u64 = 1;
    let mut i: u32 = 0;
    while i < digits
        invariant
            i <= digits <= 9,
            r == ten_to(i as nat),
            0 < r <= 1000000000,
            i < 9 ==> r <= 100000000,
        decreases digits - i,
    {
        proof {
            lemma_ten_to();
        }
        r = r * 10;
        i += 1;
    }
    r
}

/// Writes `n` in decimal with zeros in front, at least `width` characters.
fn pad_with_zeros(n: u64, width: u32) -> (r: String)
    ensures
        r@ == zero_padded(n as nat, width as nat),
{
    let digits: String = decimal_string(n);
    let have: usize = chars_of(digits.as_str()).len();
    let mut out: String = String::new();
    let mut filled: usize = have;
    while filled < width as usize
        invariant
            have <= filled,
            have < width ==> filled <= width,
            have >= width ==> filled == have,
            out@ =~= Seq::new((filled - have) as nat, |i: int| '0'),
        decreases width - filled,
    {
        out.push('0');
        filled += 1;
    }
    out.append(digits.as_str());
    assert(out@ =~= zero_padded(n as nat, width as nat));
    out
}

/// The code that a tag stands for, of `digits` digits.
pub fn code_of_tag(tag: &[u8], digits: u32) -> (r: String)
    requires
        tag@.len() == 20,
        digits <= 9,
    ensures
        r@ == tag_code(tag@, digits as nat),
{
    let at: usize = tag[19] as usize % 16;
    let number: u64 = (tag[at] as u64 % 128) * 0x100_0000 + tag[at + 1] as u64 * 0x1_0000 + tag[at
        + 2] as u64 * 0x100 + tag[at + 3] as u64;
    assert(number == truncated(tag@));
    pad_with_zeros(number % power_of_ten(digits), digits)
}

/// The code for a counter, of `digits` digits.
pub fn hotp(key: &[u8], counter: u64, digits: u32) -> (r: String)
    requires
        digits <= 9,
    ensures
        r@ == hotp_code(key@, counter, digits as nat),
{
    let message: Vec<u8> = vec![
        (counter / 0x100_0000_0000_0000) as u8,
        (counter / 0x1_0000_0000_0000 % 256) as u8,
        (counter / 0x100_0000_0000 % 256) as u8,
        (counter / 0x1_0000_0000 % 256) as u8,
        (counter / 0x100_0000 % 256) as u8,
        (counter / 0x1_0000 % 256) as u8,
        (counter / 0x100 % 256) as u8,
        (counter % 256) as u8,
    ];
    assert(message@ =~= counter_bytes(counter));
    let tag: Vec<u8> = hmac_sha1_tag(key, message.as_slice());
    code_of_tag(tag.as_slice(), digits)
}

/// What a secret text comes to: the key, the length of a code and its period.
pub open spec fn prepared(text: Seq<char>) -> Result<(Seq<u8>, nat, nat), ErrorView> {
    match params_of(text) {
        Err(e) => Err(e),
        Ok(p) => if !same_ignoring_ascii_case(p.algorithm, "SHA1"@) {
            Err(Failure::TotpAlgorithm(p.algorithm))
        } else {
            match base32_bytes(p.secret) {
                None => Err(Failure::TotpSecret),
                Some(key) => Ok((key, p.digits, p.period)),
            }
        },
    }
}

/// Whether codes can be computed from a secret text, unless it is faulty: at most
/// nine digits, and a period that is not zero.
pub open spec fn usable(text: Seq<char>) -> bool {
    prepared(text) matches Ok((key, digits, period)) ==> digits <= 9 && period > 0
}

/// The code of a secret text at a time, in seconds; a faulty text comes before a
/// faulty clock.
pub open spec fn code_at(text: Seq<char>, clock: Result<u64, ErrorView>) -> Result<
    Seq<char>,
    ErrorView,
> {
    match prepared(text) {
        Err(e) => Err(e),
        Ok((key, digits, period)) => match clock {
            Err(e) => Err(e),
            Ok(now) => Ok(hotp_code(key, (now as nat / period) as u64, digits)),
        },
    }
}

/// The view of a prepared secret or of an error.
pub open spec fn prepared_result(r: Result<(Vec<u8>, u32, u64), Error>) -> Result<
    (Seq<u8>, nat, nat),
    ErrorView,
> {
    match r {
        Ok((key, digits, period)) => Ok((key@, digits as nat, period as nat)),
        Err(e) => Err(e@),
    }
}

/// Reads a secret text and decodes the secret in it.
fn prepare(s: &str) -> (r: Result<(Vec<u8>, u32, u64), Error>)
    ensures
        prepared_result(r) == prepared(s@),
{
    let p: Params = match parse(s) {
        Ok(p) => p,
        Err(e) => return Err(e),
    };
    if !eq_ignore_ascii_case(p.algorithm.as_str(), "SHA1") {
        return Err(Failure::TotpAlgorithm(p.algorithm));
    }
    match base32_decode(p.secret.as_str()) {
        None => Err(Failure::TotpSecret),
        Some(key) => Ok((key, p.digits, p.period)),
    }
}

/// Tells whether codes can be computed from a secret text, unless it is faulty.
pub fn is_usable(secret_or_uri: &str) -> (r: bool)
    ensures
        r == usable(secret_or_uri@),
{
    match prepare(secret_or_uri) {
        Ok((_, digits, period)) => digits <= 9 && period > 0,
        Err(_) => true,
    }
}

/// The code of a secret text at a time given in seconds since 1970, or by what
/// stands in its place.
pub fn generate_at(secret_or_uri: &str, clock: Result<u64, Error>) -> (r: Result<String, Error>)
    requires
        usable(secret_or_uri@),
    ensures
        text_result(r) == code_at(secret_or_uri@, reading(clock)),
{
    match prepare(secret_or_uri) {
        Err(e) => Err(e),
        Ok((key, digits, period)) => match clock {
            Err(e) => Err(e),
            Ok(now) => Ok(hotp(key.as_slice(), now / period, digits)),
        },
    }
}

/// The code of a secret text now.
pub fn generate(secret_or_uri: &str) -> (r: Result<String, Error>)
    requires
        usable(secret_or_uri@),
    ensures
        exists|clock: Result<u64, ErrorView>|
            possible(clock) && text_result(r) == #[trigger] code_at(secret_or_uri@, clock),
{
    let clock: Result<u64, Error> = now_secs();
    let ghost seen = reading(clock);
    let r: Result<String, Error> = generate_at(secret_or_uri, clock);
    assert(possible(seen) && text_result(r) == code_at(secret_or_uri@, seen));
    r
}

/// Within one period the code does not change.
pub proof fn lemma_same_window_same_code(text: Seq<char>, a: u64, b: u64)
    requires
        prepared(text) matches Ok((key, digits, period)) ==> a as nat / period == b as nat / period,
    ensures
        code_at(text, Ok(a)) == code_at(text, Ok(b)),
{
}

/// A number below a power of ten has no more digits than the exponent says.
proof fn lemma_decimal_len(n: nat, width: nat)
    requires
        width > 0,
        n < ten_to(width),
    ensures
        0 < decimal(n).len() <= width,
    decreases width,
{
    if n >= 10 {
        assert(n / 10 < ten_to((width - 1) as nat));
        assert(width > 1) by {
            if width == 1 {
                assert(ten_to(0) == 1);
            }
        }
        lemma_decimal_len(n / 10, (width - 1) as nat);
    }
}

/// A number in decimal is made of digits.
proof fn lemma_decimal_digits(n: nat)
    ensures
        forall|i: int| 0 <= i < decimal(n).len() ==> is_digit(#[trigger] decimal(n)[i]),
    decreases n,
{
    if n >= 10 {
        lemma_decimal_digits(n / 10);
        assert forall|i: int| 0 <= i < decimal(n).len() implies is_digit(#[trigger] decimal(n)[i]) by {
            if i < decimal(n / 10).len() {
                assert(decimal(n)[i] == decimal(n / 10)[i]);
            } else {
                assert(decimal(n)[i] == digit_char(n % 10));
            }
        }
    } else {
        assert(decimal(n)[0] == digit_char(n));
    }
}

/// A code has exactly as many characters as the secret text asks for, at least one,
/// and all of them are digits.
pub proof fn lemma_code_digits(key: Seq<u8>, counter: u64, digits: nat)
    ensures
        forall|i: int|
            0 <= i < hotp_code(key, counter, digits).len() ==> is_digit(
                #[trigger] hotp_code(key, counter, digits)[i],
            ),
        digits > 0 ==> hotp_code(key, counter, digits).len() == digits,
        digits == 0 ==> hotp_code(key, counter, digits).len() == 1,
{
    let number = truncated(hmac_sha1(key, counter_bytes(counter)));
    lemma_decimal_digits(number % ten_to(digits));
    lemma_ten_to_positive(digits);
    assert(number % ten_to(digits) < ten_to(digits)) by (nonlinear_arith)
        requires
            ten_to(digits) > 0,
    ;
    if digits > 0 {
        lemma_decimal_len(number % ten_to(digits), digits);
    } else {
        assert(ten_to(0) == 1);
        assert(decimal(0).len() == 1);
    }
}

proof fn lemma_ten_to_positive(n: nat)
    ensures
        ten_to(n) > 0,
    decreases n,
{
    if n > 0 {
        lemma_ten_to_positive((n - 1) as nat);
    }
}

/// With zeros in front, a number is its leading digits with zeros in front, and its
/// last digit.
proof fn lemma_padded_step(n: nat, width: nat)
    requires
        width > 1,
        n < ten_to(width),
    ensures
        zero_padded(n, width) == zero_padded(n / 10, (width - 1) as nat).push(digit_char(n % 10)),
{
    lemma_decimal_len(n, width);
    assert(n / 10 < ten_to((width - 1) as nat));
    lemma_decimal_len(n / 10, (width - 1) as nat);
    if n < 10 {
        assert(decimal(n) =~= seq![digit_char(n)]);
        assert(decimal(0) =~= seq!['0']);
    }
    assert(zero_padded(n, width) =~= zero_padded(n / 10, (width - 1) as nat).push(
        digit_char(n % 10),
    ));
}

/// Fewer digits of a number are the last ones of more.
proof fn lemma_padded_tail(n: nat, short: nat, long: nat)
    requires
        1 <= short <= long,
    ensures
        zero_padded(n % ten_to(short), short).is_suffix_of(zero_padded(n % ten_to(long), long)),
    decreases short,
{
    let less = (short - 1) as nat;
    let more = (long - 1) as nat;
    lemma_ten_to_positive(less);
    lemma_ten_to_positive(more);
    lemma_breakdown(n as int, 10, ten_to(less) as int);
    lemma_breakdown(n as int, 10, ten_to(more) as int);
    let a = n % ten_to(short);
    let b = n % ten_to(long);
    assert(a / 10 == n / 10 % ten_to(less) && a % 10 == n % 10 && a < ten_to(short)) by {
        lemma_remainder(n, less);
    }
    assert(b / 10 == n / 10 % ten_to(more) && b % 10 == n % 10 && b < ten_to(long)) by {
        lemma_remainder(n, more);
    }
    let x = zero_padded(a, short);
    let y = zero_padded(b, long);
    if short == 1 {
        assert(ten_to(0) == 1);
        assert(x =~= seq![digit_char(n % 10)]);
        if long > 1 {
            lemma_padded_step(b, long);
        } else {
            assert(y =~= x);
        }
        assert(y.last() == digit_char(n % 10));
        assert(y.len() >= 1);
        assert(y.subrange(y.len() - 1, y.len() as int) =~= x);
    } else {
        lemma_padded_step(a, short);
        lemma_padded_step(b, long);
        lemma_padded_tail(n / 10, less, more);
        let u = zero_padded(a / 10, less);
        let v = zero_padded(b / 10, more);
        assert(u.is_suffix_of(v));
        assert(y.subrange(y.len() - x.len(), y.len() as int) =~= v.subrange(
            v.len() - u.len(),
            v.len() as int,
        ).push(digit_char(n % 10)));
    }
}

/// The remainder by a power of ten, digit by digit.
proof fn lemma_remainder(n: nat, less: nat)
    ensures
        n % ten_to(less + 1) / 10 == n / 10 % ten_to(less),
        n % ten_to(less + 1) % 10 == n % 10,
        n % ten_to(less + 1) < ten_to(less + 1),
{
    lemma_ten_to_positive(less);
    let z = ten_to(less) as int;
    assert(ten_to(less + 1) == 10 * ten_to(less));
    lemma_breakdown(n as int, 10, z);
    assert(0 <= (n as int / 10) % z < z) by (nonlinear_arith)
        requires
            z > 0,
    ;
}

/// A shorter code is the tail of a longer one for the same counter.
pub proof fn lemma_shorter_code_is_tail(key: Seq<u8>, counter: u64, short: nat, long: nat)
    requires
        1 <= short <= long,
    ensures
        hotp_code(key, counter, short).is_suffix_of(hotp_code(key, counter, long)),
{
    lemma_padded_tail(truncated(hmac_sha1(key, counter_bytes(counter))), short, long);
}

/// The case of letters does not matter to base32.
proof fn lemma_base32_case(s: Seq<char>, t: Seq<char>)
    requires
        same_ignoring_ascii_case(s, t),
    ensures
        base32_values(s) == base32_values(t),
    decreases s.len(),
{
    if s.len() > 0 {
        let i = s.len() - 1;
        assert(ascii_lower(s[i]) == ascii_lower(t[i]));
        lemma_digit_case(s[i], t[i]);
        assert forall|k: int| 0 <= k < s.drop_last().len() implies ascii_lower(
            #[trigger] s.drop_last()[k],
        ) == ascii_lower(t.drop_last()[k]) by {
            assert(ascii_lower(s[k]) == ascii_lower(t[k]));
        }
        lemma_base32_case(s.drop_last(), t.drop_last());
    }
}

proof fn lemma_digit_case(a: char, b: char)
    requires
        ascii_lower(a) == ascii_lower(b),
    ensures
        base32_value(a) == base32_value(b),
        base32_skipped(a) == base32_skipped(b),
{
}

/// Spaces do not matter to base32.
proof fn lemma_base32_spaces(s: Seq<char>)
    ensures
        base32_values(without(s, ' ')) == base32_values(s),
    decreases s.len(),
{
    if s.len() > 0 {
        let front = s.drop_last();
        lemma_base32_spaces(front);
        if s.last() != ' ' {
            assert(without(s, ' ').drop_last() =~= without(front, ' '));
        }
    }
}

/// What carries no digit does not matter to base32 at the beginning.
proof fn lemma_base32_first(s: Seq<char>)
    requires
        s.len() > 0,
        base32_skipped(s[0]),
    ensures
        base32_values(s.drop_first()) == base32_values(s),
    decreases s.len(),
{
    if s.len() == 1 {
        assert(s.drop_first() =~= Seq::empty());
        assert(s.drop_last() =~= Seq::empty());
    } else {
        lemma_base32_first(s.drop_last());
        assert(s.drop_last().drop_first() =~= s.drop_first().drop_last());
    }
}

proof fn lemma_base32_trim_start(s: Seq<char>)
    ensures
        base32_values(trim_start(s)) == base32_values(s),
    decreases s.len(),
{
    if s.len() > 0 && white_space(s[0]) {
        lemma_base32_first(s);
        lemma_base32_trim_start(s.drop_first());
    }
}

proof fn lemma_base32_trim_end(s: Seq<char>)
    ensures
        base32_values(trim_end(s)) == base32_values(s),
    decreases s.len(),
{
    if s.len() > 0 && white_space(s.last()) {
        lemma_base32_trim_end(s.drop_last());
    }
}

/// A bare secret stands for the same key, and so gives the same codes, in either
/// case and with spaces or without.
pub proof fn lemma_secret_spelling(a: Seq<char>, b: Seq<char>, clock: Result<u64, ErrorView>)
    requires
        after_prefix(trimmed(a), "otpauth://"@) is None,
        after_prefix(trimmed(b), "otpauth://"@) is None,
        same_ignoring_ascii_case(without(a, ' '), without(b, ' ')),
    ensures
        prepared(a) == prepared(b),
        code_at(a, clock) == code_at(b, clock),
{
    lemma_bare_secret(a);
    lemma_bare_secret(b);
    lemma_base32_case(without(a, ' '), without(b, ' '));
    lemma_base32_spaces(a);
    lemma_base32_spaces(b);
}

/// What a bare secret comes to depends on its base32 digits alone.
proof fn lemma_bare_secret(s: Seq<char>)
    requires
        after_prefix(trimmed(s), "otpauth://"@) is None,
    ensures
        prepared(s) == (match base32_bytes(s) {
            None => Err::<(Seq<u8>, nat, nat), ErrorView>(Failure::TotpSecret),
            Some(key) => Ok((key, 6, 30)),
        }),
{
    lemma_base32_spaces(trimmed(s));
    lemma_base32_trim_end(trim_start(s));
    lemma_base32_trim_start(s);
}

/// A bare secret gives the codes that a URI with this secret, and with nothing else
/// said, gives.
pub proof fn lemma_bare_secret_as_uri(
    label: Seq<char>,
    secret: Seq<char>,
    clock: Result<u64, ErrorView>,
)
    requires
        !label.contains('?'),
        !secret.contains('?'),
        !secret.contains('&'),
        secret.len() > 0,
        !white_space(secret.last()),
        after_prefix(trimmed(secret), "otpauth://"@) is None,
    ensures
        prepared("otpauth://"@ + label + "?secret="@ + secret) == prepared(secret),
        code_at("otpauth://"@ + label + "?secret="@ + secret, clock) == code_at(secret, clock),
{
    let scheme = "otpauth://"@;
    let uri = scheme + label + "?secret="@ + secret;
    let query = "secret="@ + secret;
    let rest = label + seq!['?'] + query;
    reveal_strlit("otpauth://");
    reveal_strlit("?secret=");
    reveal_strlit("secret=");
    reveal_strlit("secret");
    assert("?secret="@ =~= seq!['?'] + "secret="@);
    assert(uri =~= scheme + rest);
    assert(uri[0] == 'o');
    assert(uri.last() == secret.last());
    assert(trim_start(uri) == uri);
    assert(trim_end(uri) == uri);
    assert(uri.subrange(0, scheme.len() as int) =~= scheme);
    assert(uri.skip(scheme.len() as int) =~= rest);
    assert forall|i: int| 0 <= i < query.len() implies query[i] != '?' && query[i] != '&' by {
        if i >= 7 {
            assert(query[i] == secret[i - 7]);
            assert(secret.contains(secret[i - 7]));
        }
    }
    lemma_split_single(label, '?');
    lemma_split_last(label, '?', query);
    lemma_split_single(query, '&');
    assert(query_of(rest) == query);
    assert(seq![query].drop_last() =~= Seq::empty());
    query.index_of_first_ensures('=');
    assert(query[6] == '=');
    assert(query.contains(query[6]));
    let at = query.index_of_first('=')->0;
    assert(at == 6);
    assert(query.take(6) =~= "secret"@);
    assert(query.skip(7) =~= secret);
    let nothing = default_params(Seq::empty());
    assert(with_pairs(Seq::empty()) == nothing);
    assert(cut_at(query, '=') == Some(("secret"@, secret)));
    assert(with_pair(nothing, query) == default_params(secret));
    assert(split_on(query_of(rest), '&') == seq![query]);
    assert(with_pairs(seq![query]) == default_params(secret));
    assert(after_prefix(trimmed(uri), scheme) == Some(rest));
    assert(params_of(uri) == Ok::<ParamsView, ErrorView>(default_params(secret)));
    assert(same_ignoring_ascii_case("SHA1"@, "SHA1"@));
    lemma_bare_secret(secret);
}

proof fn lemma_base32_character(v: int)
    requires
        0 <= v < 32,
    ensures
        "ABCDEFGHIJKLMNOPQRSTUVWXYZ234567"@.len() == 32,
        "ABCDEFGHIJKLMNOPQRSTUVWXYZ234567"@[v] as int == if v < 26 {
            65 + v
        } else {
            24 + v
        },
{
    let alphabet = "ABCDEFGHIJKLMNOPQRSTUVWXYZ234567"@;
    reveal_strlit("ABCDEFGHIJKLMNOPQRSTUVWXYZ234567");
    assert(alphabet[0] == 'A');
    assert(alphabet[1] == 'B');
    assert(alphabet[2] == 'C');
    assert(alphabet[3] == 'D');
    assert(alphabet[4] == 'E');
    assert(alphabet[5] == 'F');
    assert(alphabet[6] == 'G');
    assert(alphabet[7] == 'H');
    assert(alphabet[8] == 'I');
    assert(alphabet[9] == 'J');
    assert(alphabet[10] == 'K');
    assert(alphabet[11] == 'L');
    assert(alphabet[12] == 'M');
    assert(alphabet[13] == 'N');
    assert(alphabet[14] == 'O');
    assert(alphabet[15] == 'P');
    assert(alphabet[16] == 'Q');
    assert(alphabet[17] == 'R');
    assert(alphabet[18] == 'S');
    assert(alphabet[19] == 'T');
    assert(alphabet[20] == 'U');
    assert(alphabet[21] == 'V');
    assert(alphabet[22] == 'W');
    assert(alphabet[23] == 'X');
    assert(alphabet[24] == 'Y');
    assert(alphabet[25] == 'Z');
    assert(alphabet[26] == '2');
    assert(alphabet[27] == '3');
    assert(alphabet[28] == '4');
    assert(alphabet[29] == '5');
    assert(alphabet[30] == '6');
    assert(alphabet[31] == '7');
    assert(v == 0 || v == 1 || v == 2 || v == 3 || v == 4 || v == 5 || v == 6 || v == 7 || v == 8 || v == 9 || v == 10 || v == 11 || v == 12 || v == 13 || v == 14 || v == 15 || v == 16 || v == 17 || v == 18 || v == 19 || v == 20 || v == 21 || v == 22 || v == 23 || v == 24 || v == 25 || v == 26 || v == 27 || v == 28 || v == 29 || v == 30 || v == 31);
}

/// The base32 alphabet: the digit for each value is the character at that place,
/// letters in either case, and no other character is a digit for it.
pub proof fn lemma_base32_alphabet(v: int, c: char)
    requires
        0 <= v < 32,
    ensures
        base32_value(c) == Some(v as nat) <==> "ABCDEFGHIJKLMNOPQRSTUVWXYZ234567"@[v] == c
            || ascii_lower("ABCDEFGHIJKLMNOPQRSTUVWXYZ234567"@[v]) == c,
        base32_value(c) matches Some(n) ==> n < 32,
{
    lemma_base32_character(v);
}

/// Padding and white space apart, each character of a base32 text has its digit, in
/// the order of the text; one that is no digit spoils the text.
pub proof fn lemma_base32_by_parts(a: Seq<char>, b: Seq<char>)
    ensures
        base32_values(a + b) == match (base32_values(a), base32_values(b)) {
            (Some(x), Some(y)) => Some(x + y),
            _ => None,
        },
    decreases b.len(),
{
    if b.len() == 0 {
        assert(a + b =~= a);
        if let Some(x) = base32_values(a) {
            assert(x + Seq::<nat>::empty() =~= x);
        }
    } else {
        lemma_base32_by_parts(a, b.drop_last());
        assert((a + b).drop_last() =~= a + b.drop_last());
        assert((a + b).last() == b.last());
        if let (Some(x), Some(y)) = (base32_values(a), base32_values(b.drop_last())) {
            if let Some(v) = base32_value(b.last()) {
                assert(x + y.push(v) =~= (x + y).push(v));
            }
        }
    }
}

/// A base32 text of one character: padding and white space carry nothing, a digit
/// carries its value, and anything else is refused.
pub proof fn lemma_base32_single(c: char)
    ensures
        c == '=' || white_space(c) ==> base32_values(seq![c]) == Some(Seq::<nat>::empty()),
        c != '=' && !white_space(c) ==> base32_values(seq![c]) == match base32_value(c) {
            Some(v) => Some(seq![v]),
            None => None,
        },
        base32_values(Seq::empty()) == Some(Seq::<nat>::empty()),
{
    assert(seq![c].drop_last() =~= Seq::<char>::empty());
    assert(base32_values(Seq::empty()) == Some(Seq::<nat>::empty()));
    if let Some(v) = base32_value(c) {
        assert(Seq::<nat>::empty().push(v) =~= seq![v]);
    }
}

/// The `i`-th bit of a number, counted from the least significant one.
pub open spec fn bit(n: nat, i: nat) -> nat {
    n / pow2(i) % 2
}

proof fn lemma_div_div(n: nat, i: nat, j: nat)
    ensures
        n / pow2(i) / pow2(j) == n / pow2(i + j),
{
    lemma_pow2_pos(i);
    lemma_pow2_pos(j);
    lemma_pow2_adds(i, j);
    lemma_div_denominator(n as int, pow2(i) as int, pow2(j) as int);
}

/// The bits of a number to base 32 are the bits of its digits.
proof fn lemma_number_bits(values: Seq<nat>, j: int)
    requires
        forall|i: int| 0 <= i < values.len() ==> #[trigger] values[i] < 32,
        0 <= j < 5 * values.len(),
    ensures
        bit(base32_number(values), (5 * values.len() - 1 - j) as nat) == bit(
            values[j / 5],
            (4 - j % 5) as nat,
        ),
    decreases values.len(),
{
    let front = values.drop_last();
    let last = values.last();
    let number = base32_number(values);
    assert(values[values.len() - 1] < 32);
    assert(number == base32_number(front) * 32 + last);
    lemma2_to64();
    if j < 5 * front.len() {
        let e = (5 * front.len() - 1 - j) as nat;
        assert forall|i: int| 0 <= i < front.len() implies #[trigger] front[i] < 32 by {
            assert(values[i] < 32);
        }
        lemma_number_bits(front, j);
        lemma_div_div(number, 5, e);
        assert(number / 32 == base32_number(front));
        assert(5 + e == 5 * values.len() - 1 - j);
        assert(front[j / 5] == values[j / 5]);
    } else {
        let s = (4 - j % 5) as nat;
        assert(5 * values.len() - 1 - j == s);
        assert(j / 5 == values.len() - 1);
        lemma_low_bits_of_digit(number, last, base32_number(front), s);
    }
}

/// An even multiple of `p` does not touch the bit that `p` stands for.
proof fn lemma_bit_kept(n: nat, low: nat, q: nat, m: nat, p: nat, h: nat)
    requires
        p > 0,
        n == q * m + low,
        m == p * h * 2,
    ensures
        n / p % 2 == low / p % 2,
{
    let t = q * h;
    assert(q * m == (2 * t) * p) by (nonlinear_arith)
        requires
            t == q * h,
            m == p * h * 2,
    ;
    lemma_fundamental_div_mod(low as int, p as int);
    assert((2 * t + low / p) * p == (2 * t) * p + p * (low / p)) by (nonlinear_arith);
    lemma_fundamental_div_mod_converse(
        n as int,
        p as int,
        (2 * t + low / p) as int,
        (low % p) as int,
    );
}

/// Multiples of 256 do not touch the bits below.
proof fn lemma_low_bits(n: nat, s: nat)
    requires
        s < 8,
    ensures
        bit(n, s) == bit(n % 256, s),
{
    lemma2_to64();
    let q = n / 256;
    let low = n % 256;
    if s == 0 {
        lemma_bit_kept(n, low, q, 256, 1, 128);
    } else if s == 1 {
        lemma_bit_kept(n, low, q, 256, 2, 64);
    } else if s == 2 {
        lemma_bit_kept(n, low, q, 256, 4, 32);
    } else if s == 3 {
        lemma_bit_kept(n, low, q, 256, 8, 16);
    } else if s == 4 {
        lemma_bit_kept(n, low, q, 256, 16, 8);
    } else if s == 5 {
        lemma_bit_kept(n, low, q, 256, 32, 4);
    } else if s == 6 {
        lemma_bit_kept(n, low, q, 256, 64, 2);
    } else {
        lemma_bit_kept(n, low, q, 256, 128, 1);
    }
}

/// Multiples of 32 do not touch the bits below.
proof fn lemma_low_bits_of_digit(n: nat, low: nat, q: nat, s: nat)
    requires
        n == q * 32 + low,
        s < 5,
    ensures
        bit(n, s) == bit(low, s),
{
    lemma2_to64();
    if s == 0 {
        lemma_bit_kept(n, low, q, 32, 1, 16);
    } else if s == 1 {
        lemma_bit_kept(n, low, q, 32, 2, 8);
    } else if s == 2 {
        lemma_bit_kept(n, low, q, 32, 4, 4);
    } else if s == 3 {
        lemma_bit_kept(n, low, q, 32, 8, 2);
    } else {
        lemma_bit_kept(n, low, q, 32, 16, 1);
    }
}

proof fn lemma_octet_bits(number: nat, bits: nat, k: int, r: int)
    requires
        0 <= k,
        8 * (k + 1) <= bits,
        0 <= r < 8,
    ensures
        bit(octet(number, bits, k) as nat, (7 - r) as nat) == bit(
            number,
            (bits - 1 - (8 * k + r)) as nat,
        ),
{
    let e = (bits - 8 * (k + 1)) as nat;
    let y = number / pow2(e);
    let s = (7 - r) as nat;
    lemma2_to64();
    lemma_div_div(number, e, s);
    assert(e + s == bits - 1 - (8 * k + r));
    assert(octet(number, bits, k) as nat == y % 256);
    lemma_low_bits(y, s);
}

/// The bits of the bytes that base32 digits make up are the bits of the digits, in
/// their order, as far as they fill whole bytes.
pub proof fn lemma_base32_bits(values: Seq<nat>, j: int)
    requires
        forall|i: int| 0 <= i < values.len() ==> #[trigger] values[i] < 32,
    ensures
        base32_octets(values).len() == 5 * values.len() / 8,
        0 <= j < 8 * base32_octets(values).len() ==> bit(
            base32_octets(values)[j / 8] as nat,
            (7 - j % 8) as nat,
        ) == bit(values[j / 5], (4 - j % 5) as nat),
{
    if 0 <= j < 8 * base32_octets(values).len() {
        lemma_number_bits(values, j);
        lemma_octet_bits(base32_number(values), 5 * values.len(), j / 8, j % 8);
    }
}

/// The bytes of a base32 text are those of its digits.
pub proof fn lemma_base32_bytes(s: Seq<char>)
    ensures
        base32_bytes(s) is Some <==> base32_values(s) is Some,
        base32_values(s) matches Some(values) ==> base32_bytes(s) == Some(base32_octets(values)),
{
}

/// The number whose bytes are given, the most significant first.
pub open spec fn big_endian(bytes: Seq<u8>) -> nat
    decreases bytes.len(),
{
    if bytes.len() == 0 {
        0
    } else {
        256 * big_endian(bytes.drop_last()) + bytes.last() as nat
    }
}

/// The bytes of a counter, the most significant first, are eight and make up the
/// counter.
pub proof fn lemma_counter_bytes(n: u64)
    ensures
        counter_bytes(n).len() == 8,
        big_endian(counter_bytes(n)) == n,
{
    let b = counter_bytes(n);
    let n1 = n / 256;
    let n2 = n1 / 256;
    let n3 = n2 / 256;
    let n4 = n3 / 256;
    let n5 = n4 / 256;
    let n6 = n5 / 256;
    let n7 = n6 / 256;
    assert(n2 == n / 0x1_0000);
    assert(n3 == n / 0x100_0000);
    assert(n4 == n / 0x1_0000_0000);
    assert(n5 == n / 0x100_0000_0000);
    assert(n6 == n / 0x1_0000_0000_0000);
    assert(n7 == n / 0x100_0000_0000_0000);
    assert(b.take(8) =~= b);
    assert(big_endian(b.take(0)) == 0);
    lemma_big_endian_step(b, 0);
    lemma_big_endian_step(b, 1);
    lemma_big_endian_step(b, 2);
    lemma_big_endian_step(b, 3);
    lemma_big_endian_step(b, 4);
    lemma_big_endian_step(b, 5);
    lemma_big_endian_step(b, 6);
    lemma_big_endian_step(b, 7);
}

proof fn lemma_big_endian_step(b: Seq<u8>, i: int)
    requires
        0 <= i < b.len(),
    ensures
        big_endian(b.take(i + 1)) == 256 * big_endian(b.take(i)) + b[i] as nat,
{
    assert(b.take(i + 1).drop_last() =~= b.take(i));
}

/// Dynamic truncation takes four bytes from the place that the last four bits of
/// the tag name, and of their number the lower 31 bits.
pub proof fn lemma_truncated(tag: Seq<u8>, at: int)
    requires
        tag.len() == 20,
        0 <= at < 16,
        tag[19] as int % 16 == at,
    ensures
        truncated(tag) == big_endian(tag.subrange(at, at + 4)) % pow2(31),
{
    let b = tag.subrange(at, at + 4);
    assert(b.take(4) =~= b);
    assert(big_endian(b.take(0)) == 0);
    lemma_big_endian_step(b, 0);
    lemma_big_endian_step(b, 1);
    lemma_big_endian_step(b, 2);
    lemma_big_endian_step(b, 3);
    lemma2_to64();
}

proof fn lemma_ten_to_is_power(n: nat)
    ensures
        ten_to(n) == pow(10, n),
    decreases n,
{
    reveal(pow);
    if n > 0 {
        lemma_ten_to_is_power((n - 1) as nat);
    }
}

proof fn lemma_zeros_in_front(zeros: nat, s: Seq<char>)
    ensures
        digits_value(Seq::new(zeros, |i: int| '0') + s) == digits_value(s),
    decreases s.len(), zeros,
{
    let front = Seq::new(zeros, |i: int| '0');
    let whole = front + s;
    if s.len() > 0 {
        lemma_zeros_in_front(zeros, s.drop_last());
        assert(whole.drop_last() =~= front + s.drop_last());
        assert(whole.last() == s.last());
    } else if zeros > 0 {
        let less = Seq::new((zeros - 1) as nat, |i: int| '0');
        lemma_zeros_in_front((zeros - 1) as nat, s);
        assert(whole.drop_last() =~= less + s);
        assert(whole.last() == '0');
    } else {
        assert(whole =~= s);
    }
}

/// A code, read as a number, is what dynamic truncation takes from the tag of the
/// counter's eight bytes, modulo the power of ten that its length says.
pub proof fn lemma_code_value(key: Seq<u8>, counter: u64, message: Seq<u8>, digits: nat, at: int)
    requires
        message.len() == 8,
        big_endian(message) == counter,
        hmac_sha1(key, message).len() == 20,
        0 <= at < 16,
        hmac_sha1(key, message)[19] as int % 16 == at,
    ensures
        digits_value(hotp_code(key, counter, digits)) == (big_endian(
            hmac_sha1(key, message).subrange(at, at + 4),
        ) % pow2(31)) % (pow(10, digits) as nat),
{
    let tag = hmac_sha1(key, message);
    lemma_counter_bytes(counter);
    lemma_big_endian_injective(message, counter_bytes(counter));
    lemma_truncated(tag, at);
    lemma_ten_to_is_power(digits);
    let n = truncated(tag) % ten_to(digits);
    lemma_decimal_value(n);
    if decimal(n).len() < digits {
        lemma_zeros_in_front((digits - decimal(n).len()) as nat, decimal(n));
    }
}

proof fn lemma_big_endian_injective(a: Seq<u8>, b: Seq<u8>)
    requires
        a.len() == b.len(),
        big_endian(a) == big_endian(b),
    ensures
        a == b,
    decreases a.len(),
{
    if a.len() > 0 {
        lemma_big_endian_injective(a.drop_last(), b.drop_last());
        assert(a =~= a.drop_last().push(a.last()));
        assert(b =~= b.drop_last().push(b.last()));
    } else {
        assert(a =~= b);
    }
}

/// During the `c`-th period since 1970, the code of a secret text is the code of
/// its key for the counter `c`.
pub proof fn lemma_code_of_period(
    text: Seq<char>,
    key: Seq<u8>,
    digits: nat,
    period: nat,
    c: u64,
    now: u64,
)
    requires
        prepared(text) == Ok::<(Seq<u8>, nat, nat), ErrorView>((key, digits, period)),
        c * period <= now < (c + 1) * period,
    ensures
        code_at(text, Ok(now)) == Ok::<Seq<char>, ErrorView>(hotp_code(key, c, digits)),
{
    assert(now as int == c as int * period as int + (now - c * period));
    assert((c + 1) * period == c * period + period) by (nonlinear_arith);
    lemma_fundamental_div_mod_converse(
        now as int,
        period as int,
        c as int,
        now as int - c as int * period as int,
    );
}

/// A secret that cannot be used gives its complaint at any time, and a clock that
/// cannot be read gives the clock's.
pub proof fn lemma_code_refused(text: Seq<char>, clock: Result<u64, ErrorView>)
    ensures
        prepared(text) matches Err(e) ==> code_at(text, clock) == Err::<Seq<char>, ErrorView>(e),
        prepared(text) is Ok ==> (clock matches Err(e) ==> code_at(text, clock) == Err::<
            Seq<char>,
            ErrorView,
        >(e)),
{
}

/// What a secret text comes to: `SHA1` in any case is the only hash, and the secret
/// has to be base32.
pub proof fn lemma_prepared(text: Seq<char>, p: ParamsView)
    requires
        params_of(text) == Ok::<ParamsView, ErrorView>(p),
    ensures
        !same_ignoring_ascii_case(p.algorithm, "SHA1"@) ==> prepared(text) == Err::<
            (Seq<u8>, nat, nat),
            ErrorView,
        >(Failure::TotpAlgorithm(p.algorithm)),
        same_ignoring_ascii_case(p.algorithm, "SHA1"@) && base32_bytes(p.secret) is None
            ==> prepared(text) == Err::<(Seq<u8>, nat, nat), ErrorView>(Failure::TotpSecret),
        same_ignoring_ascii_case(p.algorithm, "SHA1"@) ==> (base32_bytes(p.secret) matches Some(key)
            ==> prepared(text) == Ok::<(Seq<u8>, nat, nat), ErrorView>((key, p.digits, p.period))),
{
}

/// A secret text that is no URI is the secret itself without its spaces, for codes of
/// six digits every 30 seconds. White space around it does not matter.
pub proof fn lemma_bare_secret_params(before: Seq<char>, secret: Seq<char>, after: Seq<char>)
    requires
        blank(before),
        blank(after),
        secret.len() > 0 ==> !white_space(secret[0]) && !white_space(secret.last()),
        forall|rest: Seq<char>| secret != #[trigger] ("otpauth://"@ + rest),
    ensures
        params_of(before + secret + after) == Ok::<ParamsView, ErrorView>(
            ParamsView {
                secret: without(secret, ' '),
                digits: 6,
                period: 30,
                algorithm: "SHA1"@,
            },
        ),
{
    lemma_trimmed(before, secret, after);
    if let Some(rest) = after_prefix(secret, "otpauth://"@) {
        lemma_after_prefix("otpauth://"@, secret);
        assert(secret == "otpauth://"@ + rest);
    }
}

/// Whether a pair of a query has a given key.
pub open spec fn pair_of(pair: Seq<char>, key: Seq<char>) -> bool {
    exists|value: Seq<char>| pair == #[trigger] (key + seq!['='] + value)
}

/// What the last pair with a given key says, if there is one.
pub open spec fn says(pairs: Seq<Seq<char>>, key: Seq<char>, value: Option<Seq<char>>) -> bool {
    match value {
        None => forall|i: int| 0 <= i < pairs.len() ==> !pair_of(#[trigger] pairs[i], key),
        Some(v) => exists|i: int|
            0 <= i < pairs.len() && #[trigger] pairs[i] == key + seq!['='] + v && forall|j: int|
                i < j < pairs.len() ==> !pair_of(#[trigger] pairs[j], key),
    }
}

proof fn lemma_keys()
    ensures
        !"secret"@.contains('='),
        !"digits"@.contains('='),
        !"period"@.contains('='),
        !"algorithm"@.contains('='),
        "secret"@ != "digits"@,
        "secret"@ != "period"@,
        "secret"@ != "algorithm"@,
        "digits"@ != "period"@,
        "digits"@ != "algorithm"@,
        "period"@ != "algorithm"@,
{
    reveal_strlit("secret");
    reveal_strlit("digits");
    reveal_strlit("period");
    reveal_strlit("algorithm");
    assert("secret"@[0] == 's');
    assert("digits"@[0] == 'd');
    assert("period"@[0] == 'p');
    assert("algorithm"@[0] == 'a');
}

proof fn lemma_pair_of(pair: Seq<char>, key: Seq<char>)
    requires
        !key.contains('='),
    ensures
        pair_of(pair, key) <==> (cut_at(pair, '=') matches Some(p) && p.0 == key),
        forall|v: Seq<char>| pair == #[trigger] (key + seq!['='] + v) ==> cut_at(pair, '=') == Some(
            (key, v),
        ),
{
    assert forall|v: Seq<char>| pair == #[trigger] (key + seq!['='] + v) implies cut_at(pair, '=')
        == Some((key, v)) by {
        lemma_cut_at_first(key, '=', v);
    }
    if let Some((k, v)) = cut_at(pair, '=') {
        lemma_cut(pair, '=');
        assert(pair == k + seq!['='] + v);
    }
}

proof fn lemma_says_step(pairs: Seq<Seq<char>>, key: Seq<char>, value: Option<Seq<char>>)
    requires
        pairs.len() > 0,
        !key.contains('='),
        says(pairs, key, value),
    ensures
        pair_of(pairs.last(), key) ==> value is Some && cut_at(pairs.last(), '=') == Some(
            (key, value->0),
        ),
        !pair_of(pairs.last(), key) ==> says(pairs.drop_last(), key, value),
{
    let n = pairs.len() - 1;
    let front = pairs.drop_last();
    lemma_pair_of(pairs[n], key);
    match value {
        None => {
            assert(!pair_of(pairs[n], key));
            assert forall|i: int| 0 <= i < front.len() implies !pair_of(#[trigger] front[i], key) by {
                assert(!pair_of(pairs[i], key));
            }
        },
        Some(v) => {
            let i = choose|i: int|
                0 <= i < pairs.len() && #[trigger] pairs[i] == key + seq!['='] + v && forall|j: int|
                    i < j < pairs.len() ==> !pair_of(#[trigger] pairs[j], key);
            if i < n {
                assert(!pair_of(pairs[n], key));
                assert(front[i] == key + seq!['='] + v);
                assert forall|j: int| i < j < front.len() implies !pair_of(#[trigger] front[j], key) by {
                    assert(!pair_of(pairs[j], key));
                }
            } else {
                assert(pairs[n] == key + seq!['='] + v);
            }
        },
    }
}

/// The last pair of a query that names a setting decides it; without one the
/// setting has its default. A number that cannot be read counts as its default.
pub proof fn lemma_pairs(
    pairs: Seq<Seq<char>>,
    secret: Option<Seq<char>>,
    digits: Option<Seq<char>>,
    period: Option<Seq<char>>,
    algorithm: Option<Seq<char>>,
)
    requires
        says(pairs, "secret"@, secret),
        says(pairs, "digits"@, digits),
        says(pairs, "period"@, period),
        says(pairs, "algorithm"@, algorithm),
    ensures
        with_pairs(pairs).secret == (match secret {
            Some(v) => v,
            None => Seq::empty(),
        }),
        with_pairs(pairs).digits == (match digits {
            Some(v) => match unsigned_number(v, 0xffff_ffff) {
                Some(n) => n,
                None => 6,
            },
            None => 6,
        }),
        with_pairs(pairs).period == (match period {
            Some(v) => match unsigned_number(v, 0xffff_ffff_ffff_ffff) {
                Some(n) => n,
                None => 30,
            },
            None => 30,
        }),
        with_pairs(pairs).algorithm == (match algorithm {
            Some(v) => v,
            None => "SHA1"@,
        }),
    decreases pairs.len(),
{
    lemma_keys();
    if pairs.len() > 0 {
        let front = pairs.drop_last();
        let pair = pairs.last();
        lemma_says_step(pairs, "secret"@, secret);
        lemma_says_step(pairs, "digits"@, digits);
        lemma_says_step(pairs, "period"@, period);
        lemma_says_step(pairs, "algorithm"@, algorithm);
        lemma_pair_of(pair, "secret"@);
        lemma_pair_of(pair, "digits"@);
        lemma_pair_of(pair, "period"@);
        lemma_pair_of(pair, "algorithm"@);
        let s = lemma_some_setting(front, "secret"@);
        let d = lemma_some_setting(front, "digits"@);
        let p = lemma_some_setting(front, "period"@);
        let a = lemma_some_setting(front, "algorithm"@);
        lemma_pairs(
            front,
            if pair_of(pair, "secret"@) {
                s
            } else {
                secret
            },
            if pair_of(pair, "digits"@) {
                d
            } else {
                digits
            },
            if pair_of(pair, "period"@) {
                p
            } else {
                period
            },
            if pair_of(pair, "algorithm"@) {
                a
            } else {
                algorithm
            },
        );
    }
}

proof fn lemma_some_setting(pairs: Seq<Seq<char>>, key: Seq<char>) -> (value: Option<Seq<char>>)
    ensures
        says(pairs, key, value),
    decreases pairs.len(),
{
    if pairs.len() == 0 {
        None
    } else if pair_of(pairs.last(), key) {
        let v = choose|value: Seq<char>| pairs.last() == #[trigger] (key + seq!['='] + value);
        let n = pairs.len() - 1;
        assert(pairs[n] == key + seq!['='] + v);
        Some(v)
    } else {
        let front = pairs.drop_last();
        let value = lemma_some_setting(front, key);
        match value {
            None => {
                assert forall|i: int| 0 <= i < pairs.len() implies !pair_of(#[trigger] pairs[i], key) by {
                    if i < front.len() {
                        assert(!pair_of(front[i], key));
                    }
                }
            },
            Some(v) => {
                let i = choose|i: int|
                    0 <= i < front.len() && #[trigger] front[i] == key + seq!['='] + v && forall|
                        j: int,
                    |
                        i < j < front.len() ==> !pair_of(#[trigger] front[j], key);
                assert(pairs[i] == key + seq!['='] + v);
                assert forall|j: int| i < j < pairs.len() implies !pair_of(#[trigger] pairs[j], key) by {
                    if j < front.len() {
                        assert(!pair_of(front[j], key));
                    }
                }
            },
        }
        value
    }
}

/// The query of a URI is what stands between the first and the second question mark,
/// and its pairs are told apart by ampersands. A URI without a secret is refused.
pub proof fn lemma_uri_params(
    before: Seq<char>,
    label: Seq<char>,
    pairs: Seq<Seq<char>>,
    tail: Seq<Seq<char>>,
    after: Seq<char>,
)
    requires
        blank(before),
        blank(after),
        !label.contains('?'),
        pairs.len() > 0,
        forall|i: int|
            0 <= i < pairs.len() ==> !(#[trigger] pairs[i]).contains('&') && !pairs[i].contains('?'),
        forall|i: int| 0 <= i < tail.len() ==> !(#[trigger] tail[i]).contains('?'),
        !white_space(rejoined(seq![label, rejoined(pairs, '&')] + tail, '?').last()),
    ensures
        params_of(
            before + ("otpauth://"@ + rejoined(seq![label, rejoined(pairs, '&')] + tail, '?')) + after,
        ) == (if with_pairs(pairs).secret.len() == 0 {
            Err::<ParamsView, ErrorView>(Failure::TotpMissingSecret)
        } else {
            Ok(with_pairs(pairs))
        }),
{
    let query = rejoined(pairs, '&');
    let parts = seq![label, query] + tail;
    let rest = rejoined(parts, '?');
    let scheme = "otpauth://"@;
    let uri = scheme + rest;
    reveal_strlit("otpauth://");
    assert(uri[0] == 'o');
    lemma_rejoined_lacks(pairs, '&', '?');
    assert forall|i: int| 0 <= i < parts.len() implies !(#[trigger] parts[i]).contains('?') by {
        if i >= 2 {
            assert(parts[i] == tail[i - 2]);
        }
    }
    lemma_rejoined_splits(parts, '?');
    lemma_rejoined_splits(pairs, '&');
    lemma_rejoined_long(parts, '?');
    assert(uri.last() == rest.last());
    lemma_trimmed(before, uri, after);
    lemma_after_prefix(scheme, rest);
    assert(query_of(rest) == query);
}

proof fn lemma_rejoined_long(pieces: Seq<Seq<char>>, sep: char)
    requires
        pieces.len() > 1,
    ensures
        rejoined(pieces, sep).len() > 0,
{
}

proof fn lemma_rejoined_lacks(pieces: Seq<Seq<char>>, sep: char, c: char)
    requires
        sep != c,
        forall|i: int| 0 <= i < pieces.len() ==> !(#[trigger] pieces[i]).contains(c),
    ensures
        !rejoined(pieces, sep).contains(c),
    decreases pieces.len(),
{
    let whole = rejoined(pieces, sep);
    if pieces.len() == 1 {
        assert(!pieces[0].contains(c));
    } else if pieces.len() > 1 {
        let front = pieces.drop_last();
        assert forall|i: int| 0 <= i < front.len() implies !(#[trigger] front[i]).contains(c) by {
            assert(!pieces[i].contains(c));
        }
        lemma_rejoined_lacks(front, sep, c);
        let head = rejoined(front, sep);
        let last = pieces[pieces.len() - 1];
        assert(!last.contains(c));
        assert forall|i: int| 0 <= i < whole.len() implies whole[i] != c by {
            if i < head.len() {
                assert(head.contains(head[i]));
            } else if i > head.len() {
                assert(last.contains(last[i - head.len() - 1]));
            }
        }
    }
}

/// A URI without a query is refused: it has no secret.
pub proof fn lemma_uri_without_query(before: Seq<char>, label: Seq<char>, after: Seq<char>)
    requires
        blank(before),
        blank(after),
        !label.contains('?'),
        label.len() > 0 ==> !white_space(label.last()),
    ensures
        params_of(before + ("otpauth://"@ + label) + after) == Err::<ParamsView, ErrorView>(
            Failure::TotpMissingSecret,
        ),
{
    let scheme = "otpauth://"@;
    let uri = scheme + label;
    reveal_strlit("otpauth://");
    assert(uri[0] == 'o');
    assert(scheme.last() == '/');
    assert(uri.last() == if label.len() > 0 {
        label.last()
    } else {
        '/'
    });
    lemma_trimmed(before, uri, after);
    lemma_after_prefix(scheme, label);
    lemma_split_single(label, '?');
    let nothing = Seq::<char>::empty();
    lemma_split_single(nothing, '&');
    let pairs = seq![nothing];
    assert(query_of(label) == nothing);
    assert(pairs.drop_last() =~= Seq::empty());
    assert(with_pairs(Seq::empty()) == default_params(nothing));
    nothing.index_of_first_ensures('=');
    assert(cut_at(nothing, '=') is None);
    assert(with_pairs(pairs) == default_params(nothing));
}

} // verus!
