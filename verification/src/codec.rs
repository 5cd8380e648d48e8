//! Base64: what the standard alphabet with padding makes of a byte sequence.

use crate::text::white_space;
use base64::engine::general_purpose::STANDARD;
use base64::Engine;
use vstd::prelude::*;

verus! {

/// The base64 digit for a value below 64.
pub open spec fn b64_digit(v: int) -> char {
    if v < 26 {
        (65 + v) as char
    } else if v < 52 {
        (97 + (v - 26)) as char
    } else if v < 62 {
        (48 + (v - 52)) as char
    } else if v == 62 {
        '+'
    } else {
        '/'
    }
}

/// The byte at `i`, zero past the end.
pub open spec fn byte_or_zero(data: Seq<u8>, i: int) -> int {
    if 0 <= i < data.len() {
        data[i] as int
    } else {
        0
    }
}

/// The 24 bits of the `g`-th group of three bytes, zero-filled past the end.
pub open spec fn group_bits(data: Seq<u8>, g: int) -> int {
    byte_or_zero(data, 3 * g) * 65536 + byte_or_zero(data, 3 * g + 1) * 256 + byte_or_zero(
        data,
        3 * g + 2,
    )
}

/// The `k`-th of the four six-bit parts of a group.
pub open spec fn sextet(bits: int, k: int) -> int {
    if k == 0 {
        bits / 262144
    } else if k == 1 {
        bits / 4096 % 64
    } else if k == 2 {
        bits / 64 % 64
    } else {
        bits % 64
    }
}

/// The `i`-th character of the base64 text: a digit while its six bits hold bits
/// of a byte, then padding.
pub open spec fn b64_char(data: Seq<u8>, i: int) -> char {
    let g = i / 4;
    let k = i % 4;
    if k <= data.len() - 3 * g {
        b64_digit(sextet(group_bits(data, g), k))
    } else {
        '='
    }
}

/// The length of the base64 text of `n` bytes.
pub open spec fn b64_len(n: nat) -> nat {
    4 * ((n + 2) / 3)
}

/// The base64 text of a byte sequence: four characters for every three bytes,
/// padded with `=`.
pub open spec fn b64_text(data: Seq<u8>) -> Seq<char> {
    Seq::new(b64_len(data.len()), |i: int| b64_char(data, i))
}

/// Whether the base64 text of `n` bytes fits in memory.
pub open spec fn b64_fits(n: nat) -> bool {
    b64_len(n) <= isize::MAX
}

/// What the decoder says of a text that is not base64.
pub uninterp spec fn b64_fault(text: Seq<char>) -> Seq<char>;

/// The bytes whose base64 text is `text`, or the decoder's complaint.
pub open spec fn b64_bytes(text: Seq<char>) -> Result<Seq<u8>, Seq<char>> {
    if exists|data: Seq<u8>| b64_text(data) == text {
        Ok(choose|data: Seq<u8>| b64_text(data) == text)
    } else {
        Err(b64_fault(text))
    }
}

/// `base64::Engine::encode` of the `STANDARD` engine: the text is the base64 text
/// of the bytes, with padding.
#[verifier::external_body]
pub(crate) fn encode(data: &[u8]) -> (r: String)
    requires
        b64_fits(data@.len()),
    ensures
        r@ == b64_text(data@),
{
    STANDARD.encode(data)
}

/// `base64::Engine::decode` of the `STANDARD` engine: succeeds on exactly the
/// texts that encoding gives (padding is required and unused bits are zero) and
/// returns the encoded bytes; the error is given by its message, which depends on
/// the text alone.
#[verifier::external_body]
fn decode_standard(text: &str) -> (r: Result<Vec<u8>, String>)
    ensures
        r matches Ok(data) ==> b64_text(data@) == text@,
        r matches Err(e) ==> e@ == b64_fault(text@) && forall|data: Seq<u8>|
            #[trigger] b64_text(data) != text@,
{
    STANDARD.decode(text).map_err(|e| e.to_string())
}

/// A digit is no padding and no separator of the formats built on base64, and
/// different values have different digits.
proof fn lemma_digit(v: int, w: int)
    requires
        0 <= v < 64,
        0 <= w < 64,
    ensures
        b64_digit(v) == b64_digit(w) ==> v == w,
        b64_digit(v) != '=',
        b64_digit(v) != '|',
        b64_digit(v) != '.',
{
}

/// The parts of a group, and the group again from its parts.
proof fn lemma_sextets(bits: int)
    requires
        0 <= bits < 16777216,
    ensures
        forall|k: int| 0 <= k < 4 ==> 0 <= #[trigger] sextet(bits, k) < 64,
        bits == sextet(bits, 0) * 262144 + sextet(bits, 1) * 4096 + sextet(bits, 2) * 64 + sextet(
            bits,
            3,
        ),
{
}

/// Base64 texts hold no `|` and no `.`.
pub proof fn lemma_b64_alphabet(data: Seq<u8>)
    ensures
        !b64_text(data).contains('|'),
        !b64_text(data).contains('.'),
{
    assert forall|i: int| 0 <= i < b64_text(data).len() implies #[trigger] b64_text(data)[i] != '|'
        && b64_text(data)[i] != '.' by {
        let g = i / 4;
        lemma_sextets(group_bits(data, g));
        let v = sextet(group_bits(data, g), i % 4);
        lemma_digit(v, v);
    }
}

/// Base64 texts hold no white space.
pub proof fn lemma_b64_no_space(data: Seq<u8>)
    ensures
        forall|i: int| 0 <= i < b64_text(data).len() ==> !white_space(#[trigger] b64_text(data)[i]),
{
    assert forall|i: int| 0 <= i < b64_text(data).len() implies !white_space(
        #[trigger] b64_text(data)[i],
    ) by {
        lemma_sextets(group_bits(data, i / 4));
        let v = sextet(group_bits(data, i / 4), i % 4);
        assert(0 <= v < 64);
        assert(!white_space(b64_digit(v)));
        assert(!white_space('='));
    }
}

/// Equal texts have equal digits: the `k`-th character of the `g`-th group is
/// padding in both or the same digit in both.
proof fn lemma_char_determined(a: Seq<u8>, b: Seq<u8>, g: int, k: int)
    requires
        b64_text(a) == b64_text(b),
        0 <= g,
        0 <= k < 4,
        4 * g < b64_text(a).len(),
    ensures
        k <= a.len() - 3 * g <==> k <= b.len() - 3 * g,
        k <= a.len() - 3 * g ==> sextet(group_bits(a, g), k) == sextet(group_bits(b, g), k),
{
    let i = 4 * g + k;
    assert(i / 4 == g && i % 4 == k);
    assert(i < b64_text(a).len());
    assert(b64_text(a)[i] == b64_char(a, i));
    assert(b64_text(b)[i] == b64_char(b, i));
    lemma_sextets(group_bits(a, g));
    lemma_sextets(group_bits(b, g));
    lemma_digit(sextet(group_bits(a, g), k), sextet(group_bits(b, g), k));
    lemma_digit(sextet(group_bits(b, g), k), sextet(group_bits(a, g), k));
}

/// The parts of a group that hold no bits of a byte are zero.
proof fn lemma_short_group(data: Seq<u8>, g: int)
    requires
        0 <= g,
        0 < data.len() - 3 * g < 3,
    ensures
        sextet(group_bits(data, g), 3) == 0,
        data.len() - 3 * g == 1 ==> sextet(group_bits(data, g), 2) == 0,
{
}

/// The `g`-th group of the text tells how many bytes the group has, up to three,
/// and which.
proof fn lemma_group_determined(a: Seq<u8>, b: Seq<u8>, g: int)
    requires
        b64_text(a) == b64_text(b),
        0 <= g,
        4 * g < b64_text(a).len(),
    ensures
        a.len() - 3 * g >= 3 <==> b.len() - 3 * g >= 3,
        a.len() - 3 * g < 3 ==> a.len() == b.len(),
        group_bits(a, g) == group_bits(b, g),
{
    assert(3 * g < a.len() && 3 * g < b.len()) by {
        assert(b64_text(a).len() == b64_len(a.len()));
        assert(b64_text(b).len() == b64_len(b.len()));
    }
    lemma_char_determined(a, b, g, 0);
    lemma_char_determined(a, b, g, 1);
    lemma_char_determined(a, b, g, 2);
    lemma_char_determined(a, b, g, 3);
    if a.len() - 3 * g < 3 {
        lemma_short_group(a, g);
        lemma_short_group(b, g);
    }
    let x = group_bits(a, g);
    let y = group_bits(b, g);
    assert(sextet(x, 0) == sextet(y, 0) && sextet(x, 1) == sextet(y, 1) && sextet(x, 2) == sextet(
        y,
        2,
    ) && sextet(x, 3) == sextet(y, 3));
    lemma_sextets(x);
    lemma_sextets(y);
}

/// Different byte sequences have different base64 texts.
pub proof fn lemma_b64_injective(a: Seq<u8>, b: Seq<u8>)
    requires
        b64_text(a) == b64_text(b),
    ensures
        a == b,
{
    let groups = (a.len() + 2) / 3;
    assert(b64_text(a).len() == 4 * groups);
    assert(b64_text(b).len() == b64_len(b.len()));
    if groups > 0 {
        lemma_group_determined(a, b, groups - 1);
    }
    assert(a.len() == b.len());
    assert forall|i: int| 0 <= i < a.len() implies a[i] == b[i] by {
        let g = i / 3;
        lemma_group_determined(a, b, g);
        assert(i == 3 * g || i == 3 * g + 1 || i == 3 * g + 2);
    }
    assert(a =~= b);
}

/// Decoding the text of a byte sequence gives the bytes back.
pub proof fn lemma_b64_round_trip(data: Seq<u8>)
    ensures
        b64_bytes(b64_text(data)) == Ok::<Seq<u8>, Seq<char>>(data),
{
    let text = b64_text(data);
    assert(exists|d: Seq<u8>| b64_text(d) == text);
    lemma_b64_injective(choose|d: Seq<u8>| b64_text(d) == text, data);
}

/// The view of a byte vector or of an error message.
pub open spec fn bytes_or_message(r: Result<Vec<u8>, String>) -> Result<Seq<u8>, Seq<char>> {
    match r {
        Ok(data) => Ok(data@),
        Err(e) => Err(e@),
    }
}

/// Reads a base64 text.
pub fn decode(text: &str) -> (r: Result<Vec<u8>, String>)
    ensures
        bytes_or_message(r) == b64_bytes(text@),
{
    let r: Result<Vec<u8>, String> = decode_standard(text);
    proof {
        if r is Ok {
            lemma_b64_round_trip(r->Ok_0@);
        }
    }
    r
}

} // verus!
