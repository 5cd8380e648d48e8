//! Text as a sequence of characters: the string operations that the other
//! modules need, each with its meaning as a function on `Seq<char>`.

use vstd::prelude::*;
use vstd::utf8::encode_utf8;

verus! {

/// `String::push`: appends one character and leaves the rest as it is.
pub assume_specification[ String::push ](s: &mut String, c: char)
    ensures
        final(s)@ == old(s)@.push(c),
;

/// The contents of a list of strings.
pub open spec fn views(list: Seq<String>) -> Seq<Seq<char>> {
    list.map_values(|s: String| s@)
}

/// Whether a character has Unicode's `White_Space` property.
pub open spec fn white_space(c: char) -> bool {
    let u = c as u32;
    ||| 0x9 <= u <= 0xd
    ||| u == 0x20
    ||| u == 0x85
    ||| u == 0xa0
    ||| u == 0x1680
    ||| 0x2000 <= u <= 0x200a
    ||| u == 0x2028
    ||| u == 0x2029
    ||| u == 0x202f
    ||| u == 0x205f
    ||| u == 0x3000
}

/// Tells whether `c` is white space.
pub fn is_white_space(c: char) -> (r: bool)
    ensures
        r == white_space(c),
{
    let u: u32 = c as u32;
    (0x9 <= u && u <= 0xd) || u == 0x20 || u == 0x85 || u == 0xa0 || u == 0x1680 || (0x2000 <= u
        && u <= 0x200a) || u == 0x2028 || u == 0x2029 || u == 0x202f || u == 0x205f || u == 0x3000
}

/// The Unicode code point of `c`.
pub fn code_point(c: char) -> (r: u32)
    ensures
        r as int == c as int,
{
    c as u32
}

/// Two strings are equal when their characters are.
pub fn str_eq(a: &str, b: &str) -> (r: bool)
    ensures
        r == (a@ == b@),
{
    let x: &[u8] = a.as_bytes();
    let y: &[u8] = b.as_bytes();
    proof {
        vstd::utf8::encode_utf8_decode_utf8(a@);
        vstd::utf8::encode_utf8_decode_utf8(b@);
    }
    if x.len() != y.len() {
        return false;
    }
    let mut i: usize = 0;
    while i < x.len()
        invariant
            x@ == encode_utf8(a@),
            y@ == encode_utf8(b@),
            x@.len() == y@.len(),
            i <= x@.len(),
            forall|j: int| 0 <= j < i ==> x@[j] == y@[j],
        decreases x@.len() - i,
    {
        if x[i] != y[i] {
            return false;
        }
        i += 1;
    }
    assert(x@ =~= y@);
    true
}

/// The characters of `s`.
pub fn chars_of(s: &str) -> (r: Vec<char>)
    ensures
        r@ == s@,
{
    let mut out: Vec<char> = Vec::new();
    for c in it: s.chars()
        invariant
            it.seq() == s@,
            out@ == s@.take(it.index()),
    {
        out.push(c);
        assert(s@.take(it.index() + 1) =~= s@.take(it.index()).push(c));
    }
    assert(s@.take(s@.len() as int) =~= s@);
    out
}

/// The string made of `chars[from..to]`.
pub fn string_from(chars: &Vec<char>, from: usize, to: usize) -> (r: String)
    requires
        from <= to <= chars@.len(),
    ensures
        r@ == chars@.subrange(from as int, to as int),
{
    let mut out: String = String::new();
    let mut i: usize = from;
    while i < to
        invariant
            from <= i <= to <= chars@.len(),
            out@ == chars@.subrange(from as int, i as int),
        decreases to - i,
    {
        out.push(chars[i]);
        i += 1;
        assert(chars@.subrange(from as int, i as int) =~= chars@.subrange(
            from as int,
            i - 1,
        ).push(chars@[i - 1]));
    }
    out
}

/// `s` without its leading white space.
pub open spec fn trim_start(s: Seq<char>) -> Seq<char>
    decreases s.len(),
{
    if s.len() > 0 && white_space(s[0]) {
        trim_start(s.drop_first())
    } else {
        s
    }
}

/// `s` without its trailing white space.
pub open spec fn trim_end(s: Seq<char>) -> Seq<char>
    decreases s.len(),
{
    if s.len() > 0 && white_space(s.last()) {
        trim_end(s.drop_last())
    } else {
        s
    }
}

/// `s` without white space at either end.
pub open spec fn trimmed(s: Seq<char>) -> Seq<char> {
    trim_end(trim_start(s))
}

/// Removes white space from both ends of `s`.
pub fn trim(s: &str) -> (r: String)
    ensures
        r@ == trimmed(s@),
{
    let chars: Vec<char> = chars_of(s);
    let mut from: usize = 0;
    assert(chars@.skip(0) =~= chars@);
    while from < chars.len() && is_white_space(chars[from])
        invariant
            from <= chars@.len(),
            trim_start(chars@) == trim_start(chars@.skip(from as int)),
        decreases chars@.len() - from,
    {
        assert(chars@.skip(from as int).drop_first() =~= chars@.skip(from + 1));
        from += 1;
    }
    let mut to: usize = chars.len();
    let ghost body = chars@.skip(from as int);
    assert(chars@.subrange(from as int, to as int) =~= body);
    while to > from && is_white_space(chars[to - 1])
        invariant
            from <= to <= chars@.len(),
            trim_end(body) == trim_end(chars@.subrange(from as int, to as int)),
        decreases to,
    {
        assert(chars@.subrange(from as int, to as int).drop_last() =~= chars@.subrange(
            from as int,
            to - 1,
        ));
        to -= 1;
    }
    string_from(&chars, from, to)
}

/// What follows `prefix` in `s`, if `s` starts with it.
pub open spec fn after_prefix(s: Seq<char>, prefix: Seq<char>) -> Option<Seq<char>> {
    if prefix.is_prefix_of(s) {
        Some(s.skip(prefix.len() as int))
    } else {
        None
    }
}

/// The view of an optional string.
pub open spec fn opt_view(o: Option<String>) -> Option<Seq<char>> {
    match o {
        Some(s) => Some(s@),
        None => None,
    }
}

/// A text, empty where there is none.
pub open spec fn or_empty(t: Option<Seq<char>>) -> Seq<char> {
    match t {
        Some(s) => s,
        None => Seq::empty(),
    }
}

/// The text, empty where there is none.
pub fn text_or_empty(t: Option<String>) -> (r: String)
    ensures
        r@ == or_empty(opt_view(t)),
{
    match t {
        Some(s) => s,
        None => {
            let r: String = String::new();
            assert(r@ =~= Seq::<char>::empty());
            r
        },
    }
}

/// Takes `prefix` off the front of `s`.
pub fn strip_prefix(s: &str, prefix: &str) -> (r: Option<String>)
    ensures
        opt_view(r) == after_prefix(s@, prefix@),
{
    let chars: Vec<char> = chars_of(s);
    let lead: Vec<char> = chars_of(prefix);
    if lead.len() > chars.len() {
        return None;
    }
    let mut i: usize = 0;
    while i < lead.len()
        invariant
            i <= lead@.len() <= chars@.len(),
            chars@ == s@,
            lead@ == prefix@,
            forall|j: int| 0 <= j < i ==> chars@[j] == lead@[j],
        decreases lead@.len() - i,
    {
        if chars[i] != lead[i] {
            assert(s@[i as int] != prefix@[i as int]);
            assert(s@.subrange(0, prefix@.len() as int)[i as int] != prefix@[i as int]);
            return None;
        }
        i += 1;
    }
    assert(s@.subrange(0, prefix@.len() as int) =~= prefix@);
    assert(s@.skip(prefix@.len() as int) =~= s@.subrange(
        prefix@.len() as int,
        s@.len() as int,
    ));
    Some(string_from(&chars, lead.len(), chars.len()))
}

/// Tells whether `s` ends with `suffix`.
pub fn ends_with(s: &str, suffix: &str) -> (r: bool)
    ensures
        r == suffix@.is_suffix_of(s@),
{
    let chars: Vec<char> = chars_of(s);
    let tail: Vec<char> = chars_of(suffix);
    if tail.len() > chars.len() {
        return false;
    }
    let skip: usize = chars.len() - tail.len();
    let mut i: usize = 0;
    while i < tail.len()
        invariant
            i <= tail@.len() <= chars@.len(),
            skip == chars@.len() - tail@.len(),
            chars@.len() <= usize::MAX,
            chars@ == s@,
            tail@ == suffix@,
            forall|j: int| 0 <= j < i ==> chars@[skip + j] == tail@[j],
        decreases tail@.len() - i,
    {
        if chars[skip + i] != tail[i] {
            assert(s@.subrange(skip as int, s@.len() as int)[i as int] != suffix@[i as int]);
            return false;
        }
        i += 1;
    }
    assert(s@.subrange(skip as int, s@.len() as int) =~= suffix@);
    true
}

/// The pieces of `s` between the occurrences of `sep`: one more than there are
/// occurrences.
pub open spec fn split_on(s: Seq<char>, sep: char) -> Seq<Seq<char>>
    decreases s.len(),
{
    if s.len() == 0 {
        seq![Seq::<char>::empty()]
    } else {
        let before = split_on(s.drop_last(), sep);
        if s.last() == sep {
            before.push(Seq::<char>::empty())
        } else {
            before.drop_last().push(before.last().push(s.last()))
        }
    }
}

/// Splits `s` at every `sep`.
pub fn split(s: &str, sep: char) -> (r: Vec<String>)
    ensures
        views(r@) == split_on(s@, sep),
        r@.len() > 0,
{
    let mut done: Vec<String> = Vec::new();
    let mut cur: String = String::new();
    assert(s@.take(0) =~= Seq::<char>::empty());
    assert(views(done@).push(cur@) =~= split_on(s@.take(0), sep));
    for c in it: s.chars()
        invariant
            it.seq() == s@,
            views(done@).push(cur@) == split_on(s@.take(it.index()), sep),
    {
        let ghost head = s@.take(it.index());
        let ghost next = s@.take(it.index() + 1);
        let ghost before = views(done@).push(cur@);
        assert(next.drop_last() =~= head);
        assert(next.last() == c);
        assert(before.drop_last() =~= views(done@));
        if c == sep {
            let ghost old_done = done@;
            done.push(cur);
            cur = String::new();
            assert(views(done@) =~= before);
        } else {
            cur.push(c);
        }
        assert(views(done@).push(cur@) == split_on(next, sep));
    }
    assert(s@.take(s@.len() as int) =~= s@);
    let ghost prior = done@;
    let ghost last = cur@;
    done.push(cur);
    assert(views(done@) =~= views(prior).push(last));
    done
}

/// What stands before and after the first `sep` of `s`, if it has one.
pub open spec fn cut_at(s: Seq<char>, sep: char) -> Option<(Seq<char>, Seq<char>)> {
    match s.index_of_first(sep) {
        Some(i) => Some((s.take(i), s.skip(i + 1))),
        None => None,
    }
}

/// Cuts `s` in two at the first `sep`.
pub fn cut(s: &str, sep: char) -> (r: Option<(String, String)>)
    ensures
        r is None <==> cut_at(s@, sep) is None,
        r matches Some(p) ==> cut_at(s@, sep) == Some((p.0@, p.1@)),
{
    let chars: Vec<char> = chars_of(s);
    proof {
        s@.index_of_first_ensures(sep);
    }
    let mut i: usize = 0;
    while i < chars.len()
        invariant
            i <= chars@.len(),
            chars@ == s@,
            forall|j: int| 0 <= j < i ==> s@[j] != sep,
            match s@.index_of_first(sep) {
                Some(k) => 0 <= k < s@.len() && s@[k] == sep && forall|j: int|
                    0 <= j < k ==> s@[j] != sep,
                None => !s@.contains(sep),
            },
        decreases chars@.len() - i,
    {
        if chars[i] == sep {
            assert(s@.contains(s@[i as int]));
            assert(s@.take(i as int) =~= s@.subrange(0, i as int));
            assert(s@.skip(i + 1) =~= s@.subrange(i + 1, s@.len() as int));
            return Some((string_from(&chars, 0, i), string_from(&chars, i + 1, chars.len())));
        }
        i += 1;
    }
    None
}

/// A text without the separator is one piece.
pub proof fn lemma_split_single(s: Seq<char>, sep: char)
    requires
        !s.contains(sep),
    ensures
        split_on(s, sep) == seq![s],
    decreases s.len(),
{
    if s.len() == 0 {
        assert(s =~= Seq::<char>::empty());
    } else {
        assert(s.contains(s.last()));
        assert forall|i: int| 0 <= i < s.drop_last().len() implies s.drop_last()[i] != sep by {
            assert(s.contains(s[i]));
        }
        lemma_split_single(s.drop_last(), sep);
        assert(s.drop_last().push(s.last()) =~= s);
        assert(seq![s.drop_last()].drop_last().push(s) =~= seq![s]);
    }
}

/// A separator and a text without one add a last piece.
pub proof fn lemma_split_last(s: Seq<char>, sep: char, tail: Seq<char>)
    requires
        !tail.contains(sep),
    ensures
        split_on(s + seq![sep] + tail, sep) == split_on(s, sep).push(tail),
    decreases tail.len(),
{
    let whole = s + seq![sep] + tail;
    if tail.len() == 0 {
        assert(whole =~= s.push(sep));
        assert(whole.drop_last() =~= s);
        assert(tail =~= Seq::<char>::empty());
    } else {
        let front = tail.drop_last();
        assert(tail.contains(tail.last()));
        assert forall|i: int| 0 <= i < front.len() implies front[i] != sep by {
            assert(tail.contains(tail[i]));
        }
        lemma_split_last(s, sep, front);
        assert(whole.drop_last() =~= s + seq![sep] + front);
        assert(front.push(tail.last()) =~= tail);
        assert(split_on(s, sep).push(front).drop_last() =~= split_on(s, sep));
    }
}

/// The character of a decimal digit.
pub open spec fn digit_char(d: nat) -> char {
    (48 + d) as char
}

/// A number in decimal notation, without leading zeros.
pub open spec fn decimal(n: nat) -> Seq<char>
    decreases n,
{
    if n < 10 {
        seq![digit_char(n)]
    } else {
        decimal(n / 10).push(digit_char(n % 10))
    }
}

/// Writes `n` in decimal.
pub fn decimal_string(n: u64) -> (r: String)
    ensures
        r@ == decimal(n as nat),
    decreases n,
{
    if n < 10 {
        let mut out: String = String::new();
        out.push((48u8 + n as u8) as char);
        assert(out@ =~= decimal(n as nat));
        out
    } else {
        let mut out: String = decimal_string(n / 10);
        let d: u8 = (n % 10) as u8;
        out.push((48u8 + d) as char);
        out
    }
}

/// Whether a character is one of `0` to `9`.
pub open spec fn is_digit(c: char) -> bool {
    48 <= c as u32 <= 57
}

/// The number that a sequence of decimal digits stands for.
pub open spec fn digits_value(s: Seq<char>) -> nat
    decreases s.len(),
{
    if s.len() == 0 {
        0
    } else {
        digits_value(s.drop_last()) * 10 + (s.last() as u32 - 48) as nat
    }
}

/// The digits of an unsigned number: what follows an optional `+`.
pub open spec fn number_digits(s: Seq<char>) -> Seq<char> {
    if s.len() > 0 && s[0] == '+' {
        s.skip(1)
    } else {
        s
    }
}

/// The unsigned number that `s` spells, if it is at most `max`: an optional `+`
/// and then at least one digit, nothing else.
pub open spec fn unsigned_number(s: Seq<char>, max: nat) -> Option<nat> {
    let digits = number_digits(s);
    if digits.len() > 0 && (forall|i: int| 0 <= i < digits.len() ==> is_digit(#[trigger] digits[i]))
        && digits_value(digits) <= max {
        Some(digits_value(digits))
    } else {
        None
    }
}

/// A longer digit sequence stands for a number at least as large.
proof fn lemma_digits_value_grows(s: Seq<char>, i: int)
    requires
        0 <= i <= s.len(),
        forall|j: int| 0 <= j < s.len() ==> is_digit(#[trigger] s[j]),
    ensures
        digits_value(s.take(i)) <= digits_value(s),
    decreases s.len(),
{
    if i == s.len() {
        assert(s.take(i) =~= s);
    } else {
        assert(s.drop_last().take(i) =~= s.take(i));
        assert forall|j: int| 0 <= j < s.drop_last().len() implies is_digit(
            #[trigger] s.drop_last()[j],
        ) by {
            assert(is_digit(s[j]));
        }
        lemma_digits_value_grows(s.drop_last(), i);
        assert(is_digit(s[s.len() - 1]));
    }
}

/// Reads an unsigned decimal number of at most `max`.
pub fn parse_unsigned(s: &str, max: u64) -> (r: Option<u64>)
    ensures
        r matches Some(n) ==> unsigned_number(s@, max as nat) == Some(n as nat),
        r is None ==> unsigned_number(s@, max as nat) is None,
{
    let chars: Vec<char> = chars_of(s);
    let mut i: usize = 0;
    if chars.len() > 0 && chars[0] == '+' {
        i = 1;
    }
    let from: usize = i;
    let ghost digits = number_digits(s@);
    assert(digits =~= chars@.skip(from as int));
    if i == chars.len() {
        return None;
    }
    let mut n: u64 = 0;
    assert(digits.take(0) =~= Seq::<char>::empty());
    while i < chars.len()
        invariant
            from <= i <= chars@.len(),
            digits == chars@.skip(from as int),
            digits == number_digits(s@),
            n == digits_value(digits.take(i - from)),
            n <= max,
            forall|j: int| 0 <= j < i - from ==> is_digit(#[trigger] digits[j]),
        decreases chars@.len() - i,
    {
        let c: char = chars[i];
        let ghost k = i - from;
        assert(digits[k] == c);
        let u: u32 = c as u32;
        if u < 48 || u > 57 {
            assert(!is_digit(digits[k]));
            return None;
        }
        let d: u64 = (u - 48) as u64;
        assert(digits.take(k + 1).drop_last() =~= digits.take(k));
        assert(digits_value(digits.take(k + 1)) == n * 10 + d);
        if n > (max - if d > max { max } else { d }) / 10 || d > max {
            proof {
                if forall|j: int| 0 <= j < digits.len() ==> is_digit(#[trigger] digits[j]) {
                    lemma_digits_value_grows(digits, k + 1);
                }
            }
            return None;
        }
        n = n * 10 + d;
        i += 1;
    }
    assert(digits.take(digits.len() as int) =~= digits);
    Some(n)
}

/// The lower-case form of an ASCII letter; other characters as they are.
pub open spec fn ascii_lower(c: char) -> char {
    if 65 <= c as u32 <= 90 {
        (c as u32 + 32) as char
    } else {
        c
    }
}

/// Whether two strings are equal when the case of ASCII letters is ignored.
pub open spec fn same_ignoring_ascii_case(a: Seq<char>, b: Seq<char>) -> bool {
    a.len() == b.len() && forall|i: int|
        0 <= i < a.len() ==> ascii_lower(#[trigger] a[i]) == ascii_lower(b[i])
}

/// The lower-case form of `c` if it is an ASCII letter.
pub fn to_ascii_lower(c: char) -> (r: char)
    ensures
        r == ascii_lower(c),
{
    let u: u32 = c as u32;
    if 65 <= u && u <= 90 {
        (u as u8 + 32) as char
    } else {
        c
    }
}

/// Compares two strings without regard to the case of ASCII letters.
pub fn eq_ignore_ascii_case(a: &str, b: &str) -> (r: bool)
    ensures
        r == same_ignoring_ascii_case(a@, b@),
{
    let x: Vec<char> = chars_of(a);
    let y: Vec<char> = chars_of(b);
    if x.len() != y.len() {
        return false;
    }
    let mut i: usize = 0;
    while i < x.len()
        invariant
            x@ == a@,
            y@ == b@,
            x@.len() == y@.len(),
            i <= x@.len(),
            forall|j: int| 0 <= j < i ==> ascii_lower(#[trigger] a@[j]) == ascii_lower(b@[j]),
        decreases x@.len() - i,
    {
        if to_ascii_lower(x[i]) != to_ascii_lower(y[i]) {
            assert(ascii_lower(a@[i as int]) != ascii_lower(b@[i as int]));
            return false;
        }
        i += 1;
    }
    true
}

/// `s` with every `gone` taken out.
pub open spec fn without(s: Seq<char>, gone: char) -> Seq<char>
    decreases s.len(),
{
    if s.len() == 0 {
        s
    } else if s.last() == gone {
        without(s.drop_last(), gone)
    } else {
        without(s.drop_last(), gone).push(s.last())
    }
}

/// Takes every `gone` out of `s`.
pub fn remove_char(s: &str, gone: char) -> (r: String)
    ensures
        r@ == without(s@, gone),
{
    let mut out: String = String::new();
    assert(s@.take(0) =~= Seq::<char>::empty());
    for c in it: s.chars()
        invariant
            it.seq() == s@,
            out@ == without(s@.take(it.index()), gone),
    {
        assert(s@.take(it.index() + 1).drop_last() =~= s@.take(it.index()));
        if c != gone {
            out.push(c);
        }
    }
    assert(s@.take(s@.len() as int) =~= s@);
    out
}

/// Whether a character is a hexadecimal digit.
pub open spec fn hex_digit(c: char) -> bool {
    48 <= c as u32 <= 57 || 65 <= c as u32 <= 70 || 97 <= c as u32 <= 102
}

/// Whether a text has the form of a GUID: 36 hexadecimal digits and hyphens, with
/// hyphens at the four places where a GUID has them.
pub open spec fn guid(s: Seq<char>) -> bool {
    &&& s.len() == 36
    &&& s[8] == '-' && s[13] == '-' && s[18] == '-' && s[23] == '-'
    &&& forall|i: int| 0 <= i < s.len() ==> hex_digit(#[trigger] s[i]) || s[i] == '-'
}

/// Tells whether `s` has the form of a GUID.
pub fn is_guid(s: &str) -> (r: bool)
    ensures
        r == guid(s@),
{
    let chars: Vec<char> = chars_of(s);
    if chars.len() != 36 || chars[8] != '-' || chars[13] != '-' || chars[18] != '-' || chars[23]
        != '-' {
        return false;
    }
    let mut i: usize = 0;
    while i < chars.len()
        invariant
            i <= chars@.len(),
            chars@ == s@,
            forall|j: int| 0 <= j < i ==> hex_digit(#[trigger] s@[j]) || s@[j] == '-',
        decreases chars@.len() - i,
    {
        let c: char = chars[i];
        let u: u32 = c as u32;
        let hex: bool = (48 <= u && u <= 57) || (65 <= u && u <= 70) || (97 <= u && u <= 102);
        if !hex && c != '-' {
            assert(!hex_digit(s@[i as int]));
            return false;
        }
        i += 1;
    }
    true
}

/// Dictionary order of character sequences, by code point.
pub open spec fn precedes(a: Seq<char>, b: Seq<char>) -> bool
    decreases a.len(),
{
    if b.len() == 0 {
        false
    } else if a.len() == 0 {
        true
    } else if a[0] == b[0] {
        precedes(a.skip(1), b.skip(1))
    } else {
        (a[0] as int) < (b[0] as int)
    }
}

/// Dictionary order is transitive.
pub proof fn lemma_precedes_transitive(a: Seq<char>, b: Seq<char>, c: Seq<char>)
    requires
        precedes(a, b),
        precedes(b, c),
    ensures
        precedes(a, c),
    decreases a.len(),
{
    if a.len() > 0 && a[0] == b[0] && b[0] == c[0] {
        lemma_precedes_transitive(a.skip(1), b.skip(1), c.skip(1));
    }
}

/// Of two different sequences one comes first.
pub proof fn lemma_precedes_total(a: Seq<char>, b: Seq<char>)
    ensures
        a == b || precedes(a, b) || precedes(b, a),
        !(precedes(a, b) && precedes(b, a)),
        !precedes(a, a),
    decreases a.len(),
{
    if a.len() == 0 {
        if b.len() == 0 {
            assert(a =~= b);
        }
    } else if b.len() > 0 && a[0] == b[0] {
        lemma_precedes_total(a.skip(1), b.skip(1));
        if a.skip(1) == b.skip(1) {
            assert(a =~= seq![a[0]] + a.skip(1));
            assert(b =~= seq![b[0]] + b.skip(1));
        }
        if a.len() > 0 {
            lemma_precedes_total(a.skip(1), a.skip(1));
        }
    } else {
        lemma_precedes_total(a.skip(1), a.skip(1));
    }
}

/// Tells whether `a` comes before `b` in dictionary order.
pub fn comes_before(a: &str, b: &str) -> (r: bool)
    ensures
        r == precedes(a@, b@),
{
    let x: Vec<char> = chars_of(a);
    let y: Vec<char> = chars_of(b);
    let mut i: usize = 0;
    assert(x@.skip(0) =~= a@);
    assert(y@.skip(0) =~= b@);
    while i < x.len() && i < y.len()
        invariant
            i <= x@.len(),
            i <= y@.len(),
            precedes(a@, b@) == precedes(x@.skip(i as int), y@.skip(i as int)),
        decreases x@.len() - i,
    {
        if x[i] != y[i] {
            return code_point(x[i]) < code_point(y[i]);
        }
        assert(x@.skip(i as int).skip(1) =~= x@.skip(i + 1));
        assert(y@.skip(i as int).skip(1) =~= y@.skip(i + 1));
        i += 1;
    }
    i < y.len()
}

/// Pieces with a separator between each two of them.
pub open spec fn rejoined(pieces: Seq<Seq<char>>, sep: char) -> Seq<char>
    decreases pieces.len(),
{
    if pieces.len() == 0 {
        Seq::empty()
    } else if pieces.len() == 1 {
        pieces[0]
    } else {
        rejoined(pieces.drop_last(), sep) + seq![sep] + pieces.last()
    }
}

/// The pieces of a text hold no separator, and put together again with separators
/// between them they are the text.
pub proof fn lemma_split_rejoins(s: Seq<char>, sep: char)
    ensures
        split_on(s, sep).len() > 0,
        rejoined(split_on(s, sep), sep) == s,
        forall|i: int| 0 <= i < split_on(s, sep).len() ==> !(#[trigger] split_on(s, sep)[i]).contains(
            sep,
        ),
    decreases s.len(),
{
    let pieces = split_on(s, sep);
    if s.len() == 0 {
        assert(rejoined(pieces, sep) =~= s);
    } else {
        let before = split_on(s.drop_last(), sep);
        lemma_split_rejoins(s.drop_last(), sep);
        if s.last() == sep {
            assert(pieces.drop_last() =~= before);
            assert(rejoined(pieces, sep) =~= s);
        } else {
            let last = before.last().push(s.last());
            assert(!last.contains(sep)) by {
                assert forall|i: int| 0 <= i < last.len() implies last[i] != sep by {
                    if i < before.last().len() {
                        assert(before[before.len() - 1].contains(before.last()[i]));
                    }
                }
            }
            assert forall|i: int| 0 <= i < pieces.len() implies !(#[trigger] pieces[i]).contains(
                sep,
            ) by {
                if i < before.len() - 1 {
                    assert(pieces[i] == before[i]);
                }
            }
            if pieces.len() > 1 {
                assert(pieces.drop_last() =~= before.drop_last());
            }
            assert(rejoined(pieces, sep) =~= rejoined(before, sep).push(s.last()));
            assert(rejoined(pieces, sep) =~= s);
        }
    }
}

/// The parts before and after the first separator make up the text, and the first
/// of them holds no separator; a text that is not cut holds none.
pub proof fn lemma_cut(s: Seq<char>, sep: char)
    ensures
        match cut_at(s, sep) {
            Some((a, b)) => s == a + seq![sep] + b && !a.contains(sep),
            None => !s.contains(sep),
        },
{
    s.index_of_first_ensures(sep);
    if let Some(i) = s.index_of_first(sep) {
        assert(s =~= s.take(i) + seq![sep] + s.skip(i + 1));
    }
}

/// A text is cut at its first separator, whatever stands on either side.
pub proof fn lemma_cut_at_first(a: Seq<char>, sep: char, b: Seq<char>)
    requires
        !a.contains(sep),
    ensures
        cut_at(a + seq![sep] + b, sep) == Some((a, b)),
{
    let s = a + seq![sep] + b;
    s.index_of_first_ensures(sep);
    assert(s[a.len() as int] == sep);
    assert(s.contains(s[a.len() as int]));
    let i = s.index_of_first(sep)->0;
    if i < a.len() {
        assert(a.contains(a[i]));
        assert(s[i] == a[i]);
    }
    assert(i == a.len());
    assert(s.take(i) =~= a);
    assert(s.skip(i + 1) =~= b);
}

/// What follows a prefix is the rest of the text, and a text without the prefix has
/// none.
pub proof fn lemma_after_prefix(prefix: Seq<char>, rest: Seq<char>)
    ensures
        after_prefix(prefix + rest, prefix) == Some(rest),
        after_prefix(rest, prefix) matches Some(r) ==> rest == prefix + r,
{
    let s = prefix + rest;
    assert(s.subrange(0, prefix.len() as int) =~= prefix);
    assert(s.skip(prefix.len() as int) =~= rest);
    if after_prefix(rest, prefix) is Some {
        assert(rest =~= prefix + rest.skip(prefix.len() as int));
    }
}

/// Whether all characters of a text are white space.
pub open spec fn blank(s: Seq<char>) -> bool {
    forall|i: int| 0 <= i < s.len() ==> white_space(#[trigger] s[i])
}

proof fn lemma_trim_start_blank(before: Seq<char>, s: Seq<char>)
    requires
        blank(before),
        s.len() == 0 || !white_space(s[0]),
    ensures
        trim_start(before + s) == s,
    decreases before.len(),
{
    let whole = before + s;
    if before.len() == 0 {
        assert(whole =~= s);
    } else {
        assert(white_space(before[0]));
        assert(whole[0] == before[0]);
        assert(whole.drop_first() =~= before.drop_first() + s);
        assert forall|i: int| 0 <= i < before.drop_first().len() implies white_space(
            #[trigger] before.drop_first()[i],
        ) by {
            assert(white_space(before[i + 1]));
        }
        lemma_trim_start_blank(before.drop_first(), s);
    }
}

proof fn lemma_trim_end_blank(s: Seq<char>, after: Seq<char>)
    requires
        blank(after),
        s.len() == 0 || !white_space(s.last()),
    ensures
        trim_end(s + after) == s,
    decreases after.len(),
{
    let whole = s + after;
    if after.len() == 0 {
        assert(whole =~= s);
    } else {
        assert(white_space(after[after.len() - 1]));
        assert(whole.last() == after.last());
        assert(whole.drop_last() =~= s + after.drop_last());
        assert forall|i: int| 0 <= i < after.drop_last().len() implies white_space(
            #[trigger] after.drop_last()[i],
        ) by {
            assert(white_space(after[i]));
        }
        lemma_trim_end_blank(s, after.drop_last());
    }
}

/// Trimming takes off exactly the white space around a text.
pub proof fn lemma_trimmed(before: Seq<char>, s: Seq<char>, after: Seq<char>)
    requires
        blank(before),
        blank(after),
        s.len() > 0 ==> !white_space(s[0]) && !white_space(s.last()),
    ensures
        trimmed(before + s + after) == s,
{
    if s.len() > 0 {
        let rest = s + after;
        assert(before + s + after =~= before + rest);
        assert(rest[0] == s[0]);
        lemma_trim_start_blank(before, rest);
        lemma_trim_end_blank(s, after);
    } else {
        let whole = before + s + after;
        assert(blank(whole)) by {
            assert forall|i: int| 0 <= i < whole.len() implies white_space(#[trigger] whole[i]) by {
                if i < before.len() {
                    assert(white_space(before[i]));
                } else {
                    assert(white_space(after[i - before.len()]));
                }
            }
        }
        assert(whole + Seq::<char>::empty() =~= whole);
        lemma_trim_start_blank(whole, Seq::empty());
        assert(s =~= Seq::empty());
    }
}

/// A number written in decimal is read as that number, provided that it is not too
/// large.
pub proof fn lemma_decimal_read_back(n: nat, max: nat)
    ensures
        n <= max ==> unsigned_number(decimal(n), max) == Some(n),
        n > max ==> unsigned_number(decimal(n), max) is None,
        n <= max ==> unsigned_number(seq!['+'] + decimal(n), max) == Some(n),
{
    lemma_decimal_value(n);
    let digits = decimal(n);
    assert(is_digit(digits[0]));
    assert(number_digits(digits) == digits);
    let signed = seq!['+'] + digits;
    assert(signed.skip(1) =~= digits);
}

/// The digits of a number in decimal stand for the number.
pub proof fn lemma_decimal_value(n: nat)
    ensures
        decimal(n).len() > 0,
        digits_value(decimal(n)) == n,
        forall|i: int| 0 <= i < decimal(n).len() ==> is_digit(#[trigger] decimal(n)[i]),
    decreases n,
{
    let d = decimal(n);
    if n < 10 {
        assert(d.drop_last() =~= Seq::empty());
        assert(d[0] == digit_char(n));
        assert(digits_value(Seq::<char>::empty()) == 0);
    } else {
        lemma_decimal_value(n / 10);
        assert(d.drop_last() =~= decimal(n / 10));
        assert(d.last() == digit_char(n % 10));
        assert forall|i: int| 0 <= i < d.len() implies is_digit(#[trigger] d[i]) by {
            if i < decimal(n / 10).len() {
                assert(d[i] == decimal(n / 10)[i]);
            }
        }
    }
}

/// Taking a character out of a text takes it out of each part, leaves nothing of it,
/// and leaves a text without it as it is.
pub proof fn lemma_without(a: Seq<char>, b: Seq<char>, gone: char)
    ensures
        without(a + b, gone) == without(a, gone) + without(b, gone),
        !without(a, gone).contains(gone),
        !a.contains(gone) ==> without(a, gone) == a,
    decreases a.len() + b.len(),
{
    if b.len() > 0 {
        lemma_without(a, b.drop_last(), gone);
        assert((a + b).drop_last() =~= a + b.drop_last());
        assert((a + b).last() == b.last());
        assert(without(a + b, gone) =~= without(a, gone) + without(b, gone));
    } else {
        assert(a + b =~= a);
        assert(without(a, gone) + without(b, gone) =~= without(a, gone));
        if a.len() > 0 {
            let front = a.drop_last();
            lemma_without(front, b, gone);
            let w = without(a, gone);
            assert forall|i: int| 0 <= i < w.len() implies w[i] != gone by {
                if i < without(front, gone).len() {
                    assert(without(front, gone).contains(without(front, gone)[i]));
                }
            }
            if !a.contains(gone) {
                assert(a.contains(a[a.len() - 1]));
                assert forall|i: int| 0 <= i < front.len() implies front[i] != gone by {
                    assert(a.contains(a[i]));
                }
                assert(front.push(a.last()) =~= a);
            }
        }
    }
}

/// Every letter has the small letter at the same place of the alphabet as its lower
/// case; whatever is no capital letter is its own.
pub proof fn lemma_ascii_lower(i: int, c: char)
    requires
        0 <= i < 26,
    ensures
        ascii_lower((65 + i) as char) as int == 97 + i,
        ascii_lower((97 + i) as char) as int == 97 + i,
        !(65 <= c as int <= 90) ==> ascii_lower(c) == c,
{
}

/// Whether all characters of a text are hexadecimal digits.
pub open spec fn hexadecimal(s: Seq<char>) -> bool {
    forall|i: int| 0 <= i < s.len() ==> hex_digit(#[trigger] s[i])
}

/// Five groups of hexadecimal digits, of the lengths that a GUID has, with hyphens
/// between them have the form of a GUID.
pub proof fn lemma_guid_groups(
    a: Seq<char>,
    b: Seq<char>,
    c: Seq<char>,
    d: Seq<char>,
    e: Seq<char>,
)
    requires
        a.len() == 8 && b.len() == 4 && c.len() == 4 && d.len() == 4 && e.len() == 12,
        hexadecimal(a) && hexadecimal(b) && hexadecimal(c) && hexadecimal(d) && hexadecimal(e),
    ensures
        guid(a + seq!['-'] + b + seq!['-'] + c + seq!['-'] + d + seq!['-'] + e),
{
    let s = a + seq!['-'] + b + seq!['-'] + c + seq!['-'] + d + seq!['-'] + e;
    assert forall|i: int| 0 <= i < s.len() implies hex_digit(#[trigger] s[i]) || s[i] == '-' by {
        if i < 8 {
            assert(s[i] == a[i]);
        } else if 8 < i < 13 {
            assert(s[i] == b[i - 9]);
        } else if 13 < i < 18 {
            assert(s[i] == c[i - 14]);
        } else if 18 < i < 23 {
            assert(s[i] == d[i - 19]);
        } else if 23 < i {
            assert(s[i] == e[i - 24]);
        }
    }
}

/// The hexadecimal digits: the figures, and the first six letters in either case.
pub proof fn lemma_hex_digits(i: int, c: char)
    ensures
        0 <= i < 10 ==> hex_digit((48 + i) as char),
        0 <= i < 6 ==> hex_digit((97 + i) as char) && hex_digit((65 + i) as char),
        hex_digit(c) ==> c == '0' || c == '1' || c == '2' || c == '3' || c == '4' || c == '5' || c
            == '6' || c == '7' || c == '8' || c == '9' || c == 'a' || c == 'b' || c == 'c' || c
            == 'd' || c == 'e' || c == 'f' || c == 'A' || c == 'B' || c == 'C' || c == 'D' || c
            == 'E' || c == 'F',
{
}

/// Pieces without separators, put together with separators between them, are split
/// into those pieces again.
pub proof fn lemma_rejoined_splits(pieces: Seq<Seq<char>>, sep: char)
    requires
        pieces.len() > 0,
        forall|i: int| 0 <= i < pieces.len() ==> !(#[trigger] pieces[i]).contains(sep),
    ensures
        split_on(rejoined(pieces, sep), sep) == pieces,
    decreases pieces.len(),
{
    if pieces.len() == 1 {
        assert(!pieces[0].contains(sep));
        lemma_split_single(pieces[0], sep);
        assert(pieces =~= seq![pieces[0]]);
    } else {
        let front = pieces.drop_last();
        assert forall|i: int| 0 <= i < front.len() implies !(#[trigger] front[i]).contains(sep) by {
            assert(!pieces[i].contains(sep));
        }
        lemma_rejoined_splits(front, sep);
        assert(!pieces[pieces.len() - 1].contains(sep));
        lemma_split_last(rejoined(front, sep), sep, pieces.last());
        assert(pieces =~= front.push(pieces.last()));
    }
}

/// The digits `0` to `9` stand for the numbers from 0 to 9, and each further digit
/// makes a number ten times as large and adds itself.
pub proof fn lemma_digits_value(s: Seq<char>, d: nat)
    requires
        d < 10,
    ensures
        digit_char(d) as int == '0' as int + d,
        digits_value(s.push(digit_char(d))) == 10 * digits_value(s) + d,
        digits_value(seq![digit_char(d)]) == d,
        is_digit(digit_char(d)),
{
    assert(s.push(digit_char(d)).drop_last() =~= s);
    assert(seq![digit_char(d)].drop_last() =~= Seq::<char>::empty());
    assert(digits_value(Seq::<char>::empty()) == 0);
}

/// A text with anything but digits in it, a plus sign in front aside, is no number;
/// neither is one without digits.
pub proof fn lemma_number_refused(s: Seq<char>, i: int, max: nat)
    ensures
        unsigned_number(Seq::empty(), max) is None,
        unsigned_number(seq!['+'], max) is None,
        0 <= i < s.len() && !(48 <= s[i] as u32 <= 57) && !(i == 0 && s[0] == '+')
            ==> unsigned_number(s, max) is None,
{
    if 0 <= i < s.len() && !(48 <= s[i] as u32 <= 57) && !(i == 0 && s[0] == '+') {
        let digits = number_digits(s);
        if s[0] == '+' {
            assert(!is_digit(digits[i - 1]));
        } else {
            assert(!is_digit(digits[i]));
        }
    }
}

/// Whether two characters are the same, or the two cases of one ASCII letter.
pub open spec fn same_letter(x: char, y: char) -> bool {
    ||| x == y
    ||| 97 <= x as u32 <= 122 && y as u32 + 32 == x as u32
    ||| 97 <= y as u32 <= 122 && x as u32 + 32 == y as u32
}

proof fn lemma_same_letter(x: char, y: char)
    ensures
        same_letter(x, y) <==> ascii_lower(x) == ascii_lower(y),
{
    let u = ascii_lower(x) as u32;
    let v = ascii_lower(y) as u32;
    assert(ascii_lower(x) == ascii_lower(y) <==> u == v);
}

/// Two texts are the same but for the case of letters if and only if they are, place
/// by place.
pub proof fn lemma_same_but_for_case(a: Seq<char>, b: Seq<char>)
    ensures
        same_ignoring_ascii_case(a, b) <==> a.len() == b.len() && forall|i: int|
            0 <= i < a.len() ==> #[trigger] same_letter(a[i], b[i]),
{
    if same_ignoring_ascii_case(a, b) {
        assert forall|i: int| 0 <= i < a.len() implies #[trigger] same_letter(a[i], b[i]) by {
            assert(ascii_lower(a[i]) == ascii_lower(b[i]));
            lemma_same_letter(a[i], b[i]);
        }
    }
    if a.len() == b.len() && forall|i: int|
        0 <= i < a.len() ==> #[trigger] same_letter(a[i], b[i]) {
        assert forall|i: int| 0 <= i < a.len() implies ascii_lower(#[trigger] a[i]) == ascii_lower(
            b[i],
        ) by {
            assert(same_letter(a[i], b[i]));
            lemma_same_letter(a[i], b[i]);
        }
    }
}

/// In dictionary order the first difference decides, and a text comes before its
/// continuations.
pub proof fn lemma_first_difference_decides(
    common: Seq<char>,
    x: char,
    s: Seq<char>,
    y: char,
    t: Seq<char>,
)
    ensures
        x != y ==> (precedes(common + seq![x] + s, common + seq![y] + t) <==> (x as int) < (
        y as int)),
        precedes(common, common + seq![x] + s),
        !precedes(common + seq![x] + s, common),
        !precedes(common, common),
    decreases common.len(),
{
    let a = common + seq![x] + s;
    let b = common + seq![y] + t;
    if common.len() > 0 {
        let rest = common.skip(1);
        lemma_first_difference_decides(rest, x, s, y, t);
        assert(a.skip(1) =~= rest + seq![x] + s);
        assert(b.skip(1) =~= rest + seq![y] + t);
    }
}

/// White space is what Unicode lists as such: tab to carriage return, the space, the next
/// line, the no-break space, the Ogham space mark, the typographic spaces, the line and
/// paragraph separators, the two narrower ones and the ideographic space.
pub proof fn lemma_white_space(c: char)
    ensures
        white_space(c) <==> seq![
            '\u{9}', '\u{a}', '\u{b}', '\u{c}', '\u{d}', '\u{20}', '\u{85}', '\u{a0}',
            '\u{1680}', '\u{2000}', '\u{2001}', '\u{2002}', '\u{2003}', '\u{2004}', '\u{2005}',
            '\u{2006}', '\u{2007}', '\u{2008}', '\u{2009}', '\u{200a}', '\u{2028}', '\u{2029}',
            '\u{202f}', '\u{205f}', '\u{3000}',
        ].contains(c),
{
    let all = seq![
        '\u{9}', '\u{a}', '\u{b}', '\u{c}', '\u{d}', '\u{20}', '\u{85}', '\u{a0}',
        '\u{1680}', '\u{2000}', '\u{2001}', '\u{2002}', '\u{2003}', '\u{2004}', '\u{2005}',
        '\u{2006}', '\u{2007}', '\u{2008}', '\u{2009}', '\u{200a}', '\u{2028}', '\u{2029}',
        '\u{202f}', '\u{205f}', '\u{3000}',
    ];
    if white_space(c) {
        assert(all[0] as u32 == 9);
        assert(all[1] as u32 == 10);
        assert(all[2] as u32 == 11);
        assert(all[3] as u32 == 12);
        assert(all[4] as u32 == 13);
        assert(all[5] as u32 == 32);
        assert(all[6] as u32 == 133);
        assert(all[7] as u32 == 160);
        assert(all[8] as u32 == 5760);
        assert(all[9] as u32 == 8192);
        assert(all[10] as u32 == 8193);
        assert(all[11] as u32 == 8194);
        assert(all[12] as u32 == 8195);
        assert(all[13] as u32 == 8196);
        assert(all[14] as u32 == 8197);
        assert(all[15] as u32 == 8198);
        assert(all[16] as u32 == 8199);
        assert(all[17] as u32 == 8200);
        assert(all[18] as u32 == 8201);
        assert(all[19] as u32 == 8202);
        assert(all[20] as u32 == 8232);
        assert(all[21] as u32 == 8233);
        assert(all[22] as u32 == 8239);
        assert(all[23] as u32 == 8287);
        assert(all[24] as u32 == 12288);
        let u = c as u32;
        let k = if u <= 0xd {
            u - 0x9
        } else if u == 0x20 {
            5
        } else if u == 0x85 {
            6
        } else if u == 0xa0 {
            7
        } else if u == 0x1680 {
            8
        } else if u <= 0x200a {
            u - 0x2000 + 9
        } else if u == 0x2028 {
            20
        } else if u == 0x2029 {
            21
        } else if u == 0x202f {
            22
        } else if u == 0x205f {
            23
        } else {
            24
        };
        assert(all[k] == c);
    }
}

/// Every sequence of digits is read as the number that it stands for, zeros in front
/// included, with a plus sign in front or without; a number that is too large is refused.
pub proof fn lemma_number_read(digits: Seq<char>, max: nat)
    requires
        digits.len() > 0,
        forall|i: int| 0 <= i < digits.len() ==> 48 <= (#[trigger] digits[i]) as u32 <= 57,
    ensures
        digits_value(digits) <= max ==> unsigned_number(digits, max) == Some(digits_value(digits))
            && unsigned_number(seq!['+'] + digits, max) == Some(digits_value(digits)),
        digits_value(digits) > max ==> unsigned_number(digits, max) is None && unsigned_number(
            seq!['+'] + digits,
            max,
        ) is None,
{
    assert(48 <= digits[0] as u32 <= 57);
    assert(number_digits(digits) == digits);
    let signed = seq!['+'] + digits;
    assert(signed.skip(1) =~= digits);
}

/// What has the form of a GUID is 36 characters long, with hyphens behind the eighth digit
/// and behind each of the three groups of four that follow; nothing but hexadecimal digits
/// and hyphens is in it.
pub proof fn lemma_guid_form(s: Seq<char>, i: int)
    requires
        guid(s),
    ensures
        s.len() == 8 + 1 + 4 + 1 + 4 + 1 + 4 + 1 + 12,
        s.subrange(8, 9) == seq!['-'],
        s.subrange(13, 14) == seq!['-'],
        s.subrange(18, 19) == seq!['-'],
        s.subrange(23, 24) == seq!['-'],
        0 <= i < s.len() ==> s[i] == '-' || hex_digit(s[i]),
{
    assert(s.subrange(8, 9) =~= seq!['-']);
    assert(s.subrange(13, 14) =~= seq!['-']);
    assert(s.subrange(18, 19) =~= seq!['-']);
    assert(s.subrange(23, 24) =~= seq!['-']);
}

} // verus!
