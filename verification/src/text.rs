//! Text: decimal numbers, quoting and the order of strings.

use vstd::prelude::*;
use vstd::string::*;
use vstd::utf8::*;

verus! {

/// `String::push` appends one character to the end of the string.
pub assume_specification[ String::push ](s: &mut String, c: char)
    ensures
        final(s)@ == old(s)@.push(c),
;

/// The character of a decimal digit.
pub open spec fn digit_char(d: nat) -> char {
    (48 + d) as char
}

/// A natural number in decimal, without leading zeros.
pub open spec fn decimal(n: nat) -> Seq<char>
    decreases n,
{
    if n < 10 {
        seq![digit_char(n)]
    } else {
        decimal(n / 10).push(digit_char(n % 10))
    }
}

/// An integer in decimal, with a minus sign where it is negative.
pub open spec fn signed_decimal(n: int) -> Seq<char> {
    if n < 0 {
        seq!['-'] + decimal((-n) as nat)
    } else {
        decimal(n as nat)
    }
}

fn digit(d: u8) -> (c: char)
    requires
        d < 10,
    ensures
        c == digit_char(d as nat),
{
    (48 + d) as char
}

/// Append `n` in decimal.
pub fn push_decimal(out: &mut String, n: u128)
    ensures
        final(out)@ == old(out)@ + decimal(n as nat),
    decreases n,
{
    if n >= 10 {
        push_decimal(out, n / 10);
    }
    out.push(digit((n % 10) as u8));
}

/// Append `n` in decimal, with a minus sign where it is negative.
pub fn push_signed_decimal(out: &mut String, n: i64)
    ensures
        final(out)@ == old(out)@ + signed_decimal(n as int),
{
    if n < 0 {
        out.push('-');
        push_decimal(out, (-(n as i128)) as u128);
    } else {
        push_decimal(out, n as u128);
    }
}

/// The character of a hexadecimal digit, in lower case.
pub open spec fn hex_char(d: nat) -> char {
    if d < 10 {
        (48 + d) as char
    } else {
        (87 + d) as char
    }
}

/// The `n` low hexadecimal digits of `v`, in lower case.
pub open spec fn fixed_hex(v: nat, n: nat) -> Seq<char>
    decreases n,
{
    if n == 0 {
        Seq::empty()
    } else {
        fixed_hex(v / 16, (n - 1) as nat).push(hex_char(v % 16))
    }
}

/// Append the `n` low hexadecimal digits of `v`.
pub fn push_hex(out: &mut String, v: u64, n: u8)
    ensures
        final(out)@ == old(out)@ + fixed_hex(v as nat, n as nat),
    decreases n,
{
    if n > 0 {
        push_hex(out, v / 16, n - 1);
        let d: u8 = (v % 16) as u8;
        if d < 10 {
            out.push((48 + d) as char);
        } else {
            out.push((87 + d) as char);
        }
    }
}

/// What `{:?}` prints for a string: the text between double quotes, with
/// quotes, backslashes and unprintable characters escaped.
pub uninterp spec fn debug_quoted(s: Seq<char>) -> Seq<char>;

/// The standard library's `Debug` form of a string, by `format!("{:?}")`.
/// Nothing is claimed of it beyond that it depends on the string alone.
#[verifier::external_body]
pub(crate) fn quoted(s: &str) -> (r: String)
    ensures
        r@ == debug_quoted(s@),
{
    format!("{:?}", s)
}

/// The text of a byte string, by `String::from_utf8`: `Some` exactly where
/// the bytes are valid UTF-8, and then their decoding.
#[verifier::external_body]
pub(crate) fn string_from_utf8(bytes: Vec<u8>) -> (r: Option<String>)
    ensures
        match r {
            Some(s) => valid_utf8(bytes@) && s@ == decode_utf8(bytes@),
            None => !valid_utf8(bytes@),
        },
{
    String::from_utf8(bytes).ok()
}

/// Byte strings in dictionary order: a proper prefix comes first, else the
/// first differing byte decides.
pub open spec fn bytes_before(a: Seq<u8>, b: Seq<u8>) -> bool
    decreases a.len(),
{
    if b.len() == 0 {
        false
    } else if a.len() == 0 {
        true
    } else if a[0] != b[0] {
        a[0] < b[0]
    } else {
        bytes_before(a.drop_first(), b.drop_first())
    }
}

/// The order of strings: that of their UTF-8 bytes.
pub open spec fn text_before(a: Seq<char>, b: Seq<char>) -> bool {
    bytes_before(encode_utf8(a), encode_utf8(b))
}

/// Whether two strings hold the same text.
pub fn str_same(a: &str, b: &str) -> (r: bool)
    ensures
        r == (a@ == b@),
{
    let x = a.as_bytes();
    let y = b.as_bytes();
    proof {
        encode_utf8_decode_utf8(a@);
        encode_utf8_decode_utf8(b@);
    }
    if x.len() != y.len() {
        return false;
    }
    let mut i: usize = 0;
    while i < x.len()
        invariant
            i <= x@.len(),
            x@.len() == y@.len(),
            x@ == encode_utf8(a@),
            y@ == encode_utf8(b@),
            forall|j: int| 0 <= j < i ==> x@[j] == y@[j],
        decreases x@.len() - i,
    {
        if x[i] != y[i] {
            return false;
        }
        i = i + 1;
    }
    assert(x@ =~= y@);
    true
}

/// Whether `a` comes strictly before `b`.
pub fn str_before(a: &str, b: &str) -> (r: bool)
    ensures
        r == text_before(a@, b@),
{
    let x = a.as_bytes();
    let y = b.as_bytes();
    let mut i: usize = 0;
    proof {
        assert(x@.skip(0) =~= x@);
        assert(y@.skip(0) =~= y@);
    }
    while i < x.len() && i < y.len() && x[i] == y[i]
        invariant
            i <= x@.len(),
            i <= y@.len(),
            bytes_before(x@, y@) == bytes_before(x@.skip(i as int), y@.skip(i as int)),
        decreases x@.len() - i,
    {
        proof {
            assert(x@.skip(i as int).drop_first() =~= x@.skip(i + 1));
            assert(y@.skip(i as int).drop_first() =~= y@.skip(i + 1));
        }
        i = i + 1;
    }
    if i >= y.len() {
        false
    } else if i >= x.len() {
        true
    } else {
        x[i] < y[i]
    }
}

/// The characters of a string.
pub fn chars_of(s: &str) -> (v: Vec<char>)
    ensures
        v@ == s@,
{
    let mut v: Vec<char> = Vec::new();
    for c in it: s.chars()
        invariant
            it.seq() == s@,
            v@ == s@.take(it.index() as int),
    {
        v.push(c);
    }
    v
}

/// Whether `p` stands at place `i` of `s`.
pub open spec fn stands_at(s: Seq<char>, p: Seq<char>, i: int) -> bool {
    0 <= i && i + p.len() <= s.len() && s.subrange(i, i + p.len()) == p
}

/// Whether `p` stands anywhere in `s`.
pub open spec fn is_within(s: Seq<char>, p: Seq<char>) -> bool {
    exists|i: int| #[trigger] stands_at(s, p, i)
}

fn stands_here(s: &Vec<char>, p: &Vec<char>, at: usize) -> (r: bool)
    requires
        at + p@.len() <= s@.len(),
    ensures
        r == stands_at(s@, p@, at as int),
{
    let whole: usize = s.len();
    let mut i: usize = 0;
    while i < p.len()
        invariant
            i <= p@.len(),
            at + p@.len() <= s@.len() == whole,
            forall|j: int| 0 <= j < i ==> s@[at + j] == #[trigger] p@[j],
        decreases p@.len() - i,
    {
        if s[at + i] != p[i] {
            return false;
        }
        i = i + 1;
    }
    assert(s@.subrange(at as int, at + p@.len()) =~= p@);
    true
}

/// Whether `s` begins with `p`.
pub fn str_starts_with(s: &str, p: &str) -> (r: bool)
    ensures
        r == stands_at(s@, p@, 0),
{
    let text = chars_of(s);
    let part = chars_of(p);
    if part.len() > text.len() {
        return false;
    }
    stands_here(&text, &part, 0)
}

/// Whether `p` stands anywhere in `s`.
pub fn str_contains(s: &str, p: &str) -> (r: bool)
    ensures
        r == is_within(s@, p@),
{
    let text = chars_of(s);
    let part = chars_of(p);
    if part.len() == 0 {
        assert(s@.subrange(0, 0) =~= p@);
        assert(stands_at(s@, p@, 0));
        return true;
    }
    if part.len() > text.len() {
        return false;
    }
    let last: usize = text.len() - part.len();
    let mut i: usize = 0;
    while i <= last
        invariant
            text@ == s@,
            part@ == p@,
            last < usize::MAX,
            last + part@.len() == text@.len(),
            i <= last + 1,
            forall|j: int| 0 <= j < i ==> !#[trigger] stands_at(s@, p@, j),
        decreases last + 1 - i,
    {
        if stands_here(&text, &part, i) {
            return true;
        }
        i = i + 1;
    }
    assert forall|j: int| !#[trigger] stands_at(s@, p@, j) by {
    }
    false
}

proof fn lemma_bytes_total(a: Seq<u8>, b: Seq<u8>)
    ensures
        bytes_before(a, b) || bytes_before(b, a) || a == b,
        !(bytes_before(a, b) && bytes_before(b, a)),
        a == b ==> !bytes_before(a, b),
    decreases a.len(),
{
    if a.len() > 0 && b.len() > 0 && a[0] == b[0] {
        lemma_bytes_total(a.drop_first(), b.drop_first());
        if a.drop_first() == b.drop_first() {
            assert(a =~= seq![a[0]] + a.drop_first());
        }
    }
}

proof fn lemma_bytes_transitive(a: Seq<u8>, b: Seq<u8>, c: Seq<u8>)
    requires
        bytes_before(a, b),
        bytes_before(b, c),
    ensures
        bytes_before(a, c),
    decreases a.len(),
{
    if a.len() > 0 && a[0] == b[0] && b[0] == c[0] {
        lemma_bytes_transitive(a.drop_first(), b.drop_first(), c.drop_first());
    }
}

/// The order of strings is total and strict.
pub proof fn lemma_text_total(a: Seq<char>, b: Seq<char>)
    ensures
        text_before(a, b) || text_before(b, a) || a == b,
        !(text_before(a, b) && text_before(b, a)),
        a == b ==> !text_before(a, b),
{
    lemma_bytes_total(encode_utf8(a), encode_utf8(b));
    encode_utf8_decode_utf8(a);
    encode_utf8_decode_utf8(b);
}

/// The order of strings is transitive.
pub proof fn lemma_text_transitive(a: Seq<char>, b: Seq<char>, c: Seq<char>)
    requires
        text_before(a, b),
        text_before(b, c),
    ensures
        text_before(a, c),
{
    lemma_bytes_transitive(encode_utf8(a), encode_utf8(b), encode_utf8(c));
}

/// What a reader of decimal digits understands.
pub open spec fn decimal_value(s: Seq<char>) -> int
    decreases s.len(),
{
    if s.len() == 0 {
        0
    } else {
        10 * decimal_value(s.drop_last()) + (s.last() as int - '0' as int)
    }
}

/// A number reads back from its digits. They are digits only, and none is
/// wasted: the first is a zero in zero alone.
pub proof fn law_decimal_reads_back(n: nat, i: int)
    ensures
        decimal_value(decimal(n)) == n,
        decimal(n).len() > 0,
        0 <= i < decimal(n).len() ==> '0' as int <= decimal(n)[i] as int <= '9' as int,
        n > 0 ==> decimal(n)[0] != '0',
    decreases n,
{
    reveal_with_fuel(decimal_value, 2);
    let s = decimal(n);
    if n >= 10 {
        law_decimal_reads_back(n / 10, i);
        assert(s.drop_last() =~= decimal(n / 10));
        assert(s[0] == decimal(n / 10)[0]);
        if 0 <= i < s.len() - 1 {
            assert(s[i] == decimal(n / 10)[i]);
        }
    } else {
        assert(s.drop_last() =~= Seq::<char>::empty());
    }
}

/// A negative number is a minus sign and the digits of its size; a number that
/// is not negative has no sign.
pub proof fn law_only_negative_numbers_have_a_sign(n: int)
    ensures
        n < 0 ==> signed_decimal(n) == seq!['-'] + decimal((-n) as nat),
        n >= 0 ==> signed_decimal(n) == decimal(n as nat),
        signed_decimal(n)[0] == '-' <==> n < 0,
{
    if n >= 0 {
        law_decimal_reads_back(n as nat, 0);
    }
}

/// The value of a hexadecimal digit in lower case.
pub open spec fn hex_digit_value(c: char) -> int {
    if '0' as int <= c as int <= '9' as int {
        c as int - '0' as int
    } else {
        c as int - 'a' as int + 10
    }
}

/// What a reader of hexadecimal digits understands.
pub open spec fn hex_value_of(s: Seq<char>) -> int
    decreases s.len(),
{
    if s.len() == 0 {
        0
    } else {
        16 * hex_value_of(s.drop_last()) + hex_digit_value(s.last())
    }
}

/// Hexadecimal digits in the number asked for: they are digits in lower case,
/// and read back as the number where it fits in them.
pub proof fn law_hexadecimal_reads_back(v: nat, n: nat, i: int)
    ensures
        fixed_hex(v, n).len() == n,
        0 <= i < n ==> ('0' as int <= fixed_hex(v, n)[i] as int <= '9' as int || 'a' as int
            <= fixed_hex(v, n)[i] as int <= 'f' as int),
        v < vstd::arithmetic::power::pow(16, n) ==> hex_value_of(fixed_hex(v, n)) == v,
    decreases n,
{
    vstd::arithmetic::power::lemma_pow0(16);
    if n > 0 {
        let m = (n - 1) as nat;
        law_hexadecimal_reads_back(v / 16, m, i);
        assert(vstd::arithmetic::power::pow(16, n) == 16 * vstd::arithmetic::power::pow(16, m)) by {
            reveal(vstd::arithmetic::power::pow);
        }
        assert(fixed_hex(v, n).drop_last() =~= fixed_hex(v / 16, m));
        if 0 <= i < m {
            assert(fixed_hex(v, n)[i] == fixed_hex(v / 16, m)[i]);
        }
    }
}

/// Text stands at a place exactly where it is what follows the characters
/// before that place.
pub proof fn law_standing_at_a_place(s: Seq<char>, p: Seq<char>, head: Seq<char>, tail: Seq<char>)
    ensures
        s == head + p + tail ==> stands_at(s, p, head.len() as int) && is_within(s, p),
        p.is_prefix_of(s) <==> stands_at(s, p, 0),
        is_within(s, p) ==> exists|a: Seq<char>, b: Seq<char>| s == #[trigger] (a + p + b),
        forall|i: int| #[trigger] stands_at(s, p, i) ==> s == s.take(i) + p + s.skip(i + p.len()),
{
    if s == head + p + tail {
        assert(s.subrange(head.len() as int, (head.len() + p.len()) as int) =~= p);
        assert(stands_at(s, p, head.len() as int));
    }
    assert forall|i: int| #[trigger] stands_at(s, p, i) implies s == s.take(i) + p + s.skip(
        i + p.len(),
    ) by {
        assert(s =~= s.take(i) + s.subrange(i, i + p.len()) + s.skip(i + p.len()));
    }
    if is_within(s, p) {
        let i = choose|i: int| #[trigger] stands_at(s, p, i);
        assert(s == s.take(i) + p + s.skip(i + p.len()));
    }
}

/// What the questions about text answer: whether two texts are the same,
/// whether one begins with the other, whether one holds the other.
pub proof fn law_questions_about_text(
    s: &str,
    p: &str,
    same: bool,
    starts: bool,
    holds: bool,
    head: Seq<char>,
    tail: Seq<char>,
)
    requires
        call_ensures(str_same, (s, p), same),
        call_ensures(str_starts_with, (s, p), starts),
        call_ensures(str_contains, (s, p), holds),
    ensures
        same <==> s@ == p@,
        starts <==> p@.is_prefix_of(s@),
        s@ == head + p@ + tail ==> holds,
        holds ==> exists|a: Seq<char>, b: Seq<char>| s@ == #[trigger] (a + p@ + b),
{
    law_standing_at_a_place(s@, p@, head, tail);
}

/// Bytes are in dictionary order: where they part first the smaller byte
/// decides, and where one runs out the shorter comes first.
pub proof fn law_bytes_are_in_dictionary_order(a: Seq<u8>, b: Seq<u8>, k: int)
    requires
        0 <= k <= a.len(),
        k <= b.len(),
        a.take(k) == b.take(k),
    ensures
        k == b.len() ==> !bytes_before(a, b),
        k == a.len() && k < b.len() ==> bytes_before(a, b),
        k < a.len() && k < b.len() && a[k] < b[k] ==> bytes_before(a, b),
        k < a.len() && k < b.len() && a[k] > b[k] ==> !bytes_before(a, b),
    decreases k,
{
    if k > 0 {
        assert(a[0] == a.take(k)[0]);
        assert(b[0] == b.take(k)[0]);
        assert(a.drop_first().take(k - 1) =~= a.take(k).drop_first());
        assert(b.drop_first().take(k - 1) =~= b.take(k).drop_first());
        law_bytes_are_in_dictionary_order(a.drop_first(), b.drop_first(), k - 1);
    }
}

/// Text is in the dictionary order of its bytes.
pub proof fn law_text_is_in_dictionary_order(a: &str, b: &str, before: bool, k: int)
    requires
        call_ensures(str_before, (a, b), before),
        0 <= k <= encode_utf8(a@).len(),
        k <= encode_utf8(b@).len(),
        encode_utf8(a@).take(k) == encode_utf8(b@).take(k),
    ensures
        k == encode_utf8(b@).len() ==> !before,
        k == encode_utf8(a@).len() && k < encode_utf8(b@).len() ==> before,
        k < encode_utf8(a@).len() && k < encode_utf8(b@).len() && encode_utf8(a@)[k]
            != encode_utf8(b@)[k] ==> before == (encode_utf8(a@)[k] < encode_utf8(b@)[k]),
{
    law_bytes_are_in_dictionary_order(encode_utf8(a@), encode_utf8(b@), k);
}

/// What appending a number does: its digits go behind what is there.
pub proof fn law_what_appending_a_number_does(n: u128, m: i64, v: u64, digits: u8)
    ensures
        forall|out: &mut String| #[trigger]
            call_ensures(push_decimal, (out, n), ()) ==> {
                let (before, after) = (out@, (*final(out))@);
                after.take(before.len() as int) == before && decimal_value(
                    after.skip(before.len() as int),
                ) == n && after.skip(before.len() as int) == decimal(n as nat)
            },
        forall|out: &mut String| #[trigger]
            call_ensures(push_signed_decimal, (out, m), ()) ==> {
                let (before, after) = (out@, (*final(out))@);
                let said = after.skip(before.len() as int);
                &&& after.take(before.len() as int) == before
                &&& m >= 0 ==> decimal_value(said) == m
                &&& m < 0 ==> said[0] == '-' && decimal_value(said.drop_first()) == -m
            },
        forall|out: &mut String| #[trigger]
            call_ensures(push_hex, (out, v, digits), ()) ==> {
                let (before, after) = (out@, (*final(out))@);
                let said = after.skip(before.len() as int);
                &&& after.take(before.len() as int) == before
                &&& said.len() == digits
                &&& v < vstd::arithmetic::power::pow(16, digits as nat) ==> hex_value_of(said) == v
            },
{
    law_decimal_reads_back(n as nat, 0);
    law_hexadecimal_reads_back(v as nat, digits as nat, 0);
    if m >= 0 {
        law_decimal_reads_back(m as nat, 0);
    } else {
        law_decimal_reads_back((-m) as nat, 0);
        assert(signed_decimal(m as int).drop_first() =~= decimal((-m) as nat));
    }
    assert forall|s: Seq<char>, t: Seq<char>|
        #![trigger s + t]
        (s + t).take(s.len() as int) == s && (s + t).skip(s.len() as int) == t by {
        assert((s + t).take(s.len() as int) =~= s);
        assert((s + t).skip(s.len() as int) =~= t);
    }
}

} // verus!
