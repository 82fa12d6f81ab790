//! Text building blocks shared by the compiler stages: ASCII views of byte
//! strings, decimal and hexadecimal rendering, and string comparison.

use vstd::prelude::*;

verus! {

/// The characters denoted by a sequence of ASCII bytes.
pub open spec fn ascii_chars(bytes: Seq<u8>) -> Seq<char> {
    bytes.map_values(|b: u8| b as char)
}

/// Every byte is a 7-bit ASCII byte.
pub open spec fn is_ascii_bytes(bytes: Seq<u8>) -> bool {
    forall|i: int| 0 <= i < bytes.len() ==> bytes[i] < 128
}

/// Whether two string slices hold the same characters.
pub(crate) fn str_equal(a: &str, b: &str) -> (r: bool)
    ensures
        r == (a@ == b@),
{
    let x = String::from_str(a);
    let y = String::from_str(b);
    x == y
}

/// Builds a `String` from ASCII bytes with `String::from_utf8`. ASCII bytes are
/// valid UTF-8 in which every byte is one character, so the call succeeds and
/// the result holds exactly those characters.
#[verifier::external_body]
pub(crate) fn string_from_ascii(bytes: Vec<u8>) -> (s: String)
    requires
        is_ascii_bytes(bytes@),
    ensures
        s@ == ascii_chars(bytes@),
{
    String::from_utf8(bytes).unwrap()
}

/// An owned copy of a string slice.
pub fn text(s: &str) -> (r: String)
    ensures
        r@ == s@,
{
    String::from_str(s)
}

/// The decimal digit character for `d < 10`.
pub open spec fn digit_char(d: nat) -> char {
    if d == 0 { '0' }
    else if d == 1 { '1' }
    else if d == 2 { '2' }
    else if d == 3 { '3' }
    else if d == 4 { '4' }
    else if d == 5 { '5' }
    else if d == 6 { '6' }
    else if d == 7 { '7' }
    else if d == 8 { '8' }
    else { '9' }
}

/// The shortest decimal rendering of a natural number.
pub open spec fn decimal(n: nat) -> Seq<char>
    decreases n,
{
    if n < 10 {
        seq![digit_char(n)]
    } else {
        decimal(n / 10).push(digit_char(n % 10))
    }
}

/// The number a run of decimal digits spells.
spec fn digits_number(s: Seq<char>) -> int
    decreases s.len(),
{
    if s.len() == 0 {
        0
    } else {
        digits_number(s.drop_last()) * 10 + ((s.last() as int) - ('0' as int))
    }
}

proof fn lemma_digit_char_value(d: nat)
    requires
        d < 10,
    ensures
        (digit_char(d) as int) - ('0' as int) == d,
        '0' <= digit_char(d) <= '9',
{
}

proof fn lemma_decimal_reads_back(n: nat)
    ensures
        digits_number(decimal(n)) == n,
        decimal(n).len() >= 1,
        forall|i: int| 0 <= i < decimal(n).len() ==> '0' <= #[trigger] decimal(n)[i] <= '9',
    decreases n,
{
    lemma_digit_char_value(n % 10);
    if n < 10 {
        assert(decimal(n).drop_last() =~= Seq::<char>::empty());
        assert(n % 10 == n);
        assert(decimal(n).last() == digit_char(n));
        assert(digits_number(Seq::<char>::empty()) == 0);
    } else {
        lemma_decimal_reads_back(n / 10);
        let d = decimal(n / 10);
        assert(decimal(n).drop_last() =~= d);
        assert((n / 10) * 10 + n % 10 == n);
        assert(decimal(n).last() == digit_char(n % 10));
        assert(digits_number(decimal(n)) == digits_number(d) * 10 + ((digit_char(n % 10) as int) - ('0' as int)));
        assert(decimal(n) == d.push(digit_char(n % 10)));
        assert forall|i: int| 0 <= i < decimal(n).len() implies '0' <= #[trigger] decimal(n)[i] <= '9' by {
            if i < d.len() {
                assert(decimal(n)[i] == d[i]);
            }
        }
    }
}

/// The decimal renderings of different numbers differ, and are made of
/// digits only.
pub proof fn lemma_decimal_injective(a: nat, b: nat)
    ensures
        decimal(a) == decimal(b) ==> a == b,
        decimal(a).len() >= 1,
        forall|i: int| 0 <= i < decimal(a).len() ==> '0' <= #[trigger] decimal(a)[i] <= '9',
{
    lemma_decimal_reads_back(a);
    lemma_decimal_reads_back(b);
}

/// The decimal rendering of a signed integer, with a leading `-` when negative.
pub open spec fn signed_decimal(v: int) -> Seq<char> {
    if v < 0 {
        seq!['-'] + decimal((-v) as nat)
    } else {
        decimal(v as nat)
    }
}

/// The hexadecimal digit character for `d < 16` (lower case).
pub open spec fn hex_char(d: nat) -> char {
    if d < 10 {
        digit_char(d)
    } else if d == 10 { 'a' }
    else if d == 11 { 'b' }
    else if d == 12 { 'c' }
    else if d == 13 { 'd' }
    else if d == 14 { 'e' }
    else { 'f' }
}

/// A byte as exactly two lower-case hexadecimal digits.
pub open spec fn hex_byte(b: u8) -> Seq<char> {
    seq![hex_char((b / 16) as nat), hex_char((b % 16) as nat)]
}

/// Appends one decimal digit.
fn push_digit(out: &mut String, d: u64)
    requires
        d < 10,
    ensures
        final(out)@ == old(out)@.push(digit_char(d as nat)),
{
    proof {
        reveal_strlit("0");
        reveal_strlit("1");
        reveal_strlit("2");
        reveal_strlit("3");
        reveal_strlit("4");
        reveal_strlit("5");
        reveal_strlit("6");
        reveal_strlit("7");
        reveal_strlit("8");
        reveal_strlit("9");
    }
    let ghost before = out@;
    if d == 0 {
        out.append("0");
    } else if d == 1 {
        out.append("1");
    } else if d == 2 {
        out.append("2");
    } else if d == 3 {
        out.append("3");
    } else if d == 4 {
        out.append("4");
    } else if d == 5 {
        out.append("5");
    } else if d == 6 {
        out.append("6");
    } else if d == 7 {
        out.append("7");
    } else if d == 8 {
        out.append("8");
    } else {
        out.append("9");
    }
    assert(out@ =~= before.push(digit_char(d as nat)));
}

/// Appends the decimal rendering of `n`.
pub fn push_decimal(out: &mut String, n: u64)
    ensures
        final(out)@ == old(out)@ + decimal(n as nat),
    decreases n,
{
    if n < 10 {
        push_digit(out, n);
        assert(decimal(n as nat) =~= seq![digit_char(n as nat)]);
    } else {
        let ghost before = out@;
        push_decimal(out, n / 10);
        push_digit(out, n % 10);
        assert(out@ =~= before + decimal(n as nat));
    }
}

/// Appends the decimal rendering of a signed value.
pub fn push_signed_decimal(out: &mut String, v: i64)
    ensures
        final(out)@ == old(out)@ + signed_decimal(v as int),
{
    let ghost before = out@;
    if v < 0 {
        proof { reveal_strlit("-"); }
        out.append("-");
        let magnitude: u64 = if v == i64::MIN {
            9223372036854775808u64
        } else {
            (-v) as u64
        };
        push_decimal(out, magnitude);
        assert(out@ =~= before + signed_decimal(v as int));
    } else {
        push_decimal(out, v as u64);
    }
}

/// Appends one hexadecimal digit.
fn push_hex_digit(out: &mut String, d: u8)
    requires
        d < 16,
    ensures
        final(out)@ == old(out)@.push(hex_char(d as nat)),
{
    if d < 10 {
        push_digit(out, d as u64);
    } else {
        proof {
            reveal_strlit("a");
            reveal_strlit("b");
            reveal_strlit("c");
            reveal_strlit("d");
            reveal_strlit("e");
            reveal_strlit("f");
        }
        let ghost before = out@;
        if d == 10 {
            out.append("a");
        } else if d == 11 {
            out.append("b");
        } else if d == 12 {
            out.append("c");
        } else if d == 13 {
            out.append("d");
        } else if d == 14 {
            out.append("e");
        } else {
            out.append("f");
        }
        assert(out@ =~= before.push(hex_char(d as nat)));
    }
}

/// Appends a byte as two lower-case hexadecimal digits.
pub fn push_hex_byte(out: &mut String, b: u8)
    ensures
        final(out)@ == old(out)@ + hex_byte(b),
{
    let ghost before = out@;
    push_hex_digit(out, b / 16);
    push_hex_digit(out, b % 16);
    assert(out@ =~= before + hex_byte(b));
}

} // verus!
