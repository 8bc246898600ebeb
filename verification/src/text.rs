//! Assembling terminal output: literal text and decimal numbers, as bytes.
use vstd::prelude::*;
use vstd::string::*;
use vstd::utf8::encode_utf8;

verus! {

/// The UTF-8 bytes of a text.
pub open spec fn utf8(text: &str) -> Seq<u8> {
    text.spec_bytes()
}

/// A text of ASCII characters has one byte for each.
pub proof fn lemma_ascii(text: &str)
    requires
        is_ascii(text),
    ensures
        utf8(text).len() == text@.len(),
        forall|i: int| 0 <= i < text@.len() ==> #[trigger] utf8(text)[i] == text@[i] as u8,
{
    is_ascii_spec_bytes(text);
}

/// The decimal digits of `n`.
pub open spec fn decimal(n: nat) -> Seq<u8>
    decreases n,
{
    if n < 10 {
        seq![(48 + n) as u8]
    } else {
        decimal(n / 10).push((48 + n % 10) as u8)
    }
}

/// The number that decimal digits stand for.
pub open spec fn number(digits: Seq<u8>) -> nat
    decreases digits.len(),
{
    if digits.len() == 0 {
        0
    } else {
        number(digits.drop_last()) * 10 + (digits.last() - 48) as nat
    }
}

/// The digits of a number stand for that number.
pub proof fn law_decimal_reads_back(n: nat)
    ensures
        number(decimal(n)) == n,
        decimal(n).len() > 0,
        forall|i: int| 0 <= i < decimal(n).len() ==> 48 <= #[trigger] decimal(n)[i] <= 57,
    decreases n,
{
    if n < 10 {
        reveal_with_fuel(number, 2);
    } else {
        law_decimal_reads_back(n / 10);
        assert(decimal(n).drop_last() =~= decimal(n / 10));
    }
}

/// Appends bytes.
pub fn push_bytes(out: &mut Vec<u8>, bytes: &[u8])
    ensures
        final(out)@ == old(out)@ + bytes@,
{
    let ghost before = out@;
    out.extend_from_slice(bytes);
    assert(out@ =~= before + bytes@);
}

/// Appends a text.
pub fn push_text(out: &mut Vec<u8>, text: &str)
    ensures
        final(out)@ == old(out)@ + utf8(text),
{
    push_bytes(out, text.as_bytes());
}

/// Appends a number in decimal.
pub fn push_decimal(out: &mut Vec<u8>, n: u64)
    ensures
        final(out)@ == old(out)@ + decimal(n as nat),
    decreases n,
{
    let ghost before = out@;
    if n >= 10 {
        push_decimal(out, n / 10);
    }
    out.push((48 + n % 10) as u8);
    assert(out@ =~= before + decimal(n as nat));
}

/// Three numbers with semicolons between them.
pub open spec fn three_numbers(a: nat, b: nat, c: nat) -> Seq<u8> {
    decimal(a) + utf8(";") + decimal(b) + utf8(";") + decimal(c)
}

/// Appends three numbers with semicolons between them.
pub fn push_three_numbers(out: &mut Vec<u8>, a: u64, b: u64, c: u64)
    ensures
        final(out)@ == old(out)@ + three_numbers(a as nat, b as nat, c as nat),
{
    let ghost before = out@;
    push_decimal(out, a);
    push_text(out, ";");
    push_decimal(out, b);
    push_text(out, ";");
    push_decimal(out, c);
    assert(out@ =~= before + three_numbers(a as nat, b as nat, c as nat));
}

/// A digit behind a number makes it ten times as large and adds the digit.
pub proof fn law_digits_follow_each_other(n: nat, d: nat)
    requires
        d < 10,
    ensures
        decimal(d) == seq![(48 + d) as u8],
        n > 0 ==> decimal(10 * n + d) == decimal(n).push((48 + d) as u8),
{
    if n > 0 {
        assert((10 * n + d) / 10 == n && (10 * n + d) % 10 == d);
    }
}

/// The UTF-8 of two texts together is that of the one and that of the other.
pub proof fn lemma_encode_joined(a: Seq<char>, b: Seq<char>)
    ensures
        encode_utf8(a + b) == encode_utf8(a) + encode_utf8(b),
    decreases a.len(),
{
    if a.len() == 0 {
        assert(a + b =~= b);
        assert(encode_utf8(a) + encode_utf8(b) =~= encode_utf8(b));
    } else {
        lemma_encode_joined(a.drop_first(), b);
        assert((a + b).drop_first() =~= a.drop_first() + b);
        assert((a + b)[0] == a[0]);
        assert(encode_utf8(a + b) =~= encode_utf8(a) + encode_utf8(b));
    }
}

} // verus!
