//! Looking into texts: comparing, finding, splitting and reading numbers.
//!
//! Texts are looked at as sequences of characters.
use vstd::prelude::*;
use vstd::string::*;

verus! {

/// The place of the first `pattern` in `text` at or after place `from`.
pub open spec fn find_from(text: Seq<char>, pattern: Seq<char>, from: int) -> Option<int>
    decreases text.len() - from + 1,
{
    if from < 0 || from + pattern.len() > text.len() {
        None
    } else if text.subrange(from, from + pattern.len()) == pattern {
        Some(from)
    } else {
        find_from(text, pattern, from + 1)
    }
}

/// The place of the first `pattern` in `text`.
pub open spec fn find(text: Seq<char>, pattern: Seq<char>) -> Option<int> {
    find_from(text, pattern, 0)
}

/// `text` contains `pattern`.
pub open spec fn contains(text: Seq<char>, pattern: Seq<char>) -> bool {
    find(text, pattern) is Some
}

/// What is found is there, and nothing before it is.
pub proof fn law_find(text: Seq<char>, pattern: Seq<char>)
    ensures
        match find(text, pattern) {
            Some(i) => {
                &&& 0 <= i
                &&& i + pattern.len() <= text.len()
                &&& text.subrange(i, i + pattern.len()) == pattern
                &&& forall|j: int|
                    0 <= j < i ==> #[trigger] text.subrange(j, j + pattern.len()) != pattern
            },
            None => forall|j: int|
                0 <= j && j + pattern.len() <= text.len() ==> #[trigger] text.subrange(
                    j,
                    j + pattern.len(),
                ) != pattern,
        },
{
    lemma_find_from(text, pattern, 0);
}

proof fn lemma_find_from(text: Seq<char>, pattern: Seq<char>, from: int)
    requires
        0 <= from,
    ensures
        match find_from(text, pattern, from) {
            Some(i) => {
                &&& from <= i
                &&& i + pattern.len() <= text.len()
                &&& text.subrange(i, i + pattern.len()) == pattern
                &&& forall|j: int|
                    from <= j < i ==> #[trigger] text.subrange(j, j + pattern.len()) != pattern
            },
            None => forall|j: int|
                from <= j && j + pattern.len() <= text.len() ==> #[trigger] text.subrange(
                    j,
                    j + pattern.len(),
                ) != pattern,
        },
    decreases text.len() - from + 1,
{
    if from + pattern.len() > text.len() {
    } else if text.subrange(from, from + pattern.len()) == pattern {
    } else {
        lemma_find_from(text, pattern, from + 1);
    }
}

/// The parts of a text between its semicolons.
pub open spec fn fields(text: Seq<char>) -> Seq<Seq<char>>
    decreases text.len(),
{
    if text.len() == 0 {
        seq![text]
    } else {
        let before = fields(text.drop_last());
        if text.last() == ';' {
            before.push(Seq::empty())
        } else {
            before.update(before.len() - 1, before.last().push(text.last()))
        }
    }
}

/// A decimal digit.
pub open spec fn is_digit(c: char) -> bool {
    '0' <= c && c <= '9'
}

/// The number that decimal digits stand for.
pub open spec fn digits_value(digits: Seq<char>) -> nat
    decreases digits.len(),
{
    if digits.len() == 0 {
        0
    } else {
        digits_value(digits.drop_last()) * 10 + (digits.last() as int - '0' as int) as nat
    }
}

/// The digits of a number after its sign.
pub open spec fn unsigned_part(text: Seq<char>) -> Seq<char> {
    if text.len() > 0 && text[0] == '+' {
        text.skip(1)
    } else {
        text
    }
}

/// The number below `2^32` that a text stands for: decimal digits, at least one,
/// with or without a plus sign in front.
pub open spec fn parsed_u32(text: Seq<char>) -> Option<u32> {
    let digits = unsigned_part(text);
    if digits.len() > 0 && (forall|i: int| 0 <= i < digits.len() ==> is_digit(#[trigger] digits[i]))
        && digits_value(digits) <= u32::MAX {
        Some(digits_value(digits) as u32)
    } else {
        None
    }
}

/// A place with the pattern and none before it is where the pattern is found.
pub proof fn lemma_found(text: Seq<char>, pattern: Seq<char>, i: int)
    requires
        0 <= i,
        i + pattern.len() <= text.len(),
        text.subrange(i, i + pattern.len()) == pattern,
        forall|j: int| 0 <= j < i ==> #[trigger] text.subrange(j, j + pattern.len()) != pattern,
    ensures
        find(text, pattern) == Some(i),
{
    law_find(text, pattern);
    match find(text, pattern) {
        Some(k) => {
            if i < k {
                assert(text.subrange(i, i + pattern.len()) != pattern);
            } else if k < i {
                assert(text.subrange(k, k + pattern.len()) != pattern);
            }
        },
        None => {
            assert(text.subrange(i, i + pattern.len()) != pattern);
        },
    }
}

/// A text without semicolons is one field, and a semicolon begins another one.
pub proof fn lemma_fields(a: Seq<char>, b: Seq<char>)
    requires
        forall|i: int| 0 <= i < a.len() ==> #[trigger] a[i] != ';',
        forall|i: int| 0 <= i < b.len() ==> #[trigger] b[i] != ';',
    ensures
        fields(a) == seq![a],
        fields(a.push(';') + b) == seq![a, b],
    decreases a.len() + b.len(),
{
    if a.len() > 0 {
        let rest = a.drop_last();
        assert forall|i: int| 0 <= i < rest.len() implies #[trigger] rest[i] != ';' by {
            assert(rest[i] == a[i]);
        }
        assert(a.last() == a[a.len() - 1]);
        lemma_fields(rest, Seq::empty());
        assert(rest.push(a.last()) =~= a);
        assert(fields(a) =~= seq![a]);
    } else {
        assert(fields(a) =~= seq![a]);
    }
    let whole = a.push(';') + b;
    if b.len() > 0 {
        let rest = b.drop_last();
        assert forall|i: int| 0 <= i < rest.len() implies #[trigger] rest[i] != ';' by {
            assert(rest[i] == b[i]);
        }
        assert(b.last() == b[b.len() - 1]);
        lemma_fields(a, rest);
        assert(whole.drop_last() =~= a.push(';') + rest);
        assert(rest.push(b.last()) =~= b);
        assert(fields(whole) =~= seq![a, b]);
    } else {
        assert(b =~= Seq::empty());
        assert(whole =~= a.push(';'));
        assert(whole.drop_last() =~= a);
        assert(fields(whole) =~= seq![a, b]);
    }
}

/// The decimal digits of a number.
pub open spec fn digits(n: nat) -> Seq<char>
    decreases n,
{
    if n < 10 {
        seq![(48 + n) as char]
    } else {
        digits(n / 10).push((48 + n % 10) as char)
    }
}

/// The digits of a number are read back.
pub proof fn law_numbers_are_read_back(n: u32)
    ensures
        parsed_u32(digits(n as nat)) == Some(n),
{
    lemma_digits(n as nat);
    let text = digits(n as nat);
    assert(is_digit(text[0]));
    assert(unsigned_part(text) == text);
}

/// The digits of a number stand for that number.
pub proof fn lemma_digits(n: nat)
    ensures
        digits(n).len() > 0,
        digits_value(digits(n)) == n,
        forall|i: int| 0 <= i < digits(n).len() ==> is_digit(#[trigger] digits(n)[i]),
    decreases n,
{
    if n < 10 {
        reveal_with_fuel(digits_value, 2);
        assert(digits(n).drop_last() =~= Seq::empty());
    } else {
        lemma_digits(n / 10);
        assert(digits(n).drop_last() =~= digits(n / 10));
    }
}

/// The characters of a text.
pub fn chars_of(text: &str) -> (r: Vec<char>)
    ensures
        r@ == text@,
{
    let mut out: Vec<char> = Vec::new();
    for c in iter: text.chars()
        invariant
            out@ == iter.seq().take(iter.index()),
    {
        out.push(c);
        assert(out@ =~= iter.seq().take(iter.index() + 1));
    }
    out
}

/// Whether `pattern` stands at place `from` of `text`.
fn stands_at(text: &Vec<char>, pattern: &Vec<char>, from: usize) -> (r: bool)
    requires
        from + pattern@.len() <= text@.len(),
    ensures
        r == (text@.subrange(from as int, from + pattern@.len()) == pattern@),
{
    let ghost part = text@.subrange(from as int, from + pattern@.len());
    for i in 0..pattern.len()
        invariant
            from + pattern@.len() <= text.len(),
            part == text@.subrange(from as int, from + pattern@.len()),
            forall|k: int| 0 <= k < i ==> part[k] == #[trigger] pattern@[k],
    {
        if text[from + i] != pattern[i] {
            assert(part[i as int] != pattern@[i as int]);
            return false;
        }
    }
    assert(part =~= pattern@);
    true
}

/// Finds the first `pattern` at or after place `from`.
pub fn find_pattern(text: &Vec<char>, pattern: &Vec<char>, from: usize) -> (r: Option<usize>)
    ensures
        match r {
            Some(i) => find_from(text@, pattern@, from as int) == Some(i as int) && from <= i && i
                + pattern@.len() <= text.len(),
            None => find_from(text@, pattern@, from as int) is None,
        },
{
    let mut i: usize = from;
    while i <= text.len() && pattern.len() <= text.len() - i
        invariant
            from <= i,
            find_from(text@, pattern@, from as int) == find_from(text@, pattern@, i as int),
        decreases text@.len() + 1 - i,
    {
        if stands_at(text, pattern, i) {
            return Some(i);
        }
        if i == text.len() {
            assert(find_from(text@, pattern@, i + 1) is None);
            return None;
        }
        i = i + 1;
    }
    None
}

/// Whether two texts are the same.
pub fn same_text(a: &str, b: &str) -> (r: bool)
    ensures
        r == (a@ == b@),
{
    let x: Vec<char> = chars_of(a);
    let y: Vec<char> = chars_of(b);
    if x.len() != y.len() {
        return false;
    }
    assert(x@.subrange(0, y@.len() as int) =~= x@);
    stands_at(&x, &y, 0)
}

/// Whether a text contains a pattern.
pub fn contains_text(text: &str, pattern: &str) -> (r: bool)
    ensures
        r == contains(text@, pattern@),
{
    find_pattern(&chars_of(text), &chars_of(pattern), 0).is_some()
}

/// The characters at the places `from..to`.
pub fn cut(text: &Vec<char>, from: usize, to: usize) -> (r: Vec<char>)
    requires
        from <= to <= text@.len(),
    ensures
        r@ == text@.subrange(from as int, to as int),
{
    let mut out: Vec<char> = Vec::new();
    for i in from..to
        invariant
            from <= i <= to <= text@.len(),
            out@ == text@.subrange(from as int, i as int),
    {
        out.push(text[i]);
        assert(out@ =~= text@.subrange(from as int, i + 1));
    }
    out
}

/// Splits a text at its semicolons.
pub fn split_fields(text: &Vec<char>) -> (r: Vec<Vec<char>>)
    ensures
        r@.len() == fields(text@).len(),
        r@.len() > 0,
        forall|i: int| 0 <= i < r@.len() ==> (#[trigger] r@[i])@ == fields(text@)[i],
{
    let mut out: Vec<Vec<char>> = Vec::new();
    let mut field: Vec<char> = Vec::new();
    assert(text@.take(0) =~= Seq::empty());
    for i in 0..text.len()
        invariant
            out@.len() + 1 == fields(text@.take(i as int)).len(),
            forall|k: int|
                0 <= k < out@.len() ==> (#[trigger] out@[k])@ == fields(text@.take(i as int))[k],
            field@ == fields(text@.take(i as int)).last(),
    {
        let ghost part = text@.take(i as int + 1);
        assert(part.drop_last() =~= text@.take(i as int));
        assert(part.last() == text@[i as int]);
        if text[i] == ';' {
            out.push(field);
            field = Vec::new();
        } else {
            field.push(text[i]);
        }
    }
    assert(text@.take(text@.len() as int) =~= text@);
    out.push(field);
    out
}

/// More digits make no smaller number.
proof fn lemma_digits_grow(digits: Seq<char>, n: int)
    requires
        0 <= n <= digits.len(),
    ensures
        digits_value(digits.take(n)) <= digits_value(digits),
    decreases digits.len(),
{
    if n == digits.len() {
        assert(digits.take(n) =~= digits);
    } else {
        lemma_digits_grow(digits.drop_last(), n);
        assert(digits.drop_last().take(n) =~= digits.take(n));
    }
}

/// Reads a number below `2^32`.
pub fn parse_u32(text: &Vec<char>) -> (r: Option<u32>)
    ensures
        r == parsed_u32(text@),
{
    let start: usize = if text.len() > 0 && text[0] == '+' {
        1
    } else {
        0
    };
    let ghost digits = unsigned_part(text@);
    assert(digits =~= text@.skip(start as int));
    if text.len() == start {
        return None;
    }
    let mut value: u64 = 0;
    for i in start..text.len()
        invariant
            start <= i <= text@.len(),
            digits == text@.skip(start as int),
            digits == unsigned_part(text@),
            value <= u32::MAX,
            value == digits_value(digits.take(i - start)),
            forall|k: int| 0 <= k < i - start ==> is_digit(#[trigger] digits[k]),
    {
        let c: char = text[i];
        assert(digits[i - start] == c);
        if c < '0' || c > '9' {
            return None;
        }
        proof {
            let part = digits.take(i - start + 1);
            assert(part.drop_last() =~= digits.take(i - start));
            lemma_digits_grow(digits, i - start + 1);
        }
        value = value * 10 + (c as u64 - '0' as u64);
        if value > u32::MAX as u64 {
            return None;
        }
    }
    assert(digits.take(digits.len() as int) =~= digits);
    Some(value as u32)
}

/// Some texts with semicolons between them.
pub open spec fn joined(parts: Seq<Seq<char>>) -> Seq<char>
    decreases parts.len(),
{
    if parts.len() == 0 {
        Seq::empty()
    } else if parts.len() == 1 {
        parts[0]
    } else {
        joined(parts.drop_last()).push(';') + parts.last()
    }
}

/// No text holds a semicolon.
pub open spec fn are_plain(parts: Seq<Seq<char>>) -> bool {
    forall|k: int, i: int|
        #![trigger parts[k][i]]
        0 <= k < parts.len() && 0 <= i < parts[k].len() ==> parts[k][i] != ';'
}

/// A semicolon begins another field, to which all belongs that follows it.
proof fn lemma_fields_push(a: Seq<char>, b: Seq<char>)
    requires
        forall|i: int| 0 <= i < b.len() ==> #[trigger] b[i] != ';',
    ensures
        fields(a.push(';') + b) == fields(a).push(b),
    decreases b.len(),
{
    let whole = a.push(';') + b;
    if b.len() == 0 {
        assert(whole =~= a.push(';'));
        assert(whole.drop_last() =~= a);
        assert(b =~= Seq::empty());
    } else {
        let rest = b.drop_last();
        assert forall|i: int| 0 <= i < rest.len() implies #[trigger] rest[i] != ';' by {
            assert(rest[i] == b[i]);
        }
        lemma_fields_push(a, rest);
        assert(whole.drop_last() =~= a.push(';') + rest);
        assert(b.last() == b[b.len() - 1]);
        assert(rest.push(b.last()) =~= b);
        assert(fields(whole) =~= fields(a).push(b));
    }
}

/// Texts that are joined by semicolons are found again as fields, all of them and in
/// their order.
pub proof fn law_joined_fields_are_found(parts: Seq<Seq<char>>)
    requires
        parts.len() > 0,
        are_plain(parts),
    ensures
        fields(joined(parts)) == parts,
    decreases parts.len(),
{
    let last = parts.last();
    assert forall|i: int| 0 <= i < last.len() implies #[trigger] last[i] != ';' by {
        assert(parts[parts.len() - 1][i] != ';');
    }
    if parts.len() == 1 {
        lemma_fields(last, Seq::empty());
        assert(parts =~= seq![last]);
    } else {
        let rest = parts.drop_last();
        assert forall|k: int, i: int|
            #![trigger rest[k][i]]
            0 <= k < rest.len() && 0 <= i < rest[k].len() implies rest[k][i] != ';' by {
            assert(rest[k][i] == parts[k][i]);
        }
        law_joined_fields_are_found(rest);
        lemma_fields_push(joined(rest), last);
        assert(rest.push(last) =~= parts);
    }
}

/// A digit behind a number makes it ten times as large and adds the digit, as long
/// as it stays below `2^32`; anything else behind it makes it no number. A single
/// digit is a number, nothing is none, and a plus sign in front changes nothing.
pub proof fn law_numbers_are_read_digit_by_digit(text: Seq<char>, n: u32, c: char)
    requires
        parsed_u32(text) == Some(n),
    ensures
        '0' <= c && c <= '9' ==> parsed_u32(text.push(c)) == if 10 * n + (c as int - 48)
            <= 0xffff_ffff {
            Some((10 * n + (c as int - 48)) as u32)
        } else {
            None
        },
        c < '0' || c > '9' ==> parsed_u32(text.push(c)) is None,
        '0' <= c && c <= '9' ==> parsed_u32(seq![c]) == Some((c as int - 48) as u32),
        parsed_u32(seq![]) is None,
        text[0] != '+' ==> parsed_u32(seq!['+'] + text) == Some(n),
{
    let longer = text.push(c);
    let ds = unsigned_part(text);
    let dl = unsigned_part(longer);
    assert(dl =~= ds.push(c));
    assert(dl.drop_last() =~= ds);
    assert(dl[dl.len() - 1] == c);
    if '0' <= c && c <= '9' {
        assert forall|i: int| 0 <= i < dl.len() implies is_digit(#[trigger] dl[i]) by {
            if i < ds.len() {
                assert(dl[i] == ds[i]);
            }
        }
        let one = seq![c];
        assert(unsigned_part(one) =~= one);
        assert(one.drop_last() =~= Seq::empty());
        reveal_with_fuel(digits_value, 2);
        assert(digits_value(one) == c as int - 48);
        assert forall|i: int| 0 <= i < one.len() implies is_digit(#[trigger] one[i]) by {}
    } else {
        assert(!is_digit(dl[dl.len() - 1]));
    }
    if text[0] != '+' {
        assert((seq!['+'] + text).skip(1) =~= text);
    }
}

} // verus!
