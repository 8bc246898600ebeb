//! Terminal sizes, and the replies of a terminal that was asked about itself.
use crate::raster::at_least_one;
use crate::search::{
    are_plain, chars_of, cut, digits, fields, find, find_pattern, is_digit, joined,
    law_joined_fields_are_found, law_numbers_are_read_back, lemma_digits, lemma_fields, lemma_found,
    parse_u32, parsed_u32, split_fields,
};
use vstd::prelude::*;
use vstd::string::*;
use vstd::utf8::{decode_utf8, encode_utf8_decode_utf8, valid_utf8};

verus! {

/// Longest reply that is read.
pub const REPLY_MAX: usize = 128;

/// `str::from_utf8`: the contract says that it gives the text with those very
/// bytes if they are UTF-8, and nothing otherwise.
#[verifier::external_body]
fn text_of(bytes: &[u8]) -> (r: Option<&str>)
    ensures
        match r {
            Some(text) => valid_utf8(bytes@) && text.spec_bytes() == bytes@,
            None => !valid_utf8(bytes@),
        },
{
    std::str::from_utf8(bytes).ok()
}

/// The characters of a reply, if it is UTF-8.
fn reply_chars(reply: &[u8]) -> (r: Option<Vec<char>>)
    ensures
        match r {
            Some(text) => valid_utf8(reply@) && text@ == decode_utf8(reply@),
            None => !valid_utf8(reply@),
        },
{
    match text_of(reply) {
        Some(text) => {
            proof {
                encode_utf8_decode_utf8(text@);
            }
            Some(chars_of(text))
        },
        None => None,
    }
}

/// What stands in a text after the first `opening` and before the first `closing`
/// that follows it.
pub open spec fn enclosed(text: Seq<char>, opening: Seq<char>, closing: Seq<char>) -> Option<
    Seq<char>,
> {
    match find(text, opening) {
        None => None,
        Some(i) => {
            let rest = text.skip(i + opening.len());
            match find(rest, closing) {
                None => None,
                Some(j) => Some(rest.take(j)),
            }
        },
    }
}

/// Finds what stands between two patterns.
fn between(text: &Vec<char>, opening: &str, closing: &str) -> (r: Option<Vec<char>>)
    ensures
        match r {
            Some(part) => enclosed(text@, opening@, closing@) == Some(part@),
            None => enclosed(text@, opening@, closing@) is None,
        },
{
    let open: Vec<char> = chars_of(opening);
    let close: Vec<char> = chars_of(closing);
    match find_pattern(text, &open, 0) {
        None => None,
        Some(i) => {
            let rest: Vec<char> = cut(text, i + open.len(), text.len());
            assert(rest@ =~= text@.skip(i + opening@.len()));
            match find_pattern(&rest, &close, 0) {
                None => None,
                Some(j) => {
                    let part: Vec<char> = cut(&rest, 0, j);
                    assert(part@ =~= rest@.take(j as int));
                    Some(part)
                },
            }
        },
    }
}

/// The width and height in a reply to the question for the size in pixels:
/// `[4;height;widtht`.
pub open spec fn pixel_size(text: Seq<char>) -> Option<(u32, u32)> {
    match enclosed(text, "[4;"@, "t"@) {
        None => None,
        Some(numbers) => {
            let parts = fields(numbers);
            if parts.len() < 2 {
                None
            } else {
                match (parsed_u32(parts[0]), parsed_u32(parts[1])) {
                    (Some(h), Some(w)) => Some((w, h)),
                    _ => None,
                }
            }
        },
    }
}

/// A terminal's reply with a width and a height gives that width and height.
pub proof fn law_pixel_size_is_read_back(w: u32, h: u32)
    ensures
        pixel_size(
            "\x1b[4;"@ + digits(h as nat) + seq![';'] + digits(w as nat) + seq!['t'],
        ) == Some((w, h)),
{
    reveal_strlit("\x1b[4;");
    reveal_strlit("[4;");
    reveal_strlit("t");
    let (dw, dh) = (digits(w as nat), digits(h as nat));
    lemma_digits(w as nat);
    lemma_digits(h as nat);
    let text = "\x1b[4;"@ + dh + seq![';'] + dw + seq!['t'];
    let numbers = dh.push(';') + dw;
    let n = numbers.len() as int;
    let rest = numbers + seq!['t'];
    assert(text.subrange(1, 4) =~= "[4;"@);
    assert(text.subrange(0, 3)[0] != "[4;"@[0]);
    lemma_found(text, "[4;"@, 1);
    assert(text.skip(4) =~= rest);
    assert(rest.subrange(n, n + 1) =~= "t"@);
    assert forall|j: int| 0 <= j < n implies #[trigger] rest.subrange(j, j + 1)
        != "t"@ by {
        assert(rest.subrange(j, j + 1)[0] == numbers[j]);
        assert("t"@[0] == 't');
        if j < dh.len() {
            assert(is_digit(dh[j]));
        } else if j > dh.len() {
            assert(is_digit(dw[j - dh.len() - 1]));
        }
    }
    lemma_found(rest, "t"@, n);
    assert(rest.take(n) =~= numbers);
    assert forall|i: int| 0 <= i < dh.len() implies #[trigger] dh[i] != ';' by {
        assert(is_digit(dh[i]));
    }
    assert forall|i: int| 0 <= i < dw.len() implies #[trigger] dw[i] != ';' by {
        assert(is_digit(dw[i]));
    }
    lemma_fields(dh, dw);
    law_numbers_are_read_back(w);
    law_numbers_are_read_back(h);
}

/// Reads the size in pixels, width first, from a terminal's reply.
pub fn query_pixel_size_csi(reply: &[u8]) -> (r: Option<(u32, u32)>)
    ensures
        r == if valid_utf8(reply@) {
            pixel_size(decode_utf8(reply@))
        } else {
            None
        },
{
    let text: Vec<char> = match reply_chars(reply) {
        Some(text) => text,
        None => return None,
    };
    let numbers: Vec<char> = match between(&text, "[4;", "t") {
        Some(numbers) => numbers,
        None => return None,
    };
    let parts: Vec<Vec<char>> = split_fields(&numbers);
    if parts.len() < 2 {
        return None;
    }
    assert(parts@[0]@ == fields(numbers@)[0] && parts@[1]@ == fields(numbers@)[1]);
    match (parse_u32(&parts[0]), parse_u32(&parts[1])) {
        (Some(h), Some(w)) => Some((w, h)),
        _ => None,
    }
}

/// White space, as Unicode defines it.
pub open spec fn is_space(c: char) -> bool {
    let n = c as u32;
    9 <= n <= 13 || n == 0x20 || n == 0x85 || n == 0xa0 || n == 0x1680 || 0x2000 <= n <= 0x200a || n
        == 0x2028 || n == 0x2029 || n == 0x202f || n == 0x205f || n == 0x3000
}

/// A four with nothing but white space around it.
pub open spec fn is_four(field: Seq<char>) -> bool {
    exists|i: int|
        {
            &&& 0 <= i < field.len()
            &&& #[trigger] field[i] == '4'
            &&& forall|j: int| 0 <= j < field.len() && j != i ==> is_space(#[trigger] field[j])
        }
}

/// One of the fields is a four.
pub open spec fn has_four(parts: Seq<Seq<char>>) -> bool {
    exists|k: int| 0 <= k < parts.len() && is_four(#[trigger] parts[k])
}

/// A reply to the question for the terminal's attributes, `[?..;..c`, names the
/// attribute of sixels, four.
pub open spec fn names_sixel(text: Seq<char>) -> bool {
    match enclosed(text, "[?"@, "c"@) {
        None => false,
        Some(attributes) => has_four(fields(attributes)),
    }
}

fn is_white(c: char) -> (r: bool)
    ensures
        r == is_space(c),
{
    let n: u32 = c as u32;
    (9 <= n && n <= 13) || n == 0x20 || n == 0x85 || n == 0xa0 || n == 0x1680 || (0x2000 <= n && n
        <= 0x200a) || n == 0x2028 || n == 0x2029 || n == 0x202f || n == 0x205f || n == 0x3000
}

fn is_padded_four(field: &Vec<char>) -> (r: bool)
    ensures
        r == is_four(field@),
{
    let mut seen: bool = false;
    let ghost mut place: int = 0;
    for i in 0..field.len()
        invariant
            seen ==> 0 <= place < i && field@[place] == '4',
            forall|j: int|
                0 <= j < i && !(seen && j == place) ==> is_space(#[trigger] field@[j]),
    {
        let c: char = field[i];
        if c == '4' && !seen {
            seen = true;
            proof {
                place = i as int;
            }
        } else if !is_white(c) {
            proof {
                assert forall|k: int|
                    0 <= k < field@.len() && #[trigger] field@[k] == '4' implies !(forall|j: int|
                    0 <= j < field@.len() && j != k ==> is_space(#[trigger] field@[j])) by {
                    if k != i {
                        assert(!is_space(field@[i as int]));
                    } else {
                        assert(seen);
                        assert(!is_space(field@[place]));
                    }
                }
            }
            return false;
        }
    }
    proof {
        if seen {
            assert(field@[place] == '4');
        } else if is_four(field@) {
            let k = choose|k: int|
                {
                    &&& 0 <= k < field@.len()
                    &&& #[trigger] field@[k] == '4'
                    &&& forall|j: int|
                        0 <= j < field@.len() && j != k ==> is_space(#[trigger] field@[j])
                };
            assert(is_space(field@[k]));
        }
    }
    seen
}

/// Reads from a terminal's reply whether it knows sixels.
pub fn query_sixel_support(reply: &[u8]) -> (r: bool)
    ensures
        r == (valid_utf8(reply@) && names_sixel(decode_utf8(reply@))),
{
    let text: Vec<char> = match reply_chars(reply) {
        Some(text) => text,
        None => return false,
    };
    let attributes: Vec<char> = match between(&text, "[?", "c") {
        Some(attributes) => attributes,
        None => return false,
    };
    let parts: Vec<Vec<char>> = split_fields(&attributes);
    for k in 0..parts.len()
        invariant
            parts@.len() == fields(attributes@).len(),
            forall|i: int|
                0 <= i < parts@.len() ==> (#[trigger] parts@[i])@ == fields(attributes@)[i],
            enclosed(text@, "[?"@, "c"@) == Some(attributes@),
            valid_utf8(reply@),
            text@ == decode_utf8(reply@),
            forall|i: int| 0 <= i < k ==> !is_four(#[trigger] fields(attributes@)[i]),
    {
        assert(parts@[k as int]@ == fields(attributes@)[k as int]);
        if is_padded_four(&parts[k]) {
            assert(is_four(fields(attributes@)[k as int]));
            assert(has_four(fields(attributes@)));
            return true;
        }
    }
    false
}

/// A reply as it comes in, piece by piece.
pub struct Reply {
    pub bytes: Vec<u8>,
    pub terminator: u8,
    pub complete: bool,
}

impl Reply {
    /// The reply is complete once it holds its terminator or as many bytes as are
    /// read; it never holds more.
    pub open spec fn wf(&self) -> bool {
        &&& self.bytes@.len() <= REPLY_MAX
        &&& self.bytes@.contains(self.terminator) ==> self.complete
        &&& self.bytes@.len() == REPLY_MAX ==> self.complete
    }

    /// An empty reply that ends with `terminator`.
    pub fn new(terminator: u8) -> (r: Reply)
        ensures
            r.wf(),
            r.bytes@ == Seq::<u8>::empty(),
            r.terminator == terminator,
            !r.complete,
    {
        Reply { bytes: Vec::new(), terminator, complete: false }
    }

    /// How many more bytes may be read.
    pub fn room(&self) -> (r: usize)
        requires
            self.wf(),
        ensures
            r == if self.complete {
                0
            } else {
                REPLY_MAX - self.bytes@.len()
            },
            r == 0 <==> self.complete,
    {
        if self.complete {
            0
        } else {
            REPLY_MAX - self.bytes.len()
        }
    }

    /// Takes the bytes of one read. No bytes mean that no more will come.
    pub fn take(&mut self, piece: &[u8])
        requires
            old(self).wf(),
            !old(self).complete,
            old(self).bytes@.len() + piece@.len() <= REPLY_MAX,
        ensures
            final(self).wf(),
            final(self).terminator == old(self).terminator,
            final(self).bytes@ == old(self).bytes@ + piece@,
            final(self).complete == (piece@.len() == 0 || final(self).bytes@.contains(
                old(self).terminator,
            ) || final(self).bytes@.len() == REPLY_MAX),
    {
        let ghost before = self.bytes@;
        let mut found: bool = false;
        for i in 0..piece.len()
            invariant
                found == piece@.take(i as int).contains(self.terminator),
        {
            let ghost part = piece@.take(i as int);
            assert(piece@.take(i + 1) =~= part.push(piece@[i as int]));
            assert(part.push(piece@[i as int]).contains(self.terminator) == (part.contains(
                self.terminator,
            ) || piece@[i as int] == self.terminator)) by {
                if part.contains(self.terminator) {
                    let k = choose|k: int| 0 <= k < part.len() && part[k] == self.terminator;
                    assert(part.push(piece@[i as int])[k] == self.terminator);
                }
                assert(part.push(piece@[i as int])[i as int] == piece@[i as int]);
            }
            if piece[i] == self.terminator {
                found = true;
            }
        }
        assert(piece@.take(piece@.len() as int) =~= piece@);
        crate::text::push_bytes(&mut self.bytes, piece);
        assert(self.bytes@.contains(self.terminator) == found) by {
            if found {
                let k = choose|k: int| 0 <= k < piece@.len() && piece@[k] == self.terminator;
                assert(self.bytes@[before.len() + k] == self.terminator);
            }
        }
        self.complete = piece.len() == 0 || found || self.bytes.len() == REPLY_MAX;
    }
}

/// Columns and rows of the terminal; the usual eighty by twenty-four if they are
/// not known.
pub open spec fn char_size(size: Option<(u16, u16)>) -> (u16, u16) {
    match size {
        Some(s) => s,
        None => (80, 24),
    }
}

/// Columns and rows of the terminal, as far as they are known.
pub fn size_or_default(size: Option<(u16, u16)>) -> (r: (u16, u16))
    ensures
        r == char_size(size),
{
    match size {
        Some(s) => s,
        None => (80, 24),
    }
}

/// The number itself, or one if it is zero.
pub open spec fn nonzero(n: u32) -> u32 {
    if n == 0 {
        1
    } else {
        n
    }
}

/// Rows that are left when some are reserved.
pub open spec fn rows_left(rows: u32, reserved: u32) -> u32 {
    if rows < reserved {
        0
    } else {
        (rows - reserved) as u32
    }
}

/// Room for a picture in pixels: the size that the terminal gave, less the
/// reserved rows and at least one pixel high; cells of eight by sixteen pixels if
/// it gave none.
pub open spec fn pixel_room(
    size: Option<(u16, u16)>,
    reserved: u16,
    pixels: Option<(u32, u32)>,
) -> (int, int) {
    let cols = nonzero(char_size(size).0 as u32);
    let rows = nonzero(char_size(size).1 as u32);
    match pixels {
        Some((w, h)) => {
            let taken = reserved * (h / rows);
            (
                w as int,
                if h <= taken {
                    1
                } else {
                    h - taken
                },
            )
        },
        None => (cols * 8, rows_left(rows, reserved as u32) * 16),
    }
}

/// Room for a picture in pixels, with `reserved` text rows kept free at the
/// bottom.
pub fn terminal_pixel_size(
    size: Option<(u16, u16)>,
    reserved: u16,
    pixels: Option<(u32, u32)>,
) -> (r: (u32, u32))
    ensures
        (r.0 as int, r.1 as int) == pixel_room(size, reserved, pixels),
{
    let (cols, rows): (u16, u16) = size_or_default(size);
    let cols: u32 = if cols == 0 {
        1
    } else {
        cols as u32
    };
    let rows: u32 = if rows == 0 {
        1
    } else {
        rows as u32
    };
    match pixels {
        Some((w, h)) => {
            let cell: u32 = h / rows;
            assert(reserved as int * cell as int <= 0xffff * 0xffff_ffff && reserved as int
                * cell as int >= 0) by (nonlinear_arith)
                requires
                    0 <= reserved <= 0xffff,
                    0 <= cell <= 0xffff_ffff,
            ;
            let taken: u64 = reserved as u64 * cell as u64;
            if h as u64 <= taken {
                (w, 1)
            } else {
                (w, (h as u64 - taken) as u32)
            }
        },
        None => (cols * 8, rows.saturating_sub(reserved as u32) * 16),
    }
}

/// Room for a picture of half-block characters, in pixels: one for each column
/// and two for each row, with `reserved` rows kept free at the bottom.
pub fn terminal_char_size(size: Option<(u16, u16)>, reserved: u16) -> (r: (u32, u32))
    ensures
        r.0 == char_size(size).0,
        r.1 == rows_left(char_size(size).1 as u32, reserved as u32) * 2,
{
    let (cols, rows): (u16, u16) = size_or_default(size);
    (cols as u32, (rows as u32).saturating_sub(reserved as u32) * 2)
}

/// A terminal that gives its size leaves a picture no more than that size, and
/// always some height.
pub proof fn law_room_lies_on_screen(size: Option<(u16, u16)>, reserved: u16, w: u32, h: u32)
    ensures
        pixel_room(size, reserved, Some((w, h))).0 == w,
        1 <= pixel_room(size, reserved, Some((w, h))).1,
        h >= 1 ==> pixel_room(size, reserved, Some((w, h))).1 <= h,
{
    let rows = nonzero(char_size(size).1 as u32);
    assert(reserved as int * (h / rows) as int >= 0) by (nonlinear_arith)
        requires
            reserved >= 0,
            (h / rows) >= 0,
    ;
}

/// A text with white space around it.
pub open spec fn is_padded(field: Seq<char>, left: Seq<char>, middle: char, right: Seq<char>) -> bool {
    &&& field == left.push(middle) + right
    &&& forall|i: int| 0 <= i < left.len() ==> is_space(#[trigger] left[i])
    &&& forall|i: int| 0 <= i < right.len() ==> is_space(#[trigger] right[i])
}

/// The attributes of a terminal's reply are found between its question mark and its
/// final `c`.
proof fn lemma_attributes(body: Seq<char>)
    requires
        forall|i: int| 0 <= i < body.len() ==> #[trigger] body[i] != 'c',
    ensures
        enclosed("\x1b[?"@ + body + seq!['c'], "[?"@, "c"@) == Some(body),
{
    reveal_strlit("\x1b[?");
    reveal_strlit("[?");
    reveal_strlit("c");
    let text = "\x1b[?"@ + body + seq!['c'];
    let n = body.len() as int;
    let rest = body + seq!['c'];
    assert(text.subrange(1, 3) =~= "[?"@);
    assert(text.subrange(0, 2)[0] != "[?"@[0]);
    lemma_found(text, "[?"@, 1);
    assert(text.skip(3) =~= rest);
    assert(rest.subrange(n, n + 1) =~= "c"@);
    assert forall|j: int| 0 <= j < n implies #[trigger] rest.subrange(j, j + 1) != "c"@ by {
        assert(rest.subrange(j, j + 1)[0] == body[j]);
        assert("c"@[0] == 'c');
    }
    lemma_found(rest, "c"@, n);
    assert(rest.take(n) =~= body);
}

/// Joined texts hold only what is in the texts, and semicolons.
proof fn lemma_joined_chars(parts: Seq<Seq<char>>, c: char)
    requires
        c != ';',
        forall|k: int, i: int|
            #![trigger parts[k][i]]
            0 <= k < parts.len() && 0 <= i < parts[k].len() ==> parts[k][i] != c,
    ensures
        forall|i: int| 0 <= i < joined(parts).len() ==> #[trigger] joined(parts)[i] != c,
    decreases parts.len(),
{
    if parts.len() == 1 {
        assert forall|i: int| 0 <= i < joined(parts).len() implies #[trigger] joined(parts)[i]
            != c by {
            assert(parts[0][i] != c);
        }
    } else if parts.len() > 1 {
        let rest = parts.drop_last();
        assert forall|k: int, i: int|
            #![trigger rest[k][i]]
            0 <= k < rest.len() && 0 <= i < rest[k].len() implies rest[k][i] != c by {
            assert(rest[k][i] == parts[k][i]);
        }
        lemma_joined_chars(rest, c);
        let (a, b) = (joined(rest), parts.last());
        assert forall|i: int| 0 <= i < joined(parts).len() implies #[trigger] joined(parts)[i]
            != c by {
            if i < a.len() {
                assert(joined(parts)[i] == a[i]);
            } else if i > a.len() {
                assert(joined(parts)[i] == parts[parts.len() - 1][i - a.len() - 1]);
            }
        }
    }
}

/// A terminal that lists its attributes, with semicolons between them, knows sixels
/// exactly if one of them is a four, wherever it stands and with or without white
/// space around it.
pub proof fn law_sixels_are_found_anywhere(parts: Seq<Seq<char>>)
    requires
        parts.len() > 0,
        are_plain(parts),
        forall|k: int, i: int|
            #![trigger parts[k][i]]
            0 <= k < parts.len() && 0 <= i < parts[k].len() ==> parts[k][i] != 'c',
    ensures
        names_sixel("\x1b[?"@ + joined(parts) + seq!['c']) <==> exists|
            k: int,
            left: Seq<char>,
            right: Seq<char>,
        | 0 <= k < parts.len() && #[trigger] is_padded(parts[k], left, '4', right),
{
    let body = joined(parts);
    lemma_joined_chars(parts, 'c');
    lemma_attributes(body);
    law_joined_fields_are_found(parts);
    let text = "\x1b[?"@ + body + seq!['c'];
    if names_sixel(text) {
        let k = choose|k: int| 0 <= k < parts.len() && is_four(#[trigger] parts[k]);
        let field = parts[k];
        let i = choose|i: int|
            {
                &&& 0 <= i < field.len()
                &&& #[trigger] field[i] == '4'
                &&& forall|j: int| 0 <= j < field.len() && j != i ==> is_space(#[trigger] field[j])
            };
        let (left, right) = (field.take(i), field.skip(i + 1));
        assert(field =~= left.push('4') + right);
        assert(is_padded(parts[k], left, '4', right));
    }
    if exists|k: int, left: Seq<char>, right: Seq<char>|
        0 <= k < parts.len() && #[trigger] is_padded(parts[k], left, '4', right) {
        let (k, left, right) = choose|k: int, left: Seq<char>, right: Seq<char>|
            0 <= k < parts.len() && #[trigger] is_padded(parts[k], left, '4', right);
        let field = parts[k];
        let n = left.len() as int;
        assert(field[n] == '4');
        assert forall|j: int| 0 <= j < field.len() && j != n implies is_space(
            #[trigger] field[j],
        ) by {
            if j < n {
                assert(field[j] == left[j]);
            } else {
                assert(field[j] == right[j - n - 1]);
            }
        }
        assert(is_four(parts[k]));
    }
}

/// A terminal that lists the numbers of its attributes knows sixels exactly if four
/// is one of them, at whatever place.
pub proof fn law_sixels_are_attribute_four(numbers: Seq<nat>)
    requires
        numbers.len() > 0,
    ensures
        ({
            let parts = numbers.map_values(|n: nat| digits(n));
            names_sixel("\x1b[?"@ + joined(parts) + seq!['c']) <==> numbers.contains(4)
        }),
{
    let parts = numbers.map_values(|n: nat| digits(n));
    assert forall|k: int, i: int|
        #![trigger parts[k][i]]
        0 <= k < parts.len() && 0 <= i < parts[k].len() implies parts[k][i] != ';' && parts[k][i]
        != 'c' by {
        lemma_digits(numbers[k]);
        assert(is_digit(digits(numbers[k])[i]));
    }
    law_sixels_are_found_anywhere(parts);
    if numbers.contains(4) {
        let k = choose|k: int| 0 <= k < numbers.len() && numbers[k] == 4;
        let none = Seq::<char>::empty();
        assert(parts[k] =~= none.push('4') + none);
        assert(is_padded(parts[k], none, '4', none));
    }
    if exists|k: int, left: Seq<char>, right: Seq<char>|
        0 <= k < parts.len() && #[trigger] is_padded(parts[k], left, '4', right) {
        let (k, left, right) = choose|k: int, left: Seq<char>, right: Seq<char>|
            0 <= k < parts.len() && #[trigger] is_padded(parts[k], left, '4', right);
        let n = numbers[k];
        lemma_digits(n);
        assert(parts[k] == digits(n));
        if left.len() > 0 {
            assert(is_space(left[0]));
            assert(digits(n)[0] == left[0]);
            assert(is_digit(digits(n)[0]));
        }
        if right.len() > 0 {
            let i = left.len() + 1;
            assert(is_space(right[0]));
            assert(digits(n)[i as int] == right[0]);
            assert(is_digit(digits(n)[i as int]));
        }
        assert(digits(n).len() == 1 && digits(n)[0] == '4');
        if n >= 10 {
            lemma_digits(n / 10);
        }
        assert(n == 4);
        assert(numbers.contains(4));
    }
}

/// What the terminal gives as its size in pixels is kept but for the reserved rows,
/// each as high as the whole screen divided by its rows, rounded down; one row of
/// pixels stays in any case. Without a size in pixels every character is eight by
/// sixteen, and without any size there are eighty columns and twenty-four rows.
pub proof fn law_reserved_rows_are_kept_free(
    cols: u16,
    rows: u16,
    reserved: u16,
    w: u32,
    h: u32,
    cell: int,
)
    requires
        cols > 0,
        rows > 0,
        cell * rows <= h < cell * rows + rows,
    ensures
        ({
            let room = pixel_room(Some((cols, rows)), reserved, Some((w, h)));
            &&& room.0 == w
            &&& room.1 == at_least_one(h - reserved * cell)
        }),
        ({
            let room = pixel_room(Some((cols, rows)), reserved, None);
            &&& room.0 == 8 * cols
            &&& rows >= reserved ==> room.1 == 16 * (rows - reserved)
            &&& rows < reserved ==> room.1 == 0
        }),
        pixel_room(None, reserved, Some((w, h))) == pixel_room(
            Some((80, 24)),
            reserved,
            Some((w, h)),
        ),
        pixel_room(None, reserved, None) == pixel_room(Some((80, 24)), reserved, None),
{
    assert(h as int / rows as int == cell) by {
        assert(h == rows * cell + (h - rows * cell)) by (nonlinear_arith);
        assert(cell * rows == rows * cell) by (nonlinear_arith);
        vstd::arithmetic::div_mod::lemma_fundamental_div_mod_converse(
            h as int,
            rows as int,
            cell,
            h - rows * cell,
        );
    }
}

/// A screen of characters has room for two pixels in each row that is not reserved.
pub proof fn law_rows_left(rows: u32, reserved: u32)
    ensures
        rows >= reserved ==> rows_left(rows, reserved) + reserved == rows,
        rows < reserved ==> rows_left(rows, reserved) == 0,
{
}

/// What stands between the first opening and the first closing behind it is found,
/// whatever stands before and after.
pub proof fn law_enclosed_text_is_found(
    before: Seq<char>,
    opening: Seq<char>,
    body: Seq<char>,
    closing: Seq<char>,
    after: Seq<char>,
)
    requires
        forall|i: int|
            0 <= i < before.len() ==> #[trigger] (before + opening + body + closing
                + after).subrange(i, i + opening.len()) != opening,
        forall|i: int|
            0 <= i < body.len() ==> #[trigger] (body + closing + after).subrange(
                i,
                i + closing.len(),
            ) != closing,
    ensures
        enclosed(before + opening + body + closing + after, opening, closing) == Some(body),
{
    let text = before + opening + body + closing + after;
    let n = before.len() as int;
    assert(text.subrange(n, n + opening.len()) =~= opening);
    lemma_found(text, opening, n);
    let rest = body + closing + after;
    assert(text.skip(n + opening.len()) =~= rest);
    let m = body.len() as int;
    assert(rest.subrange(m, m + closing.len()) =~= closing);
    lemma_found(rest, closing, m);
    assert(rest.take(m) =~= body);
}

/// The white space of ASCII: the tab, the line feed, the vertical tab, the form feed,
/// the carriage return and the space. No digit, letter or mark is white space.
pub proof fn law_white_space(c: char)
    requires
        (c as u32) < 128,
    ensures
        is_space(c) <==> c == '\t' || c == '\n' || c as u32 == 11 || c as u32 == 12 || c == '\r' || c
            == ' ',
{
}

/// A size in pixels is the second number of the reply wide and the first one high;
/// there have to be two, and what follows them does not count.
pub proof fn law_pixel_size_is_the_first_two_numbers(parts: Seq<Seq<char>>)
    requires
        parts.len() > 0,
        are_plain(parts),
        forall|k: int, i: int|
            #![trigger parts[k][i]]
            0 <= k < parts.len() && 0 <= i < parts[k].len() ==> parts[k][i] != 't',
    ensures
        ({
            let size = pixel_size("\x1b[4;"@ + joined(parts) + seq!['t']);
            if parts.len() >= 2 && parsed_u32(parts[0]) is Some && parsed_u32(parts[1]) is Some {
                size == Some((parsed_u32(parts[1])->0, parsed_u32(parts[0])->0))
            } else {
                size is None
            }
        }),
{
    let body = joined(parts);
    lemma_joined_chars(parts, 't');
    reveal_strlit("\x1b[4;");
    reveal_strlit("[4;");
    reveal_strlit("t");
    let text = "\x1b[4;"@ + body + seq!['t'];
    let n = body.len() as int;
    let rest = body + seq!['t'];
    assert(text.subrange(1, 4) =~= "[4;"@);
    assert(text.subrange(0, 3)[0] != "[4;"@[0]);
    lemma_found(text, "[4;"@, 1);
    assert(text.skip(4) =~= rest);
    assert(rest.subrange(n, n + 1) =~= "t"@);
    assert forall|j: int| 0 <= j < n implies #[trigger] rest.subrange(j, j + 1) != "t"@ by {
        assert(rest.subrange(j, j + 1)[0] == body[j]);
        assert("t"@[0] == 't');
    }
    lemma_found(rest, "t"@, n);
    assert(rest.take(n) =~= body);
    law_joined_fields_are_found(parts);
}

/// A terminal without columns or rows counts as one with a single one.
pub proof fn law_empty_screens_count_as_one(
    cols: u16,
    rows: u16,
    reserved: u16,
    pixels: Option<(u32, u32)>,
)
    ensures
        pixel_room(Some((0, rows)), reserved, pixels) == pixel_room(
            Some((1, rows)),
            reserved,
            pixels,
        ),
        pixel_room(Some((cols, 0)), reserved, pixels) == pixel_room(
            Some((cols, 1)),
            reserved,
            pixels,
        ),
{
}

/// A terminal that does not tell its size has eighty columns and twenty-four rows.
pub proof fn law_terminals_have_a_size(cols: u16, rows: u16)
    ensures
        char_size(None) == (80u16, 24u16),
        char_size(Some((cols, rows))) == (cols, rows),
{
}

/// A reply holds at most 128 bytes. It is at its end when it holds that many, and
/// when it holds its terminator.
pub proof fn law_replies_have_an_end(r: &Reply)
    ensures
        REPLY_MAX == 128,
        r.wf() <==> {
            &&& r.bytes@.len() <= 128
            &&& r.bytes@.len() == 128 ==> r.complete
            &&& r.bytes@.contains(r.terminator) ==> r.complete
        },
{
}

} // verus!
