//! SVG files: telling them by their name, and the pixels of a rendered one.
use crate::protocol::ascii_lower;
use crate::search::{chars_of, cut};
use vstd::prelude::*;
use vstd::string::*;

verus! {

/// What follows the last slash of a path.
pub open spec fn last_part(path: Seq<char>) -> Seq<char>
    decreases path.len(),
{
    if path.len() == 0 || path.last() == '/' {
        Seq::empty()
    } else {
        last_part(path.drop_last()).push(path.last())
    }
}

/// A part of a path that stands for the directory it is in, or for nothing.
pub open spec fn is_idle(part: Seq<char>) -> bool {
    part.len() == 0 || part == seq!['.']
}

/// The last part of a path that is not idle, unless it leads to the parent
/// directory.
pub open spec fn file_name(path: Seq<char>) -> Option<Seq<char>>
    decreases path.len(),
{
    let part = last_part(path);
    if is_idle(part) {
        if part.len() < path.len() {
            file_name(path.take(path.len() - part.len() - 1))
        } else {
            None
        }
    } else if part == seq!['.', '.'] {
        None
    } else {
        Some(part)
    }
}

/// The place of the last dot in a name, or minus one.
pub open spec fn last_dot(name: Seq<char>) -> int
    decreases name.len(),
{
    if name.len() == 0 {
        -1
    } else if name.last() == '.' {
        name.len() - 1
    } else {
        last_dot(name.drop_last())
    }
}

/// What follows the last dot of a name. A name whose only dot is at the start has
/// no extension.
pub open spec fn extension(name: Seq<char>) -> Option<Seq<char>> {
    if last_dot(name) > 0 {
        Some(name.skip(last_dot(name) + 1))
    } else {
        None
    }
}

/// The path names an SVG file, compressed or not, by its extension in upper or
/// lower case.
pub open spec fn names_svg(path: Seq<char>) -> bool {
    match file_name(path) {
        Some(name) => match extension(name) {
            Some(e) => {
                let lower = e.map_values(|c: char| ascii_lower(c));
                lower == "svg"@ || lower == "svgz"@
            },
            None => false,
        },
        None => false,
    }
}

/// The last part is at the end of the path.
proof fn lemma_last_part(path: Seq<char>)
    ensures
        last_part(path).len() <= path.len(),
        last_part(path) == path.skip(path.len() - last_part(path).len()),
    decreases path.len(),
{
    if path.len() == 0 || path.last() == '/' {
        assert(last_part(path) =~= path.skip(path.len() as int));
    } else {
        lemma_last_part(path.drop_last());
        assert(last_part(path) =~= path.skip(path.len() - last_part(path).len()));
    }
}

/// Where the last part of the first `len` characters begins.
fn part_start(path: &Vec<char>, len: usize) -> (r: usize)
    requires
        len <= path@.len(),
    ensures
        r + last_part(path@.take(len as int)).len() == len,
{
    let mut i: usize = len;
    while i > 0 && path[i - 1] != '/'
        invariant
            i <= len <= path@.len(),
            last_part(path@.take(len as int)).len() == last_part(path@.take(i as int)).len() + len
                - i,
        decreases i,
    {
        assert(path@.take(i as int).drop_last() =~= path@.take(i - 1));
        i = i - 1;
    }
    i
}

/// The file name of a path.
fn find_name(path: &Vec<char>) -> (r: Option<Vec<char>>)
    ensures
        match r {
            Some(name) => file_name(path@) == Some(name@),
            None => file_name(path@) is None,
        },
{
    let mut end: usize = path.len();
    assert(path@.take(end as int) =~= path@);
    loop
        invariant
            end <= path@.len(),
            file_name(path@) == file_name(path@.take(end as int)),
        decreases end,
    {
        let ghost current = path@.take(end as int);
        let start: usize = part_start(path, end);
        let part: Vec<char> = cut(path, start, end);
        proof {
            lemma_last_part(current);
            assert(part@ =~= last_part(current));
        }
        if part.len() == 0 || (part.len() == 1 && part[0] == '.') {
            assert(part@.len() == 1 ==> part@ =~= seq!['.']);
            if start == 0 {
                return None;
            }
            assert(current.take(current.len() - part@.len() - 1) =~= path@.take(start - 1));
            end = start - 1;
        } else if part.len() == 2 && part[0] == '.' && part[1] == '.' {
            assert(part@ =~= seq!['.', '.']);
            return None;
        } else {
            return Some(part);
        }
    }
}

/// The extension of a file name.
fn find_extension(name: &Vec<char>) -> (r: Option<Vec<char>>)
    ensures
        match r {
            Some(e) => extension(name@) == Some(e@),
            None => extension(name@) is None,
        },
{
    let mut i: usize = name.len();
    assert(name@.take(i as int) =~= name@);
    while i > 0 && name[i - 1] != '.'
        invariant
            i <= name@.len(),
            last_dot(name@) == last_dot(name@.take(i as int)),
        decreases i,
    {
        assert(name@.take(i as int).drop_last() =~= name@.take(i - 1));
        i = i - 1;
    }
    if i > 1 {
        let e: Vec<char> = cut(name, i, name.len());
        assert(e@ =~= name@.skip(last_dot(name@) + 1));
        Some(e)
    } else {
        None
    }
}

fn lower_ascii(c: char) -> (r: char)
    ensures
        r == ascii_lower(c),
{
    if 'A' <= c && c <= 'Z' {
        (c as u8 + 32) as char
    } else {
        c
    }
}

/// Whether a text is `wanted` in upper or lower case.
fn is_lower_text(text: &Vec<char>, wanted: &str) -> (r: bool)
    ensures
        r == (text@.map_values(|c: char| ascii_lower(c)) == wanted@),
{
    let other: Vec<char> = chars_of(wanted);
    let ghost lower = text@.map_values(|c: char| ascii_lower(c));
    if text.len() != other.len() {
        return false;
    }
    for i in 0..text.len()
        invariant
            text@.len() == other@.len(),
            other@ == wanted@,
            lower == text@.map_values(|c: char| ascii_lower(c)),
            forall|k: int| 0 <= k < i ==> lower[k] == #[trigger] other@[k],
    {
        if lower_ascii(text[i]) != other[i] {
            assert(lower[i as int] != wanted@[i as int]);
            return false;
        }
    }
    assert(lower =~= wanted@);
    true
}

/// Whether a path names an SVG file. The extension is what decides how a file is
/// loaded. The parts of the path are separated by slashes; on a platform with other
/// paths the file name alone is what to ask about.
pub fn is_svg(path: &str) -> (r: bool)
    ensures
        r == names_svg(path@),
{
    match find_name(&chars_of(path)) {
        Some(name) => match find_extension(&name) {
            Some(e) => is_lower_text(&e, "svg") || is_lower_text(&e, "svgz"),
            None => false,
        },
        None => false,
    }
}

/// A colour value without the opacity that it was multiplied by: rounded, and no
/// more than full brightness.
pub open spec fn straight(value: u8, a: u8) -> u8 {
    if a == 0 {
        0
    } else if a == 255 {
        value
    } else {
        let q = (value * 255 + a / 2) / (a as int);
        if q < 255 {
            q as u8
        } else {
            255
        }
    }
}

/// Multiplying by the opacity again, and rounding, gives back the value that was
/// there.
pub proof fn law_demultiply_can_be_undone(value: u8, a: u8)
    requires
        value <= a,
    ensures
        (straight(value, a) * a + 127) / 255 == value,
{
    if a == 255 || a == 0 {
        assert(straight(value, a) * a == value * a) by (nonlinear_arith)
            requires
                straight(value, a) == value || a == 0,
        ;
    } else {
        let n = value * 255 + a / 2;
        let q = n / (a as int);
        vstd::arithmetic::div_mod::lemma_fundamental_div_mod(n, a as int);
        assert(q * a == a * q) by (nonlinear_arith);
        assert(q <= 255) by (nonlinear_arith)
            requires
                q * a <= value * 255 + a / 2,
                value <= a,
                0 < a,
                q >= 0,
        ;
    }
}

fn unmultiply(value: u8, a: u8) -> (r: u8)
    ensures
        r == straight(value, a),
{
    if a == 0 {
        return 0;
    }
    if a == 255 {
        return value;
    }
    let q: u32 = (value as u32 * 255 + a as u32 / 2) / a as u32;
    if q < 255 {
        q as u8
    } else {
        255
    }
}

/// Takes pixels whose colours are multiplied by their opacity to pixels with
/// straight opacity. Bytes after the last whole pixel are dropped. `w` and `h`
/// are the size of the picture, for which room is made.
pub fn demultiply(data: &[u8], w: u32, h: u32) -> (r: Vec<u8>)
    requires
        w * h * 4 <= isize::MAX,
    ensures
        r@.len() == data@.len() / 4 * 4,
        forall|i: int|
            0 <= i < r@.len() ==> #[trigger] r@[i] == if i % 4 == 3 {
                data@[i]
            } else {
                straight(data@[i], data@[i / 4 * 4 + 3])
            },
{
    assert(w as int * h as int >= 0) by (nonlinear_arith)
        requires
            w >= 0,
            h >= 0,
    ;
    let mut out: Vec<u8> = Vec::with_capacity(w as usize * h as usize * 4);
    for k in 0..data.len() / 4
        invariant
            out@.len() == k * 4,
            forall|i: int|
                0 <= i < out@.len() ==> #[trigger] out@[i] == if i % 4 == 3 {
                    data@[i]
                } else {
                    straight(data@[i], data@[i / 4 * 4 + 3])
                },
    {
        let a: u8 = data[k * 4 + 3];
        out.push(unmultiply(data[k * 4], a));
        out.push(unmultiply(data[k * 4 + 1], a));
        out.push(unmultiply(data[k * 4 + 2], a));
        out.push(a);
    }
    out
}

/// A letter in lower case or in upper case.
pub open spec fn is_letter(c: char, lower: char, upper: char) -> bool {
    c == lower || c == upper
}

/// The extension of an SVG file, in upper or lower case, or of a compressed one.
pub open spec fn is_svg_extension(e: Seq<char>) -> bool {
    &&& e.len() == 3 || e.len() == 4
    &&& is_letter(e[0], 's', 'S')
    &&& is_letter(e[1], 'v', 'V')
    &&& is_letter(e[2], 'g', 'G')
    &&& e.len() == 4 ==> is_letter(e[3], 'z', 'Z')
}

/// The part behind the last slash is the last one.
proof fn lemma_part_after(dir: Seq<char>, name: Seq<char>)
    requires
        dir.len() == 0 || dir.last() == '/',
        forall|i: int| 0 <= i < name.len() ==> #[trigger] name[i] != '/',
    ensures
        last_part(dir + name) == name,
    decreases name.len(),
{
    let path = dir + name;
    if name.len() == 0 {
        assert(path =~= dir);
        assert(name =~= Seq::empty());
    } else {
        let rest = name.drop_last();
        assert forall|i: int| 0 <= i < rest.len() implies #[trigger] rest[i] != '/' by {
            assert(rest[i] == name[i]);
        }
        lemma_part_after(dir, rest);
        assert(path.drop_last() =~= dir + rest);
        assert(path.last() == name[name.len() - 1]);
        assert(rest.push(name.last()) =~= name);
    }
}

/// The last dot is the one behind which there is none.
proof fn lemma_dot_before(stem: Seq<char>, e: Seq<char>)
    requires
        forall|i: int| 0 <= i < e.len() ==> #[trigger] e[i] != '.',
    ensures
        last_dot(stem.push('.') + e) == stem.len(),
    decreases e.len(),
{
    let name = stem.push('.') + e;
    if e.len() == 0 {
        assert(name =~= stem.push('.'));
    } else {
        let rest = e.drop_last();
        assert forall|i: int| 0 <= i < rest.len() implies #[trigger] rest[i] != '.' by {
            assert(rest[i] == e[i]);
        }
        lemma_dot_before(stem, rest);
        assert(name.drop_last() =~= stem.push('.') + rest);
        assert(name.last() == e[e.len() - 1]);
    }
}

proof fn lemma_svg_extension(e: Seq<char>)
    ensures
        ({
            let lower = e.map_values(|c: char| ascii_lower(c));
            (lower == "svg"@ || lower == "svgz"@) <==> is_svg_extension(e)
        }),
{
    reveal_strlit("svg");
    reveal_strlit("svgz");
    let lower = e.map_values(|c: char| ascii_lower(c));
    assert(lower.len() == e.len());
    assert("svg"@.len() == 3 && "svgz"@.len() == 4);
    assert(forall|i: int| 0 <= i < e.len() ==> #[trigger] lower[i] == ascii_lower(e[i]));
    if lower == "svg"@ {
        assert(lower[0] == 's' && lower[1] == 'v' && lower[2] == 'g');
        assert(ascii_lower(e[0]) == 's' && ascii_lower(e[1]) == 'v' && ascii_lower(e[2]) == 'g');
    }
    if lower == "svgz"@ {
        assert(lower[0] == 's' && lower[1] == 'v' && lower[2] == 'g' && lower[3] == 'z');
        assert(ascii_lower(e[0]) == 's' && ascii_lower(e[1]) == 'v' && ascii_lower(e[2]) == 'g'
            && ascii_lower(e[3]) == 'z');
    }
    if is_svg_extension(e) {
        if e.len() == 3 {
            assert(lower =~= "svg"@);
        } else {
            assert(lower =~= "svgz"@);
        }
    }
}

/// In whatever directory a file is, what stands behind the last dot of its name
/// tells whether it is an SVG file; something has to stand before that dot.
pub proof fn law_extension_tells_svg_files(dir: Seq<char>, stem: Seq<char>, e: Seq<char>)
    requires
        dir.len() == 0 || dir.last() == '/',
        forall|i: int| 0 <= i < stem.len() ==> #[trigger] stem[i] != '/',
        forall|i: int| 0 <= i < e.len() ==> #[trigger] e[i] != '/' && e[i] != '.',
        e.len() > 0,
    ensures
        names_svg(dir + (stem.push('.') + e)) <==> stem.len() > 0 && is_svg_extension(e),
{
    let name = stem.push('.') + e;
    assert forall|i: int| 0 <= i < name.len() implies #[trigger] name[i] != '/' by {
        if i < stem.len() {
            assert(name[i] == stem[i]);
        } else if i > stem.len() {
            assert(name[i] == e[i - stem.len() - 1]);
        }
    }
    lemma_part_after(dir, name);
    lemma_dot_before(stem, e);
    lemma_svg_extension(e);
    assert(name.last() == e[e.len() - 1]);
    assert(name != seq!['.'] && name != seq!['.', '.']) by {
        assert(name[name.len() - 1] != '.');
    }
    assert(name.skip(stem.len() as int + 1) =~= e);
}

/// A name without a dot is not that of an SVG file.
pub proof fn law_names_without_dot_are_no_svg_files(dir: Seq<char>, name: Seq<char>)
    requires
        dir.len() == 0 || dir.last() == '/',
        name.len() > 0,
        forall|i: int| 0 <= i < name.len() ==> #[trigger] name[i] != '/' && name[i] != '.',
    ensures
        !names_svg(dir + name),
{
    lemma_part_after(dir, name);
    lemma_no_dot(name);
    assert(name != seq!['.'] && name != seq!['.', '.']) by {
        assert(name[0] != '.');
    }
}

proof fn lemma_no_dot(name: Seq<char>)
    requires
        forall|i: int| 0 <= i < name.len() ==> #[trigger] name[i] != '.',
    ensures
        last_dot(name) == -1,
    decreases name.len(),
{
    if name.len() > 0 {
        let rest = name.drop_last();
        assert forall|i: int| 0 <= i < rest.len() implies #[trigger] rest[i] != '.' by {
            assert(rest[i] == name[i]);
        }
        assert(name.last() == name[name.len() - 1]);
        lemma_no_dot(rest);
    }
}

/// A slash, or a slash and a dot, behind a path changes nothing.
pub proof fn law_idle_parts_do_not_count(path: Seq<char>)
    requires
        path.len() > 0,
    ensures
        names_svg(path.push('/')) == names_svg(path),
        names_svg(path.push('/').push('.')) == names_svg(path),
{
    let (one, two) = (path.push('/'), path.push('/').push('.'));
    assert(one.take(one.len() - 1) =~= path);
    assert(last_part(one) =~= Seq::empty());
    assert(file_name(one) == file_name(path));
    let dot = seq!['.'];
    assert(two =~= one + dot);
    lemma_part_after(one, dot);
    assert(two.take(two.len() - 2) =~= path);
    assert(file_name(two) == file_name(path));
}

/// Without its opacity a colour value is the quotient by the opacity, in parts of
/// 255 and rounded to the nearest; where that is more than can be, as much as can
/// be. A clear pixel is black.
pub proof fn law_straight_is_the_quotient(value: u8, a: u8)
    ensures
        a == 0 ==> straight(value, a) == 0,
        a > 0 && value <= a ==> 2 * (straight(value, a) * a - 255 * value) <= a && 2 * (255 * value
            - straight(value, a) * a) <= a,
        a > 0 && value > a ==> straight(value, a) == 255 || (a == 255 && straight(value, a) == value),
{
    if a != 255 && a != 0 {
        let n = value * 255 + a / 2;
        let q = n / (a as int);
        vstd::arithmetic::div_mod::lemma_fundamental_div_mod(n, a as int);
        assert(q * a == a * q) by (nonlinear_arith);
        if value <= a {
            assert(q <= 255) by (nonlinear_arith)
                requires
                    q * a <= value * 255 + a / 2,
                    value <= a,
                    0 < a,
                    q >= 0,
            ;
        } else {
            assert(q >= 255) by (nonlinear_arith)
                requires
                    a * q + n % (a as int) == n,
                    n % (a as int) < a,
                    n >= (a + 1) * 255,
                    0 < a,
            ;
        }
    } else if a == 255 {
        assert(straight(value, a) * a == 255 * value);
    }
}

} // verus!
