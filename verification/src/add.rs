//! The decisions of adding a node to a document: which kind of node the
//! arguments ask for and its default name, the fill (a color or a linear
//! gradient), a fresh identifier, and where in the hierarchy the node goes.
use vstd::prelude::*;
use vstd::string::StringExecFns;
use vstd::utf8::{encode_utf8, is_ascii_chars, is_char_boundary};
use crate::output::ErrorResponse;
use crate::seqs::{first_index, index_from};
use crate::text::{concat3, str_eq, str_starts_with};

verus! {

broadcast use vstd::seq_lib::group_seq_properties;

// ─── Hexadecimal colors ───

/// `s` without its leading `#` characters.
pub open spec fn trim_hashes(s: Seq<char>) -> Seq<char>
    decreases s.len(),
{
    if s.len() > 0 && s[0] == '#' {
        trim_hashes(s.drop_first())
    } else {
        s
    }
}

/// The value of a hexadecimal digit.
pub open spec fn hex_value(c: char) -> nat {
    if '0' <= c && c <= '9' {
        (c as nat - '0' as nat) as nat
    } else if 'a' <= c && c <= 'f' {
        (c as nat - 'a' as nat + 10) as nat
    } else {
        (c as nat - 'A' as nat + 10) as nat
    }
}

/// The byte that a two-character base-16 numeral denotes, as std's
/// `u8::from_str_radix(.., 16)` reads it: two digits, or a `+` sign and one
/// digit.
pub open spec fn hex_byte(a: char, b: char) -> Option<u8> {
    if a == '+' && crate::text::is_hex_digit_char(b) {
        Some(hex_value(b) as u8)
    } else if crate::text::is_hex_digit_char(a) && crate::text::is_hex_digit_char(b) {
        Some((16 * hex_value(a) + hex_value(b)) as u8)
    } else {
        None
    }
}

/// Whether cutting the UTF-8 encoding of `t` into two-byte pieces would cut
/// inside a character (when it has six or eight bytes).
pub open spec fn hex_cut_inside_char(t: Seq<char>) -> bool {
    let b = encode_utf8(t);
    (b.len() == 6 || b.len() == 8) && !(is_char_boundary(b, 2) && is_char_boundary(b, 4) && (
    b.len() == 6 || is_char_boundary(b, 6)))
}

/// The red, green, blue and alpha bytes of a `#RRGGBB` or `#RRGGBBAA` color
/// (any number of leading `#`); alpha is 255 in the six-digit form.
pub open spec fn hex_rgba(s: Seq<char>) -> Option<(u8, u8, u8, u8)> {
    let t = trim_hashes(s);
    if !is_ascii_chars(t) {
        None
    } else if t.len() == 6 {
        match (hex_byte(t[0], t[1]), hex_byte(t[2], t[3]), hex_byte(t[4], t[5])) {
            (Some(r), Some(g), Some(b)) => Some((r, g, b, 255u8)),
            _ => None,
        }
    } else if t.len() == 8 {
        match (hex_byte(t[0], t[1]), hex_byte(t[2], t[3]), hex_byte(t[4], t[5]), hex_byte(t[6], t[7])) {
            (Some(r), Some(g), Some(b), Some(a)) => Some((r, g, b, a)),
            _ => None,
        }
    } else {
        None
    }
}

/// The value of a hexadecimal digit character.
fn hex_digit(c: char) -> (r: Option<u8>)
    ensures
        match r {
            Some(v) => crate::text::is_hex_digit_char(c) && v == hex_value(c),
            None => !crate::text::is_hex_digit_char(c),
        },
{
    if '0' <= c && c <= '9' {
        Some(((c as u32) - ('0' as u32)) as u8)
    } else if 'a' <= c && c <= 'f' {
        Some(((c as u32) - ('a' as u32) + 10) as u8)
    } else if 'A' <= c && c <= 'F' {
        Some(((c as u32) - ('A' as u32) + 10) as u8)
    } else {
        None
    }
}

/// Executable `hex_byte`.
fn parse_hex_byte(a: char, b: char) -> (r: Option<u8>)
    ensures
        r == hex_byte(a, b),
{
    let lo = match hex_digit(b) {
        Some(v) => v,
        None => return None,
    };
    if a == '+' {
        return Some(lo);
    }
    match hex_digit(a) {
        Some(hi) => Some(16 * hi + lo),
        None => None,
    }
}

/// Parse a hexadecimal color (`#RRGGBB` or `#RRGGBBAA`) into its channel
/// bytes; `None` when it is not one.
pub fn parse_hex_rgba(hex: &str) -> (r: Option<(u8, u8, u8, u8)>)
    requires
        !hex_cut_inside_char(trim_hashes(hex@)),
    ensures
        r == hex_rgba(hex@),
{
    read_hex_rgba(hex)
}

/// Executable `hex_rgba`.
fn read_hex_rgba(hex: &str) -> (r: Option<(u8, u8, u8, u8)>)
    ensures
        r == hex_rgba(hex@),
{
    let n = hex.unicode_len();
    let mut start: usize = 0;
    assert(hex@.subrange(0, n as int) =~= hex@);
    while start < n && hex.get_char(start) == '#'
        invariant
            0 <= start <= n,
            n == hex@.len(),
            trim_hashes(hex@) == trim_hashes(hex@.subrange(start as int, n as int)),
        decreases n - start,
    {
        let ghost sub = hex@.subrange(start as int, n as int);
        assert(sub.drop_first() =~= hex@.subrange(start as int + 1, n as int));
        start += 1;
    }
    let t = hex.substring_char(start, n);
    assert(trim_hashes(t@) == t@);
    if !t.is_ascii() {
        return None;
    }
    let len = t.unicode_len();
    if len == 6 {
        let r = match parse_hex_byte(t.get_char(0), t.get_char(1)) {
            Some(v) => v,
            None => return None,
        };
        let g = match parse_hex_byte(t.get_char(2), t.get_char(3)) {
            Some(v) => v,
            None => return None,
        };
        let b = match parse_hex_byte(t.get_char(4), t.get_char(5)) {
            Some(v) => v,
            None => return None,
        };
        Some((r, g, b, 255u8))
    } else if len == 8 {
        let r = match parse_hex_byte(t.get_char(0), t.get_char(1)) {
            Some(v) => v,
            None => return None,
        };
        let g = match parse_hex_byte(t.get_char(2), t.get_char(3)) {
            Some(v) => v,
            None => return None,
        };
        let b = match parse_hex_byte(t.get_char(4), t.get_char(5)) {
            Some(v) => v,
            None => return None,
        };
        let a = match parse_hex_byte(t.get_char(6), t.get_char(7)) {
            Some(v) => v,
            None => return None,
        };
        Some((r, g, b, a))
    } else {
        None
    }
}

// ─── Linear gradient fills ───

/// `s` without its leading spaces.
pub open spec fn trim_start_spaces(s: Seq<char>) -> Seq<char>
    decreases s.len(),
{
    if s.len() > 0 && s[0] == ' ' {
        trim_start_spaces(s.drop_first())
    } else {
        s
    }
}

/// `s` without its trailing spaces.
pub open spec fn trim_end_spaces(s: Seq<char>) -> Seq<char>
    decreases s.len(),
{
    if s.len() > 0 && s.last() == ' ' {
        trim_end_spaces(s.drop_last())
    } else {
        s
    }
}

/// `s` without its leading and trailing spaces.
pub open spec fn strip_spaces(s: Seq<char>) -> Seq<char> {
    trim_end_spaces(trim_start_spaces(s))
}

/// Whether `c` is a decimal digit.
pub open spec fn is_digit(c: char) -> bool {
    '0' <= c && c <= '9'
}

/// Whether every character of `s` is a decimal digit.
pub open spec fn all_digits(s: Seq<char>) -> bool {
    forall|i: int| 0 <= i < s.len() ==> is_digit(#[trigger] s[i])
}

/// The number a sequence of decimal digits denotes.
pub open spec fn decimal_value(s: Seq<char>) -> nat
    decreases s.len(),
{
    if s.len() == 0 {
        0
    } else {
        decimal_value(s.drop_last()) * 10 + (s.last() as nat - '0' as nat) as nat
    }
}

/// Whether `t` ends in `deg`.
pub open spec fn has_deg(t: Seq<char>) -> bool {
    t.len() >= 3 && t[t.len() - 3] == 'd' && t[t.len() - 2] == 'e' && t[t.len() - 1] == 'g'
}

/// The number part of an angle: its text before `deg`, spaces stripped.
pub open spec fn angle_number(s: Seq<char>) -> Seq<char> {
    let t = strip_spaces(s);
    t.take(t.len() - 3)
}

/// Whether the number part of an angle starts with `-`.
pub open spec fn angle_negative(s: Seq<char>) -> bool {
    angle_number(s).len() > 0 && angle_number(s)[0] == '-'
}

/// The digits of an angle: its number part without the sign.
pub open spec fn angle_digits(s: Seq<char>) -> Seq<char> {
    if angle_negative(s) {
        angle_number(s).drop_first()
    } else {
        angle_number(s)
    }
}

/// The direction of a gradient written `<n>deg` or `-<n>deg` (spaces around
/// allowed), as whole degrees from 0 to 359.
pub open spec fn angle_of(s: Seq<char>) -> Option<u32> {
    let digits = angle_digits(s);
    if has_deg(strip_spaces(s)) && digits.len() > 0 && all_digits(digits) {
        let v = decimal_value(digits) % 360;
        if angle_negative(s) && v != 0 {
            Some((360 - v) as u32)
        } else {
            Some(v as u32)
        }
    } else {
        None
    }
}

/// The colors of a comma-separated list of hexadecimal colors (spaces
/// around each allowed), or `None` when one of them is not a color.
pub open spec fn stops_of(s: Seq<char>) -> Option<Seq<(u8, u8, u8, u8)>>
    decreases s.len(),
{
    match first_index(s, ',') {
        None => match hex_rgba(strip_spaces(s)) {
            Some(c) => Some(seq![c]),
            None => None,
        },
        Some(i) => {
            proof {
                crate::seqs::lemma_index_from(s, ',', 0);
            }
            match hex_rgba(strip_spaces(s.take(i))) {
                None => None,
                Some(c) => match stops_of(s.skip(i + 1)) {
                    Some(rest) => Some(seq![c] + rest),
                    None => None,
                },
            }
        },
    }
}

/// The text between the parentheses of `linear-gradient(...)`, when `f` has
/// that form.
pub open spec fn gradient_body(f: Seq<char>) -> Option<Seq<char>> {
    if f.len() >= 17 && f.take(16) == "linear-gradient("@ && f[f.len() - 1] == ')' {
        Some(f.subrange(16, f.len() - 1))
    } else {
        None
    }
}

/// A linear gradient `linear-gradient(<angle>, <color>, <color>, ...)`: its
/// angle and its two or more hexadecimal colors, in order.
pub open spec fn gradient_of(f: Seq<char>) -> Option<(u32, Seq<(u8, u8, u8, u8)>)> {
    match gradient_body(f) {
        None => None,
        Some(body) => match first_index(body, ',') {
            None => None,
            Some(i) => match (angle_of(body.take(i)), stops_of(body.skip(i + 1))) {
                (Some(a), Some(st)) => if st.len() >= 2 {
                    Some((a, st))
                } else {
                    None
                },
                _ => None,
            },
        },
    }
}

/// The fill of a new node.
#[derive(Debug, PartialEq)]
pub enum FillSpec {
    /// A solid color: red, green, blue and alpha bytes.
    Solid((u8, u8, u8, u8)),
    /// A linear gradient: its angle in whole degrees (0 to 359) and its
    /// colors, spread evenly from start to end.
    LinearGradient { angle: u32, stops: Vec<(u8, u8, u8, u8)> },
}

/// Model of a fill.
pub enum FillView {
    Solid((u8, u8, u8, u8)),
    LinearGradient(u32, Seq<(u8, u8, u8, u8)>),
}

impl View for FillSpec {
    type V = FillView;

    open spec fn view(&self) -> FillView {
        match self {
            FillSpec::Solid(c) => FillView::Solid(*c),
            FillSpec::LinearGradient { angle, stops } => FillView::LinearGradient(*angle, stops@),
        }
    }
}

/// The fill a fill argument asks for: a linear gradient when it is written
/// `linear-gradient(...)`, else a hexadecimal color; `None` when it is
/// neither.
pub open spec fn fill_choice(f: Seq<char>) -> Option<FillView> {
    if gradient_body(f) is Some {
        match gradient_of(f) {
            Some((a, st)) => Some(FillView::LinearGradient(a, st)),
            None => None,
        }
    } else {
        match hex_rgba(f) {
            Some(c) => Some(FillView::Solid(c)),
            None => None,
        }
    }
}

/// Executable `strip_spaces`.
fn strip_spaces_str(s: &str) -> (r: &str)
    ensures
        r@ == strip_spaces(s@),
{
    let n = s.unicode_len();
    let mut start: usize = 0;
    assert(s@.subrange(0, n as int) =~= s@);
    while start < n && s.get_char(start) == ' '
        invariant
            0 <= start <= n,
            n == s@.len(),
            trim_start_spaces(s@) == trim_start_spaces(s@.subrange(start as int, n as int)),
        decreases n - start,
    {
        let ghost sub = s@.subrange(start as int, n as int);
        assert(sub.drop_first() =~= s@.subrange(start as int + 1, n as int));
        start += 1;
    }
    let t = s.substring_char(start, n);
    assert(trim_start_spaces(t@) == t@);
    let m = t.unicode_len();
    let mut end: usize = m;
    assert(t@.subrange(0, m as int) =~= t@);
    while end > 0 && t.get_char(end - 1) == ' '
        invariant
            0 <= end <= m,
            m == t@.len(),
            trim_end_spaces(t@) == trim_end_spaces(t@.subrange(0, end as int)),
        decreases end,
    {
        let ghost sub = t@.subrange(0, end as int);
        assert(sub.drop_last() =~= t@.subrange(0, end as int - 1));
        end -= 1;
    }
    let u = t.substring_char(0, end);
    assert(trim_end_spaces(u@) == u@);
    u
}

/// Position of the first comma in `s`.
fn first_comma(s: &str) -> (r: Option<usize>)
    ensures
        match r {
            Some(k) => first_index(s@, ',') == Some(k as int) && k < s@.len(),
            None => first_index(s@, ',') is None,
        },
{
    let n = s.unicode_len();
    let mut i: usize = 0;
    while i < n
        invariant
            0 <= i <= n,
            n == s@.len(),
            first_index(s@, ',') == index_from(s@, ',', i as int),
        decreases n - i,
    {
        if s.get_char(i) == ',' {
            return Some(i);
        }
        i += 1;
    }
    None
}

/// `(10 a + d) mod 360` depends on `a` only through `a mod 360`.
proof fn lemma_mod_step(a: nat, d: nat)
    ensures
        (a * 10 + d) % 360 == ((a % 360) * 10 + d) % 360,
{
    let q = a / 360;
    let r = a % 360;
    vstd::arithmetic::div_mod::lemma_fundamental_div_mod(a as int, 360);
    assert(a * 10 + d == 360 * (10 * q) + (r * 10 + d)) by (nonlinear_arith)
        requires
            a == 360 * q + r,
    ;
    vstd::arithmetic::div_mod::lemma_mod_multiples_vanish(10 * q as int, (r * 10 + d) as int, 360);
}

/// Executable `angle_of`.
fn parse_angle(s: &str) -> (r: Option<u32>)
    ensures
        r == angle_of(s@),
{
    let t = strip_spaces_str(s);
    let n = t.unicode_len();
    if n < 3 || t.get_char(n - 3) != 'd' || t.get_char(n - 2) != 'e' || t.get_char(n - 1) != 'g' {
        return None;
    }
    let num = t.substring_char(0, n - 3);
    assert(num@ == t@.take(n as int - 3));
    let m = num.unicode_len();
    let neg = m > 0 && num.get_char(0) == '-';
    let first: usize = if neg {
        1
    } else {
        0
    };
    let digits = num.substring_char(first, m);
    assert(digits@ =~= if neg {
        num@.drop_first()
    } else {
        num@
    });
    let k = digits.unicode_len();
    assert(has_deg(strip_spaces(s@)));
    assert(num@ == angle_number(s@));
    assert(neg == angle_negative(s@));
    assert(digits@ == angle_digits(s@));
    if k == 0 {
        return None;
    }
    let mut acc: u32 = 0;
    let mut i: usize = 0;
    while i < k
        invariant
            0 <= i <= k,
            k == digits@.len(),
            acc < 360,
            acc == decimal_value(digits@.take(i as int)) % 360,
            forall|j: int| 0 <= j < i ==> is_digit(#[trigger] digits@[j]),
            has_deg(strip_spaces(s@)),
            neg == angle_negative(s@),
            digits@ == angle_digits(s@),
        decreases k - i,
    {
        let c = digits.get_char(i);
        if c < '0' || c > '9' {
            return None;
        }
        let d = (c as u32) - ('0' as u32);
        proof {
            let pre = digits@.take(i as int);
            assert(digits@.take(i as int + 1).drop_last() =~= pre);
            assert(digits@.take(i as int + 1).last() == c);
            lemma_mod_step(decimal_value(pre), d as nat);
        }
        acc = (acc * 10 + d) % 360;
        i += 1;
    }
    assert(digits@.take(k as int) =~= digits@);
    assert(all_digits(digits@));
    if neg && acc != 0 {
        Some(360 - acc)
    } else {
        Some(acc)
    }
}

/// Executable `stops_of`.
fn parse_stops(s: &str) -> (r: Option<Vec<(u8, u8, u8, u8)>>)
    ensures
        match r {
            Some(v) => stops_of(s@) == Some(v@),
            None => stops_of(s@) is None,
        },
    decreases s@.len(),
{
    match first_comma(s) {
        None => match read_hex_rgba(strip_spaces_str(s)) {
            Some(c) => {
                let mut v: Vec<(u8, u8, u8, u8)> = Vec::new();
                v.push(c);
                assert(v@ =~= seq![c]);
                Some(v)
            },
            None => None,
        },
        Some(i) => {
            let n = s.unicode_len();
            let head = s.substring_char(0, i);
            let rest = s.substring_char(i + 1, n);
            assert(head@ =~= s@.take(i as int));
            assert(rest@ =~= s@.skip(i as int + 1));
            match read_hex_rgba(strip_spaces_str(head)) {
                None => None,
                Some(c) => match parse_stops(rest) {
                    Some(tail) => {
                        let mut v: Vec<(u8, u8, u8, u8)> = Vec::new();
                        v.push(c);
                        let mut j: usize = 0;
                        while j < tail.len()
                            invariant
                                0 <= j <= tail@.len(),
                                v@ == seq![c] + tail@.take(j as int),
                            decreases tail@.len() - j,
                        {
                            v.push(tail[j]);
                            assert(tail@.take(j as int + 1) =~= tail@.take(j as int).push(tail@[j as int]));
                            j += 1;
                        }
                        assert(tail@.take(j as int) =~= tail@);
                        Some(v)
                    },
                    None => None,
                },
            }
        },
    }
}

/// The text between the parentheses of `linear-gradient(...)`, when `f` has
/// that form.
fn gradient_body_str(f: &str) -> (r: Option<&str>)
    ensures
        match r {
            Some(b) => gradient_body(f@) == Some(b@),
            None => gradient_body(f@) is None,
        },
{
    proof {
        reveal_strlit("linear-gradient(");
    }
    let n = f.unicode_len();
    if n < 17 || !str_starts_with(f, "linear-gradient(") || f.get_char(n - 1) != ')' {
        return None;
    }
    assert(f@.take(16) =~= f@.subrange(0, 16));
    Some(f.substring_char(16, n - 1))
}

/// Executable `fill_choice`.
pub fn parse_fill(f: &str) -> (r: Option<FillSpec>)
    requires
        gradient_body(f@) is None ==> !hex_cut_inside_char(trim_hashes(f@)),
    ensures
        match r {
            Some(x) => fill_choice(f@) == Some(x@),
            None => fill_choice(f@) is None,
        },
{
    match gradient_body_str(f) {
        Some(body) => {
            let i = match first_comma(body) {
                Some(i) => i,
                None => return None,
            };
            let n = body.unicode_len();
            let head = body.substring_char(0, i);
            let rest = body.substring_char(i + 1, n);
            assert(head@ =~= body@.take(i as int));
            assert(rest@ =~= body@.skip(i as int + 1));
            let angle = match parse_angle(head) {
                Some(a) => a,
                None => return None,
            };
            let stops = match parse_stops(rest) {
                Some(v) => v,
                None => return None,
            };
            if stops.len() < 2 {
                return None;
            }
            Some(FillSpec::LinearGradient { angle, stops })
        },
        None => match parse_hex_rgba(f) {
            Some(c) => Some(FillSpec::Solid(c)),
            None => None,
        },
    }
}

// ─── Kinds of node ───

/// The shapes a vector node can be made as.
#[derive(Debug, Clone, Copy, PartialEq, Eq, Structural)]
pub enum ShapeKind {
    Rect,
    Ellipse,
    Line,
    Star,
    Polygon,
}

/// The kinds of node that can be added.
#[derive(Debug, Clone, Copy, PartialEq, Eq, Structural)]
pub enum AddedKind {
    Frame,
    Group,
    Text,
    Vector(ShapeKind),
    Image,
}

/// The shape a shape name selects.
pub open spec fn shape_of(shape: Seq<char>) -> Option<ShapeKind> {
    if shape == "rect"@ {
        Some(ShapeKind::Rect)
    } else if shape == "ellipse"@ {
        Some(ShapeKind::Ellipse)
    } else if shape == "line"@ {
        Some(ShapeKind::Line)
    } else if shape == "star"@ {
        Some(ShapeKind::Star)
    } else if shape == "polygon"@ {
        Some(ShapeKind::Polygon)
    } else {
        None
    }
}

/// The default name of a vector node of a given shape name.
pub open spec fn default_shape_name(shape: Seq<char>) -> Seq<char> {
    match shape_of(shape) {
        Some(ShapeKind::Rect) => "Rectangle"@,
        Some(ShapeKind::Ellipse) => "Ellipse"@,
        Some(ShapeKind::Line) => "Line"@,
        Some(ShapeKind::Star) => "Star"@,
        Some(ShapeKind::Polygon) => "Polygon"@,
        None => "Vector"@,
    }
}

/// The kind of node an `add` request builds and its default name, or the
/// code and message of the error it is refused with: a frame and an image
/// need a width and a height, a text needs content, a vector needs a known
/// shape, and the kind must be one of frame, group, text, vector, image.
pub open spec fn kind_choice(
    kind: Seq<char>,
    has_width: bool,
    has_height: bool,
    has_content: bool,
    shape: Option<Seq<char>>,
) -> Result<(AddedKind, Seq<char>), (Seq<char>, Seq<char>)> {
    if kind == "frame"@ {
        if has_width && has_height {
            Ok((AddedKind::Frame, "Frame"@))
        } else {
            Err(("MISSING_ARG"@, "frame requires --width and --height"@))
        }
    } else if kind == "group"@ {
        Ok((AddedKind::Group, "Group"@))
    } else if kind == "text"@ {
        if has_content {
            Ok((AddedKind::Text, "Text"@))
        } else {
            Err(("MISSING_ARG"@, "text requires --content"@))
        }
    } else if kind == "vector"@ {
        match shape {
            None => Err(
                ("MISSING_ARG"@, "vector requires --shape (rect, ellipse, line, star, polygon)"@),
            ),
            Some(sh) => match shape_of(sh) {
                Some(k) => Ok((AddedKind::Vector(k), default_shape_name(sh))),
                None => Err(
                    (
                        "INVALID_SHAPE"@,
                        "unknown shape: "@ + sh + ". Use: rect, ellipse, line, star, polygon"@,
                    ),
                ),
            },
        }
    } else if kind == "image"@ {
        if has_width && has_height {
            Ok((AddedKind::Image, "Image"@))
        } else {
            Err(("MISSING_ARG"@, "image requires --width and --height"@))
        }
    } else {
        Err(
            (
                "INVALID_KIND"@,
                "unknown node kind: "@ + kind + ". Use: frame, group, text, vector, image"@,
            ),
        )
    }
}

/// Whether a kind of node holds children.
pub open spec fn holds_children(k: AddedKind) -> bool {
    k == AddedKind::Frame || k == AddedKind::Group
}

/// The shape a shape name selects.
pub fn shape_kind(shape: &str) -> (r: Option<ShapeKind>)
    ensures
        r == shape_of(shape@),
{
    if str_eq(shape, "rect") {
        Some(ShapeKind::Rect)
    } else if str_eq(shape, "ellipse") {
        Some(ShapeKind::Ellipse)
    } else if str_eq(shape, "line") {
        Some(ShapeKind::Line)
    } else if str_eq(shape, "star") {
        Some(ShapeKind::Star)
    } else if str_eq(shape, "polygon") {
        Some(ShapeKind::Polygon)
    } else {
        None
    }
}

/// The default name of a vector node of a given shape name ("Vector" for
/// an unknown shape).
pub fn shape_default_name(shape: &str) -> (r: &'static str)
    ensures
        r@ == default_shape_name(shape@),
{
    match shape_kind(shape) {
        Some(ShapeKind::Rect) => "Rectangle",
        Some(ShapeKind::Ellipse) => "Ellipse",
        Some(ShapeKind::Line) => "Line",
        Some(ShapeKind::Star) => "Star",
        Some(ShapeKind::Polygon) => "Polygon",
        None => "Vector",
    }
}

/// The code, phase and message of an error response.
pub open spec fn error_parts(e: ErrorResponse) -> (Seq<char>, Option<Seq<char>>, Seq<char>) {
    (e.code@, crate::output::opt_view(e.phase), e.message@)
}

/// Executable `kind_choice`; errors are reported in the "validate" phase.
pub fn choose_kind(
    kind: &str,
    has_width: bool,
    has_height: bool,
    has_content: bool,
    shape: Option<&str>,
) -> (r: Result<(AddedKind, &'static str), ErrorResponse>)
    ensures
        match r {
            Ok((k, name)) => kind_choice(
                kind@,
                has_width,
                has_height,
                has_content,
                match shape {
                    Some(s) => Some(s@),
                    None => None,
                },
            ) == Ok::<(AddedKind, Seq<char>), (Seq<char>, Seq<char>)>((k, name@)),
            Err(e) => {
                &&& kind_choice(
                    kind@,
                    has_width,
                    has_height,
                    has_content,
                    match shape {
                        Some(s) => Some(s@),
                        None => None,
                    },
                ) == Err::<(AddedKind, Seq<char>), (Seq<char>, Seq<char>)>((e.code@, e.message@))
                &&& crate::output::opt_view(e.phase) == Some("validate"@)
                &&& e.status@ == "error"@
                &&& e.suggestion is None
                &&& e.errors@.len() == 0
            },
        },
{
    if str_eq(kind, "frame") {
        if has_width && has_height {
            Ok((AddedKind::Frame, "Frame"))
        } else {
            Err(ErrorResponse::new("MISSING_ARG", "validate", "frame requires --width and --height"))
        }
    } else if str_eq(kind, "group") {
        Ok((AddedKind::Group, "Group"))
    } else if str_eq(kind, "text") {
        if has_content {
            Ok((AddedKind::Text, "Text"))
        } else {
            Err(ErrorResponse::new("MISSING_ARG", "validate", "text requires --content"))
        }
    } else if str_eq(kind, "vector") {
        match shape {
            None => Err(
                ErrorResponse::new(
                    "MISSING_ARG",
                    "validate",
                    "vector requires --shape (rect, ellipse, line, star, polygon)",
                ),
            ),
            Some(sh) => match shape_kind(sh) {
                Some(k) => Ok((AddedKind::Vector(k), shape_default_name(sh))),
                None => {
                    let msg = concat3(
                        "unknown shape: ",
                        sh,
                        ". Use: rect, ellipse, line, star, polygon",
                    );
                    Err(ErrorResponse::new("INVALID_SHAPE", "validate", msg.as_str()))
                },
            },
        }
    } else if str_eq(kind, "image") {
        if has_width && has_height {
            Ok((AddedKind::Image, "Image"))
        } else {
            Err(ErrorResponse::new("MISSING_ARG", "validate", "image requires --width and --height"))
        }
    } else {
        let msg = concat3(
            "unknown node kind: ",
            kind,
            ". Use: frame, group, text, vector, image",
        );
        Err(ErrorResponse::new("INVALID_KIND", "validate", msg.as_str()))
    }
}

// ─── Where the node goes ───

/// What placing a node reads of a node: its identifier and, for a node that
/// holds children, its child references.
#[derive(Debug, Clone)]
pub struct HNode {
    pub stable_id: String,
    pub children: Option<Vec<String>>,
}

/// What placing a node reads of a document: its nodes in order and its
/// canvas roots.
#[derive(Debug, Clone)]
pub struct Hierarchy {
    pub nodes: Vec<HNode>,
    pub canvas: Vec<String>,
}

/// Model of a node of a hierarchy.
pub struct HNodeView {
    pub id: Seq<char>,
    pub children: Option<Seq<Seq<char>>>,
}

/// Model of a hierarchy.
pub struct HierarchyView {
    pub nodes: Seq<HNodeView>,
    pub canvas: Seq<Seq<char>>,
}

/// Model of a sequence of strings.
pub open spec fn str_seq(v: Seq<String>) -> Seq<Seq<char>> {
    v.map_values(|s: String| s@)
}

impl View for HNode {
    type V = HNodeView;

    open spec fn view(&self) -> HNodeView {
        HNodeView {
            id: self.stable_id@,
            children: match &self.children {
                Some(c) => Some(str_seq(c@)),
                None => None,
            },
        }
    }
}

impl View for Hierarchy {
    type V = HierarchyView;

    open spec fn view(&self) -> HierarchyView {
        HierarchyView {
            nodes: self.nodes@.map_values(|n: HNode| n@),
            canvas: str_seq(self.canvas@),
        }
    }
}

/// The identifiers of the nodes, in order.
pub open spec fn node_ids(h: HierarchyView) -> Seq<Seq<char>> {
    h.nodes.map_values(|n: HNodeView| n.id)
}

/// Where a new item goes in a list of `len` items: the requested index,
/// clamped to the end of the list, or the end when none is requested.
pub open spec fn insert_at(index: Option<usize>, len: nat) -> int {
    match index {
        Some(i) => if i < len {
            i as int
        } else {
            len as int
        },
        None => len as int,
    }
}

/// The hierarchy with a new node appended: no children, and an empty child
/// list when it is a kind of node that holds children.
pub open spec fn with_node(h: HierarchyView, id: Seq<char>, container: bool) -> HierarchyView {
    HierarchyView {
        nodes: h.nodes.push(
            HNodeView {
                id,
                children: if container {
                    Some(Seq::empty())
                } else {
                    None
                },
            },
        ),
        canvas: h.canvas,
    }
}

/// The hierarchy with `id` inserted among the canvas roots.
pub open spec fn into_canvas(h: HierarchyView, id: Seq<char>, index: Option<usize>) -> HierarchyView {
    HierarchyView { nodes: h.nodes, canvas: h.canvas.insert(insert_at(index, h.canvas.len()), id) }
}

/// The hierarchy with `id` inserted among the children of node `k`, whose
/// children are `cs`.
pub open spec fn into_children(
    h: HierarchyView,
    k: int,
    cs: Seq<Seq<char>>,
    id: Seq<char>,
    index: Option<usize>,
) -> HierarchyView {
    HierarchyView {
        nodes: h.nodes.update(
            k,
            HNodeView { id: h.nodes[k].id, children: Some(cs.insert(insert_at(index, cs.len()), id)) },
        ),
        canvas: h.canvas,
    }
}

/// Adding node `id` to a hierarchy: the node is appended, then placed under
/// the requested parent ("root" for the canvas); without a request, on an
/// empty canvas as its first root, else under the first canvas root when
/// that is a node holding children, else on the canvas. The result is the
/// new hierarchy and the parent's label, or the code and message of the
/// error when the requested parent is missing or holds no children.
pub open spec fn placement(
    h: HierarchyView,
    id: Seq<char>,
    container: bool,
    parent: Option<Seq<char>>,
    index: Option<usize>,
) -> Result<(HierarchyView, Seq<char>), (Seq<char>, Seq<char>)> {
    let h1 = with_node(h, id, container);
    match parent {
        Some(p) => if p == "root"@ {
            Ok((into_canvas(h1, id, index), "root"@))
        } else {
            match first_index(node_ids(h1), p) {
                None => Err(("NOT_FOUND"@, "parent node '"@ + p + "' not found"@)),
                Some(k) => match h1.nodes[k].children {
                    None => Err(("NOT_CONTAINER"@, "node '"@ + p + "' is not a container"@)),
                    Some(cs) => Ok((into_children(h1, k, cs, id, index), p)),
                },
            }
        },
        None => if h1.canvas.len() == 0 {
            Ok((HierarchyView { nodes: h1.nodes, canvas: h1.canvas.push(id) }, "root"@))
        } else {
            let f = h1.canvas[0];
            match first_index(node_ids(h1), f) {
                Some(k) => match h1.nodes[k].children {
                    Some(cs) => Ok((into_children(h1, k, cs, id, index), f)),
                    None => Ok((into_canvas(h1, id, index), "root"@)),
                },
                None => Ok((into_canvas(h1, id, index), "root"@)),
            }
        },
    }
}

impl Hierarchy {
    /// Position of the first node with identifier `s`.
    fn find_node(&self, s: &str) -> (r: Option<usize>)
        ensures
            match r {
                Some(k) => first_index(node_ids(self@), s@) == Some(k as int) && k < self.nodes@.len(),
                None => first_index(node_ids(self@), s@) is None,
            },
    {
        let ghost ids = node_ids(self@);
        let mut i: usize = 0;
        while i < self.nodes.len()
            invariant
                0 <= i <= self.nodes@.len(),
                ids == node_ids(self@),
                ids.len() == self.nodes@.len(),
                forall|k: int| 0 <= k < self.nodes@.len() ==> #[trigger] ids[k] == self.nodes@[k].stable_id@,
                first_index(ids, s@) == index_from(ids, s@, i as int),
            decreases self.nodes@.len() - i,
        {
            if str_eq(self.nodes[i].stable_id.as_str(), s) {
                assert(ids[i as int] == s@);
                return Some(i);
            }
            i += 1;
        }
        None
    }

    /// Insert `id` on the canvas at the requested index (clamped).
    fn insert_canvas(&mut self, id: &String, index: Option<usize>)
        ensures
            final(self)@ == into_canvas(old(self)@, id@, index),
    {
        let len = self.canvas.len();
        let pos = match index {
            Some(i) => if i < len {
                i
            } else {
                len
            },
            None => len,
        };
        let ghost before = self.canvas@;
        self.canvas.insert(pos, id.clone());
        assert(str_seq(self.canvas@) =~= str_seq(before).insert(pos as int, id@));
    }

    /// Insert `id` among the children of node `k` at the requested index
    /// (clamped).
    fn insert_child(&mut self, k: usize, id: &String, index: Option<usize>)
        requires
            k < old(self).nodes@.len(),
            old(self).nodes@[k as int].children is Some,
        ensures
            final(self)@ == into_children(
                old(self)@,
                k as int,
                old(self)@.nodes[k as int].children.unwrap(),
                id@,
                index,
            ),
    {
        let ghost old_nodes = self.nodes@;
        let mut node = self.nodes.remove(k);
        let ghost cs_view = node@.children.unwrap();
        let children = node.children;
        match children {
            Some(mut cs) => {
                let len = cs.len();
                let pos = match index {
                    Some(i) => if i < len {
                        i
                    } else {
                        len
                    },
                    None => len,
                };
                let ghost before = cs@;
                cs.insert(pos, id.clone());
                assert(str_seq(cs@) =~= str_seq(before).insert(pos as int, id@));
                node.children = Some(cs);
            },
            None => {
                node.children = None;
            },
        }
        self.nodes.insert(k, node);
        assert(self.nodes@ =~= old_nodes.update(k as int, node));
        assert(self@.nodes =~= old(self)@.nodes.update(
            k as int,
            HNodeView {
                id: old(self)@.nodes[k as int].id,
                children: Some(
                    cs_view.insert(insert_at(index, cs_view.len()), id@),
                ),
            },
        ));
    }
}

/// Add node `id` (holding children when `container`) to the hierarchy and
/// place it as `placement` says; returns the parent's label, or the error
/// (in the "validate" phase) for a missing parent or one that holds no
/// children, the hierarchy then being left as it was.
pub fn place_node(
    h: &mut Hierarchy,
    id: &String,
    container: bool,
    parent: Option<&str>,
    index: Option<usize>,
) -> (r: Result<String, ErrorResponse>)
    ensures
        match placement(
            old(h)@,
            id@,
            container,
            match parent {
                Some(p) => Some(p@),
                None => None,
            },
            index,
        ) {
            Ok((h2, label)) => r matches Ok(l) && l@ == label && final(h)@ == h2,
            Err((code, message)) => r matches Err(e) && e.code@ == code && e.message@ == message
                && crate::output::opt_view(e.phase) == Some("validate"@) && e.status@ == "error"@
                && e.suggestion is None && e.errors@.len() == 0 && final(h)@ == old(h)@,
        },
{
    let ghost h0 = h@;
    let ghost old_nodes = h.nodes@;
    let empty: Vec<String> = Vec::new();
    assert(str_seq(empty@) =~= Seq::<Seq<char>>::empty());
    let new_node = HNode {
        stable_id: id.clone(),
        children: if container {
            Some(empty)
        } else {
            None
        },
    };
    h.nodes.push(new_node);
    assert(h@ =~= with_node(h0, id@, container)) by {
        assert(h@.nodes =~= h0.nodes.push(new_node@));
    }
    let ghost h1 = h@;
    match parent {
        Some(p) => {
            if str_eq(p, "root") {
                h.insert_canvas(id, index);
                Ok(String::from_str("root"))
            } else {
                match h.find_node(p) {
                    None => {
                        h.nodes.pop();
                        assert(h@ =~= h0) by {
                            assert(h.nodes@ =~= old_nodes);
                        }
                        let msg = concat3("parent node '", p, "' not found");
                        Err(ErrorResponse::new("NOT_FOUND", "validate", msg.as_str()))
                    },
                    Some(k) => {
                        assert(h1.nodes[k as int] == h.nodes@[k as int]@);
                        if h.nodes[k].children.is_some() {
                            h.insert_child(k, id, index);
                            Ok(String::from_str(p))
                        } else {
                            h.nodes.pop();
                            assert(h@ =~= h0) by {
                                assert(h.nodes@ =~= old_nodes);
                            }
                            let msg = concat3("node '", p, "' is not a container");
                            Err(ErrorResponse::new("NOT_CONTAINER", "validate", msg.as_str()))
                        }
                    },
                }
            }
        },
        None => {
            if h.canvas.len() == 0 {
                let ghost before = h.canvas@;
                h.canvas.push(id.clone());
                assert(str_seq(h.canvas@) =~= str_seq(before).push(id@));
                Ok(String::from_str("root"))
            } else {
                let first = h.canvas[0].clone();
                assert(h1.canvas[0] == first@);
                match h.find_node(first.as_str()) {
                    Some(k) => {
                        assert(h1.nodes[k as int] == h.nodes@[k as int]@);
                        if h.nodes[k].children.is_some() {
                            h.insert_child(k, id, index);
                            Ok(first)
                        } else {
                            h.insert_canvas(id, index);
                            Ok(String::from_str("root"))
                        }
                    },
                    None => {
                        h.insert_canvas(id, index);
                        Ok(String::from_str("root"))
                    },
                }
            }
        },
    }
}

// ─── Adding a node ───

/// Whether `c` belongs to the URL-safe alphabet of node identifiers:
/// `_`, `-`, digits and ASCII letters.
pub open spec fn is_id_char(c: char) -> bool {
    c == '_' || c == '-' || ('0' <= c && c <= '9') || ('a' <= c && c <= 'z') || ('A' <= c
        && c <= 'Z')
}

/// A fresh random node identifier.
///
/// Wraps `nanoid::format(nanoid::rngs::default, &nanoid::alphabet::SAFE, 21)`,
/// what `nanoid!()` expands to: it draws random bytes and keeps characters of
/// the 64-character URL-safe alphabet until it has 21 of them. Which
/// characters come out is random; only their number and alphabet are stated.
#[verifier::external_body]
fn random_stable_id() -> (r: String)
    ensures
        r@.len() == 21,
        forall|i: int| 0 <= i < 21 ==> is_id_char(#[trigger] r@[i]),
{
    nanoid::format(nanoid::rngs::default, &nanoid::alphabet::SAFE, 21)
}

/// The arguments of an `add` request that its decisions read; the sizes,
/// font and corner values are taken as given by the caller.
#[derive(Debug, Clone)]
pub struct AddArgs {
    pub kind: String,
    pub name: Option<String>,
    pub parent: Option<String>,
    pub index: Option<usize>,
    pub has_width: bool,
    pub has_height: bool,
    pub has_content: bool,
    pub shape: Option<String>,
    pub fill: Option<String>,
}

/// The report of a successful `add`.
#[derive(Debug)]
pub struct AddResponse {
    pub status: &'static str,
    pub stable_id: String,
    pub name: String,
    pub kind: String,
    pub parent: String,
}

/// What a successful `add` decided: the kind of node to build, its fill
/// color's channel bytes, and the report.
#[derive(Debug)]
pub struct AddOutcome {
    pub kind: AddedKind,
    pub fill: Option<FillSpec>,
    pub response: AddResponse,
}

/// Model of an optional string.
pub open spec fn opt_str(o: Option<String>) -> Option<Seq<char>> {
    match o {
        Some(s) => Some(s@),
        None => None,
    }
}

/// Whether the fill of a request is given and is neither a hexadecimal
/// color nor a linear gradient.
pub open spec fn bad_fill(args: AddArgs) -> bool {
    args.fill matches Some(f) && fill_choice(f@) is None
}

/// Model of an optional fill.
pub open spec fn opt_fill(o: Option<FillSpec>) -> Option<FillView> {
    match o {
        Some(x) => Some(x@),
        None => None,
    }
}

/// A stable identifier as `add` draws them: 21 characters of the URL-safe
/// alphabet.
pub open spec fn is_stable_id(id: Seq<char>) -> bool {
    id.len() == 21 && forall|i: int| 0 <= i < 21 ==> is_id_char(#[trigger] id[i])
}

/// An error response with nothing but its code, phase and message: status
/// "error", no suggestion and no validation issues.
pub open spec fn plain_error(e: ErrorResponse) -> bool {
    &&& e.status@ == "error"@
    &&& e.suggestion is None
    &&& e.errors@.len() == 0
}

/// The kind decision of a request.
pub open spec fn args_kind(args: AddArgs) -> Result<(AddedKind, Seq<char>), (Seq<char>, Seq<char>)> {
    kind_choice(args.kind@, args.has_width, args.has_height, args.has_content, opt_str(args.shape))
}

/// Add a node to a hierarchy: check the fill (error `INVALID_COLOR`
/// in the "parse" phase), decide the kind of node and its default name
/// (`kind_choice`), draw a fresh identifier, name the node (the requested
/// name or the default) and place it (`placement`).
pub fn add_node(h: &mut Hierarchy, args: &AddArgs) -> (r: Result<AddOutcome, ErrorResponse>)
    requires
        match args.fill {
            Some(f) => gradient_body(f@) is None ==> !hex_cut_inside_char(trim_hashes(f@)),
            None => true,
        },
    ensures
        bad_fill(*args) ==> {
            &&& r matches Err(e)
            &&& plain_error(e)
            &&& e.code@ == "INVALID_COLOR"@
            &&& crate::output::opt_view(e.phase) == Some("parse"@)
            &&& e.message@ == "invalid color: "@ + args.fill.unwrap()@
            &&& final(h)@ == old(h)@
        },
        !bad_fill(*args) && args_kind(*args) is Err ==> {
            &&& r matches Err(e)
            &&& plain_error(e)
            &&& args_kind(*args) == Err::<(AddedKind, Seq<char>), (Seq<char>, Seq<char>)>(
                (e.code@, e.message@),
            )
            &&& crate::output::opt_view(e.phase) == Some("validate"@)
            &&& final(h)@ == old(h)@
        },
        !bad_fill(*args) && args_kind(*args) is Ok ==> {
            let (k, default_name) = args_kind(*args)->Ok_0;
            match r {
                Ok(o) => {
                    &&& o.kind == k
                    &&& opt_fill(o.fill) == match args.fill {
                        Some(f) => fill_choice(f@),
                        None => None,
                    }
                    &&& o.response.status@ == "ok"@
                    &&& o.response.stable_id@.len() == 21
                    &&& forall|i: int| 0 <= i < 21 ==> is_id_char(#[trigger] o.response.stable_id@[i])
                    &&& o.response.name@ == match args.name {
                        Some(n) => n@,
                        None => default_name,
                    }
                    &&& o.response.kind@ == args.kind@
                    &&& placement(
                        old(h)@,
                        o.response.stable_id@,
                        holds_children(k),
                        opt_str(args.parent),
                        args.index,
                    ) == Ok::<(HierarchyView, Seq<char>), (Seq<char>, Seq<char>)>(
                        (final(h)@, o.response.parent@),
                    )
                },
                Err(e) => {
                    &&& exists|id: Seq<char>|
                        is_stable_id(id) && #[trigger] placement(
                            old(h)@,
                            id,
                            holds_children(k),
                            opt_str(args.parent),
                            args.index,
                        ) == Err::<(HierarchyView, Seq<char>), (Seq<char>, Seq<char>)>(
                            (e.code@, e.message@),
                        )
                    &&& plain_error(e)
                    &&& crate::output::opt_view(e.phase) == Some("validate"@)
                    &&& final(h)@ == old(h)@
                },
            }
        },
{
    let stable_id = random_stable_id();
    let fill = match &args.fill {
        Some(f) => match parse_fill(f.as_str()) {
            Some(c) => Some(c),
            None => {
                let msg = concat3("invalid color: ", f.as_str(), "");
                proof {
                    assert(""@ =~= Seq::<char>::empty()) by {
                        reveal_strlit("");
                    }
                }
                return Err(ErrorResponse::new("INVALID_COLOR", "parse", msg.as_str()));
            },
        },
        None => None,
    };
    let shape = match &args.shape {
        Some(s) => Some(s.as_str()),
        None => None,
    };
    let (kind, default_name) = match choose_kind(
        args.kind.as_str(),
        args.has_width,
        args.has_height,
        args.has_content,
        shape,
    ) {
        Ok(c) => c,
        Err(e) => return Err(e),
    };
    let name = match &args.name {
        Some(n) => n.clone(),
        None => String::from_str(default_name),
    };
    let container = match kind {
        AddedKind::Frame => true,
        AddedKind::Group => true,
        _ => false,
    };
    let parent = match &args.parent {
        Some(p) => Some(p.as_str()),
        None => None,
    };
    let label = match place_node(h, &stable_id, container, parent, args.index) {
        Ok(l) => l,
        Err(e) => return Err(e),
    };
    Ok(
        AddOutcome {
            kind,
            fill,
            response: AddResponse {
                status: "ok",
                stable_id,
                name,
                kind: args.kind.clone(),
                parent: label,
            },
        },
    )
}

/// The first position of `y` is kept when an item is appended.
proof fn lemma_first_index_push<A>(s: Seq<A>, x: A, y: A, k: int)
    requires
        first_index(s, y) == Some(k),
    ensures
        first_index(s.push(x), y) == Some(k),
{
    crate::seqs::lemma_index_from(s, y, 0);
    crate::seqs::lemma_index_from(s.push(x), y, 0);
    assert(s.push(x)[k] == y);
    match first_index(s.push(x), y) {
        Some(k2) => {
            if k2 < k {
                assert(s.push(x)[k2] == s[k2]);
            }
        },
        None => {},
    }
}

/// Law: a node added under a named parent that holds children, at a
/// requested index no greater than the parent's number of children, lands
/// at exactly that index among them; the other children keep their order,
/// the new node is appended to the nodes, and the canvas is unchanged.
pub proof fn law_child_lands_at_index(
    h: HierarchyView,
    id: Seq<char>,
    container: bool,
    p: Seq<char>,
    k: int,
    i: usize,
)
    requires
        p != "root"@,
        first_index(node_ids(h), p) == Some(k),
        h.nodes[k].children is Some,
        i <= h.nodes[k].children->0.len(),
    ensures
        ({
            let cs = h.nodes[k].children->0;
            placement(h, id, container, Some(p), Some(i)) matches Ok((h2, label)) && label == p
                && h2.nodes.len() == h.nodes.len() + 1 && h2.canvas == h.canvas
                && h2.nodes[k].children == Some(cs.take(i as int) + seq![id] + cs.skip(i as int))
        }),
{
    let h1 = with_node(h, id, container);
    crate::seqs::lemma_index_from(node_ids(h), p, 0);
    assert(node_ids(h1) =~= node_ids(h).push(id));
    lemma_first_index_push(node_ids(h), id, p, k);
    assert(h1.nodes[k] == h.nodes[k]);
    let cs = h.nodes[k].children->0;
    assert(cs.insert(i as int, id) =~= cs.take(i as int) + seq![id] + cs.skip(i as int));
}

/// Law: a node added on the canvas (parent "root") at a requested index no
/// greater than the number of canvas roots lands at exactly that index; the
/// other roots keep their order.
pub proof fn law_root_lands_at_index(h: HierarchyView, id: Seq<char>, container: bool, i: usize)
    requires
        i <= h.canvas.len(),
    ensures
        placement(h, id, container, Some("root"@), Some(i)) matches Ok((h2, label)) && label
            == "root"@ && h2.nodes.len() == h.nodes.len() + 1 && h2.canvas == h.canvas.take(i as int)
            + seq![id] + h.canvas.skip(i as int),
{
    assert(h.canvas.insert(i as int, id) =~= h.canvas.take(i as int) + seq![id] + h.canvas.skip(
        i as int,
    ));
}

} // verus!
