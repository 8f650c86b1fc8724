use vstd::prelude::*;

use crate::markup::{AnsiError, ColorDirective, DirModel, Ground};
use crate::util::{
    alpha, digit, digit_val, hex_digit, hex_val, hex_value, is_alpha, is_digit, is_hex_digit,
    is_space, is_word_char, lower_char, space, to_lower, word_char,
};

verus! {

// ---------------------------------------------------------------------------
// The color-specification grammar, as a mathematical function of the input.
//
// A specification is a sequence of whitespace-separated tokens, each matched
// against these forms, first match wins:
//   1. a run of alphabetic words        -> NamedAttributes
//   2. a bare decimal number (<= 255)   -> PaletteIndex
//   3. `<r g b>` decimals (each <= 255) -> Rgb
//   4. `#RRGGBB`                        -> LongHex
//   5. `<#RRGGBB>`                      -> LongHex
//   6. `+name`                          -> NamedColor
// The first directive is foreground; a literal `/` token switches all later
// directives to background.  A spec containing the word `clear` or `reset`
// collapses to a single `ClearAll` directive with ground `Unset`.
// ---------------------------------------------------------------------------
/// First position at or after `i` that does not hold a space.
pub open spec fn skip_spaces(s: Seq<char>, i: int) -> int
    decreases s.len() - i,
{
    if i < 0 || i >= s.len() || !is_space(s[i]) {
        i
    } else {
        skip_spaces(s, i + 1)
    }
}

/// First position at or after `i` that is neither alphabetic nor a space.
pub open spec fn letters_end(s: Seq<char>, i: int) -> int
    decreases s.len() - i,
{
    if i < 0 || i >= s.len() || !(is_alpha(s[i]) || is_space(s[i])) {
        i
    } else {
        letters_end(s, i + 1)
    }
}

/// Largest `k` in `(i, j]` with an alphabetic character at `k - 1`, or `i`.
pub open spec fn trim_back(s: Seq<char>, i: int, j: int) -> int
    decreases j - i,
{
    if j <= i {
        i
    } else if 0 <= j - 1 < s.len() && is_alpha(s[j - 1]) {
        j
    } else {
        trim_back(s, i, j - 1)
    }
}

/// First position at or after `i` (bounded by `k`) without an alphabetic
/// character.
pub open spec fn alpha_end(s: Seq<char>, i: int, k: int) -> int
    decreases k - i,
{
    if i < 0 || i >= k || i >= s.len() || !is_alpha(s[i]) {
        i
    } else {
        alpha_end(s, i + 1, k)
    }
}

/// First position at or after `i` without a decimal digit.
pub open spec fn digits_end(s: Seq<char>, i: int) -> int
    decreases s.len() - i,
{
    if i < 0 || i >= s.len() || !is_digit(s[i]) {
        i
    } else {
        digits_end(s, i + 1)
    }
}

/// First position at or after `i` without a hexadecimal digit.
pub open spec fn hex_end(s: Seq<char>, i: int) -> int
    decreases s.len() - i,
{
    if i < 0 || i >= s.len() || !is_hex_digit(s[i]) {
        i
    } else {
        hex_end(s, i + 1)
    }
}

/// First position at or after `i` without a word character.
pub open spec fn word_run_end(s: Seq<char>, i: int) -> int
    decreases s.len() - i,
{
    if i < 0 || i >= s.len() || !is_word_char(s[i]) {
        i
    } else {
        word_run_end(s, i + 1)
    }
}

pub open spec fn lower_seq(w: Seq<char>) -> Seq<char> {
    w.map_values(|c: char| lower_char(c))
}

/// Value of the digit run `[i, j)`, saturated at 256 so that "over 255" is
/// preserved without unbounded growth.
pub open spec fn sat_val(s: Seq<char>, i: int, j: int) -> int
    decreases j - i,
{
    if j <= i || j - 1 >= s.len() || j - 1 < 0 {
        0
    } else {
        let p = sat_val(s, i, j - 1);
        let v = p * 10 + digit_val(s[j - 1]);
        if v > 256 {
            256
        } else {
            v
        }
    }
}

/// The lowercased words of the letters run `[i, k)`.
pub open spec fn words_in(s: Seq<char>, i: int, k: int) -> Seq<Seq<char>>
    decreases k - i,
{
    if i < 0 || i >= k || i > s.len() {
        Seq::empty()
    } else if i < s.len() && is_space(s[i]) {
        words_in(s, i + 1, k)
    } else {
        let e0 = alpha_end(s, i, k);
        let e = if e0 > k {
            k
        } else {
            e0
        };
        if e <= i {
            Seq::empty()
        } else {
            seq![lower_seq(s.subrange(i, e))] + words_in(s, e, k)
        }
    }
}

/// Hex byte value at positions `p`, `p + 1`.
pub open spec fn hex_byte(s: Seq<char>, p: int) -> int {
    hex_val(s[p]) * 16 + hex_val(s[p + 1])
}

/// The token starting at position `i` (not a space), and the position right
/// after it: the six grammar forms in priority order, plus the errors that
/// end resolution (an over-255 component, a broken bracket or hex form, a
/// character no form accepts).
pub open spec fn token_at(s: Seq<char>, i: int) -> (Result<DirModel, AnsiError>, int)
    recommends
        0 <= i < s.len(),
        !is_space(s[i]),
{
    if is_alpha(s[i]) {
        let e = letters_end(s, i);
        let k = trim_back(s, i, e);
        if e < s.len() && k == e && is_word_char(s[e]) {
            (Err(AnsiError::InvalidColorSpec), e)
        } else {
            (Ok(DirModel::NamedAttributes(words_in(s, i, k))), k)
        }
    } else if is_digit(s[i]) {
        let e = digits_end(s, i);
        let v = sat_val(s, i, e);
        if e < s.len() && is_word_char(s[e]) {
            (Err(AnsiError::InvalidColorSpec), e)
        } else if v > 255 {
            (Err(AnsiError::InvalidColorSpec), e)
        } else {
            (Ok(DirModel::PaletteIndex(v as u8)), e)
        }
    } else if s[i] == '<' {
        if i + 1 < s.len() && s[i + 1] == '#' {
            hex2_at(s, i)
        } else {
            rgb_at(s, i)
        }
    } else if s[i] == '#' {
        hex1_at(s, i)
    } else if s[i] == '+' {
        name_at(s, i)
    } else {
        (Err(AnsiError::InvalidColorSpec), i + 1)
    }
}

/// `<r g b>`: three decimal components inside angle brackets, each at most
/// 255, separated by at least one space.
pub open spec fn rgb_at(s: Seq<char>, i: int) -> (Result<DirModel, AnsiError>, int) {
    let e1 = digits_end(s, i + 1);
    let sp1 = skip_spaces(s, e1);
    let e2 = digits_end(s, sp1);
    let sp2 = skip_spaces(s, e2);
    let e3 = digits_end(s, sp2);
    if e1 == i + 1 || sp1 == e1 || e2 == sp1 || sp2 == e2 || e3 == sp2 {
        (Err(AnsiError::InvalidColorSpec), i + 1)
    } else if e3 >= s.len() || s[e3] != '>' {
        (Err(AnsiError::InvalidColorSpec), i + 1)
    } else if sat_val(s, i + 1, e1) > 255 || sat_val(s, sp1, e2) > 255 || sat_val(s, sp2, e3)
        > 255 {
        (Err(AnsiError::InvalidColorSpec), i + 1)
    } else {
        (
            Ok(
                DirModel::Rgb(
                    sat_val(s, i + 1, e1) as u8,
                    sat_val(s, sp1, e2) as u8,
                    sat_val(s, sp2, e3) as u8,
                ),
            ),
            e3 + 1,
        )
    }
}

/// `#RRGGBB`: exactly six hex digits, ending at a word boundary.
pub open spec fn hex1_at(s: Seq<char>, i: int) -> (Result<DirModel, AnsiError>, int) {
    let h = hex_end(s, i + 1);
    if h != i + 7 {
        (Err(AnsiError::InvalidColorSpec), i + 1)
    } else if h < s.len() && is_word_char(s[h]) {
        (Err(AnsiError::InvalidColorSpec), i + 1)
    } else {
        (
            Ok(
                DirModel::LongHex(
                    hex_byte(s, i + 1) as u8,
                    hex_byte(s, i + 3) as u8,
                    hex_byte(s, i + 5) as u8,
                ),
            ),
            h,
        )
    }
}

/// `<#RRGGBB>`: the same wrapped in angle brackets.
pub open spec fn hex2_at(s: Seq<char>, i: int) -> (Result<DirModel, AnsiError>, int) {
    let h = hex_end(s, i + 2);
    if h != i + 8 || h >= s.len() || s[h] != '>' {
        (Err(AnsiError::InvalidColorSpec), i + 1)
    } else {
        (
            Ok(
                DirModel::LongHex(
                    hex_byte(s, i + 2) as u8,
                    hex_byte(s, i + 4) as u8,
                    hex_byte(s, i + 6) as u8,
                ),
            ),
            h + 1,
        )
    }
}

/// `+name`: a `+`-prefixed identifier, lowercased, resolved later against
/// the palette.
pub open spec fn name_at(s: Seq<char>, i: int) -> (Result<DirModel, AnsiError>, int) {
    let e = word_run_end(s, i + 1);
    if e == i + 1 {
        (Err(AnsiError::InvalidColorSpec), i + 1)
    } else {
        (Ok(DirModel::NamedColor(lower_seq(s.subrange(i + 1, e)))), e)
    }
}

/// All directives from position `i` on, under the current ground `g`.
pub open spec fn cds(s: Seq<char>, i: int, g: Ground) -> Result<
    Seq<(DirModel, Ground)>,
    AnsiError,
>
    decreases s.len() - i,
{
    if i < 0 || i >= s.len() {
        Ok(Seq::empty())
    } else if is_space(s[i]) {
        cds(s, i + 1, g)
    } else if s[i] == '/' {
        cds(s, i + 1, Ground::Background)
    } else {
        let (r, j) = token_at(s, i);
        let j2 = if j <= i {
            i + 1
        } else if j > s.len() {
            s.len() as int
        } else {
            j
        };
        match r {
            Err(e) => Err(e),
            Ok(d) => match cds(s, j2, g) {
                Err(e) => Err(e),
                Ok(rest) => Ok(seq![(d, g)] + rest),
            },
        }
    }
}

pub open spec fn is_clear_word(w: Seq<char>) -> bool {
    w == seq!['c', 'l', 'e', 'a', 'r'] || w == seq!['r', 'e', 's', 'e', 't']
}

/// Whether a word list holds a `clear`/`reset` word.
pub open spec fn some_word_clear(ws: Seq<Seq<char>>) -> bool {
    exists|b: int| 0 <= b < ws.len() && is_clear_word(#[trigger] ws[b])
}

/// Whether one directive holds a `clear`/`reset` attribute word.
pub open spec fn dir_has_clear(d: DirModel) -> bool {
    match d {
        DirModel::NamedAttributes(ws) => some_word_clear(ws),
        _ => false,
    }
}

/// Whether some attribute word of some directive asks for a full reset.
pub open spec fn has_clear(ds: Seq<(DirModel, Ground)>) -> bool {
    exists|a: int| 0 <= a < ds.len() && dir_has_clear(#[trigger] ds[a].0)
}

/// What resolving a color specification yields: the ordered directives with
/// their grounds, a lone `ClearAll` when a `clear`/`reset` word occurs, or
/// `InvalidColorSpec`.
pub open spec fn color_directives(s: Seq<char>) -> Result<Seq<(DirModel, Ground)>, AnsiError> {
    match cds(s, 0, Ground::Foreground) {
        Err(e) => Err(e),
        Ok(ds) => if has_clear(ds) {
            Ok(seq![(DirModel::ClearAll, Ground::Unset)])
        } else {
            Ok(ds)
        },
    }
}

// ---------------------------------------------------------------------------
// Executable counterparts.
// ---------------------------------------------------------------------------
pub(crate) fn skip_spaces_exec(s: &Vec<char>, i: usize) -> (r: usize)
    requires
        i <= s@.len(),
    ensures
        r == skip_spaces(s@, i as int),
        i <= r <= s@.len(),
        forall|p: int| i <= p < r ==> is_space(#[trigger] s@[p]),
    decreases s@.len() - i,
{
    if i < s.len() && space(s[i]) {
        skip_spaces_exec(s, i + 1)
    } else {
        i
    }
}

pub(crate) fn letters_end_exec(s: &Vec<char>, i: usize) -> (r: usize)
    requires
        i <= s@.len(),
    ensures
        r == letters_end(s@, i as int),
        i <= r <= s@.len(),
        i < s@.len() && (is_alpha(s@[i as int]) || is_space(s@[i as int])) ==> i < r,
    decreases s@.len() - i,
{
    if i < s.len() && (alpha(s[i]) || space(s[i])) {
        letters_end_exec(s, i + 1)
    } else {
        i
    }
}

pub(crate) fn trim_back_exec(s: &Vec<char>, i: usize, j: usize) -> (r: usize)
    requires
        i <= j <= s@.len(),
    ensures
        r == trim_back(s@, i as int, j as int),
        i <= r <= j,
        i < j && is_alpha(s@[i as int]) ==> i < r,
    decreases j - i,
{
    if j <= i {
        i
    } else if alpha(s[j - 1]) {
        j
    } else {
        trim_back_exec(s, i, j - 1)
    }
}

pub(crate) fn alpha_end_exec(s: &Vec<char>, i: usize, k: usize) -> (r: usize)
    requires
        i <= k <= s@.len(),
    ensures
        r == alpha_end(s@, i as int, k as int),
        i <= r <= k,
    decreases k - i,
{
    if i < k && alpha(s[i]) {
        alpha_end_exec(s, i + 1, k)
    } else {
        i
    }
}

pub(crate) fn digits_end_exec(s: &Vec<char>, i: usize) -> (r: usize)
    requires
        i <= s@.len(),
    ensures
        r == digits_end(s@, i as int),
        i <= r <= s@.len(),
        forall|p: int| i <= p < r ==> is_digit(#[trigger] s@[p]),
        i < s@.len() && is_digit(s@[i as int]) ==> i < r,
    decreases s@.len() - i,
{
    if i < s.len() && digit(s[i]) {
        digits_end_exec(s, i + 1)
    } else {
        i
    }
}

pub(crate) fn hex_end_exec(s: &Vec<char>, i: usize) -> (r: usize)
    requires
        i <= s@.len(),
    ensures
        r == hex_end(s@, i as int),
        i <= r <= s@.len(),
        forall|p: int| i <= p < r ==> is_hex_digit(#[trigger] s@[p]),
        i < s@.len() && is_hex_digit(s@[i as int]) ==> i < r,
    decreases s@.len() - i,
{
    if i < s.len() && hex_digit(s[i]) {
        hex_end_exec(s, i + 1)
    } else {
        i
    }
}

pub(crate) fn word_run_end_exec(s: &Vec<char>, i: usize) -> (r: usize)
    requires
        i <= s@.len(),
    ensures
        r == word_run_end(s@, i as int),
        i <= r <= s@.len(),
    decreases s@.len() - i,
{
    if i < s.len() && word_char(s[i]) {
        word_run_end_exec(s, i + 1)
    } else {
        i
    }
}

/// Saturated decimal value of the digit run `[i, j)`.
pub(crate) fn sat_val_exec(s: &Vec<char>, i: usize, j: usize) -> (r: u32)
    requires
        i <= j <= s@.len(),
        forall|p: int| i <= p < j ==> is_digit(s@[p]),
    ensures
        r == sat_val(s@, i as int, j as int),
        r <= 256,
    decreases j - i,
{
    if j <= i {
        0
    } else {
        let p = sat_val_exec(s, i, j - 1);
        let v = p * 10 + (s[j - 1] as u32 - '0' as u32);
        if v > 256 {
            256
        } else {
            v
        }
    }
}

/// Lowercased copy of the characters `[i, e)`.
pub(crate) fn lower_word(s: &Vec<char>, i: usize, e: usize) -> (r: String)
    requires
        i <= e <= s@.len(),
    ensures
        r@ == lower_seq(s@.subrange(i as int, e as int)),
{
    let mut w = String::new();
    let mut p = i;
    while p < e
        invariant
            i <= p <= e <= s@.len(),
            w@ == lower_seq(s@.subrange(i as int, p as int)),
        decreases e - p,
    {
        crate::util::push_char(&mut w, to_lower(s[p]));
        proof {
            assert(s@.subrange(i as int, p + 1) =~= s@.subrange(i as int, p as int).push(
                s@[p as int],
            ));
            assert(lower_seq(s@.subrange(i as int, p + 1)) =~= lower_seq(
                s@.subrange(i as int, p as int),
            ).push(lower_char(s@[p as int])));
        }
        p = p + 1;
    }
    w
}

pub(crate) fn words_in_exec(s: &Vec<char>, i: usize, k: usize) -> (r: Vec<String>)
    requires
        i <= s@.len(),
        k <= s@.len(),
    ensures
        r@.map_values(|w: String| w@) == words_in(s@, i as int, k as int),
    decreases k - i,
{
    if i >= k {
        let r: Vec<String> = Vec::new();
        proof {
            assert(r@.map_values(|w: String| w@) =~= words_in(s@, i as int, k as int));
        }
        r
    } else if space(s[i]) {
        words_in_exec(s, i + 1, k)
    } else {
        let e = alpha_end_exec(s, i, k);
        if e <= i {
            let r: Vec<String> = Vec::new();
            proof {
                assert(r@.map_values(|w: String| w@) =~= words_in(s@, i as int, k as int));
            }
            r
        } else {
            let w = lower_word(s, i, e);
            let mut rest = words_in_exec(s, e, k);
            let mut r: Vec<String> = Vec::new();
            r.push(w);
            r.append(&mut rest);
            proof {
                assert(r@.map_values(|ww: String| ww@) =~= seq![
                    lower_seq(s@.subrange(i as int, e as int)),
                ] + words_in(s@, e as int, k as int));
            }
            r
        }
    }
}

pub(crate) fn hex_byte_exec(c1: char, c2: char) -> (r: u8)
    requires
        is_hex_digit(c1),
        is_hex_digit(c2),
    ensures
        r == hex_val(c1) * 16 + hex_val(c2),
{
    (hex_value(c1) * 16 + hex_value(c2)) as u8
}

/// One token of the color grammar, starting at the non-space position `i`.
pub(crate) fn token_at_exec(s: &Vec<char>, i: usize) -> (r: (
    Result<ColorDirective, AnsiError>,
    usize,
))
    requires
        i < s@.len(),
        !is_space(s@[i as int]),
    ensures
        match r.0 {
            Ok(d) => token_at(s@, i as int) == (Ok::<DirModel, AnsiError>(d@), r.1 as int),
            Err(e) => token_at(s@, i as int).0 == Err::<DirModel, AnsiError>(e),
        },
        i < r.1 <= s@.len(),
{
    let n = s.len();
    if alpha(s[i]) {
        let e = letters_end_exec(s, i);
        let k = trim_back_exec(s, i, e);
        if e < n && k == e && word_char(s[e]) {
            (Err(AnsiError::InvalidColorSpec), e)
        } else {
            let ws = words_in_exec(s, i, k);
            (Ok(ColorDirective::NamedAttributes(ws)), k)
        }
    } else if digit(s[i]) {
        let e = digits_end_exec(s, i);
        let v = sat_val_exec(s, i, e);
        if e < n && word_char(s[e]) {
            (Err(AnsiError::InvalidColorSpec), e)
        } else if v > 255 {
            (Err(AnsiError::InvalidColorSpec), e)
        } else {
            (Ok(ColorDirective::PaletteIndex(v as u8)), e)
        }
    } else if s[i] == '<' {
        if i + 1 < n && s[i + 1] == '#' {
            let h = hex_end_exec(s, i + 2);
            if h - (i + 2) != 6 || h >= n || s[h] != '>' {
                (Err(AnsiError::InvalidColorSpec), i + 1)
            } else {
                let r = hex_byte_exec(s[i + 2], s[i + 3]);
                let g = hex_byte_exec(s[i + 4], s[i + 5]);
                let b = hex_byte_exec(s[i + 6], s[i + 7]);
                (Ok(ColorDirective::LongHex(r, g, b)), h + 1)
            }
        } else {
            let e1 = digits_end_exec(s, i + 1);
            let sp1 = skip_spaces_exec(s, e1);
            let e2 = digits_end_exec(s, sp1);
            let sp2 = skip_spaces_exec(s, e2);
            let e3 = digits_end_exec(s, sp2);
            if e1 == i + 1 || sp1 == e1 || e2 == sp1 || sp2 == e2 || e3 == sp2 {
                (Err(AnsiError::InvalidColorSpec), i + 1)
            } else if e3 >= n || s[e3] != '>' {
                (Err(AnsiError::InvalidColorSpec), i + 1)
            } else {
                let v1 = sat_val_exec(s, i + 1, e1);
                let v2 = sat_val_exec(s, sp1, e2);
                let v3 = sat_val_exec(s, sp2, e3);
                if v1 > 255 || v2 > 255 || v3 > 255 {
                    (Err(AnsiError::InvalidColorSpec), i + 1)
                } else {
                    (Ok(ColorDirective::Rgb(v1 as u8, v2 as u8, v3 as u8)), e3 + 1)
                }
            }
        }
    } else if s[i] == '#' {
        let h = hex_end_exec(s, i + 1);
        if h - (i + 1) != 6 {
            (Err(AnsiError::InvalidColorSpec), i + 1)
        } else if h < n && word_char(s[h]) {
            (Err(AnsiError::InvalidColorSpec), i + 1)
        } else {
            let r = hex_byte_exec(s[i + 1], s[i + 2]);
            let g = hex_byte_exec(s[i + 3], s[i + 4]);
            let b = hex_byte_exec(s[i + 5], s[i + 6]);
            (Ok(ColorDirective::LongHex(r, g, b)), h)
        }
    } else if s[i] == '+' {
        let e = word_run_end_exec(s, i + 1);
        if e == i + 1 {
            (Err(AnsiError::InvalidColorSpec), i + 1)
        } else {
            let w = lower_word(s, i + 1, e);
            (Ok(ColorDirective::NamedColor(w)), e)
        }
    } else {
        (Err(AnsiError::InvalidColorSpec), i + 1)
    }
}

/// View of an executable directive list as its model.
pub open spec fn dirs_view(v: Seq<(ColorDirective, Ground)>) -> Seq<(DirModel, Ground)> {
    v.map_values(|p: (ColorDirective, Ground)| (p.0@, p.1))
}

pub(crate) fn cds_exec(s: &Vec<char>, i: usize, g: Ground) -> (r: Result<
    Vec<(ColorDirective, Ground)>,
    AnsiError,
>)
    requires
        i <= s@.len(),
    ensures
        match r {
            Ok(v) => cds(s@, i as int, g) == Ok::<Seq<(DirModel, Ground)>, AnsiError>(dirs_view(v@)),
            Err(e) => cds(s@, i as int, g) == Err::<Seq<(DirModel, Ground)>, AnsiError>(e),
        },
    decreases s@.len() - i,
{
    if i >= s.len() {
        let v: Vec<(ColorDirective, Ground)> = Vec::new();
        proof {
            assert(dirs_view(v@) =~= Seq::<(DirModel, Ground)>::empty());
        }
        Ok(v)
    } else if space(s[i]) {
        cds_exec(s, i + 1, g)
    } else if s[i] == '/' {
        cds_exec(s, i + 1, Ground::Background)
    } else {
        let (tr, j) = token_at_exec(s, i);
        match tr {
            Err(e) => Err(e),
            Ok(d) => {
                match cds_exec(s, j, g) {
                    Err(e) => Err(e),
                    Ok(mut rest) => {
                        let ghost dm = d@;
                        let ghost restv = dirs_view(rest@);
                        let mut v: Vec<(ColorDirective, Ground)> = Vec::new();
                        v.push((d, g));
                        v.append(&mut rest);
                        proof {
                            assert(dirs_view(v@) =~= seq![(dm, g)] + restv);
                        }
                        Ok(v)
                    },
                }
            },
        }
    }
}

fn is_clear_word_exec(w: &String) -> (r: bool)
    ensures
        r == is_clear_word(w@),
{
    let s = w.as_str();
    if s.unicode_len() != 5 {
        proof {
            assert(seq!['c', 'l', 'e', 'a', 'r'].len() == 5);
            assert(seq!['r', 'e', 's', 'e', 't'].len() == 5);
        }
        return false;
    }
    let c0 = s.get_char(0);
    let c1 = s.get_char(1);
    let c2 = s.get_char(2);
    let c3 = s.get_char(3);
    let c4 = s.get_char(4);
    let clear = c0 == 'c' && c1 == 'l' && c2 == 'e' && c3 == 'a' && c4 == 'r';
    let reset = c0 == 'r' && c1 == 'e' && c2 == 's' && c3 == 'e' && c4 == 't';
    proof {
        if clear {
            assert(w@ =~= seq!['c', 'l', 'e', 'a', 'r']);
        }
        if reset {
            assert(w@ =~= seq!['r', 'e', 's', 'e', 't']);
        }
        if !clear {
            assert(w@ != seq!['c', 'l', 'e', 'a', 'r']);
        }
        if !reset {
            assert(w@ != seq!['r', 'e', 's', 'e', 't']);
        }
    }
    clear || reset
}

fn words_have_clear(ws: &Vec<String>) -> (r: bool)
    ensures
        r == dir_has_clear(DirModel::NamedAttributes(ws@.map_values(|w: String| w@))),
{
    let ghost m = ws@.map_values(|w: String| w@);
    let mut b: usize = 0;
    while b < ws.len()
        invariant
            b <= ws@.len(),
            m == ws@.map_values(|w: String| w@),
            forall|y: int| 0 <= y < b ==> !is_clear_word(#[trigger] m[y]),
        decreases ws@.len() - b,
    {
        if is_clear_word_exec(&ws[b]) {
            proof {
                assert(m[b as int] == ws@[b as int]@);
                assert(0 <= (b as int) && (b as int) < m.len() && is_clear_word(m[b as int]));
                assert(some_word_clear(m));
            }
            return true;
        }
        b = b + 1;
    }
    false
}

fn has_clear_exec(v: &Vec<(ColorDirective, Ground)>) -> (r: bool)
    ensures
        r == has_clear(dirs_view(v@)),
{
    let ghost dv = dirs_view(v@);
    let mut a: usize = 0;
    while a < v.len()
        invariant
            a <= v@.len(),
            dv == dirs_view(v@),
            dv.len() == v@.len(),
            forall|x: int| 0 <= x < a ==> !dir_has_clear(#[trigger] dv[x].0),
        decreases v@.len() - a,
    {
        let found = match &v[a].0 {
            ColorDirective::NamedAttributes(ws) => {
                proof {
                    assert(dv[a as int].0 == DirModel::NamedAttributes(
                        ws@.map_values(|w: String| w@),
                    ));
                }
                words_have_clear(ws)
            },
            _ => false,
        };
        if found {
            proof {
                assert(dir_has_clear(dv[a as int].0));
            }
            return true;
        }
        proof {
            assert(!dir_has_clear(dv[a as int].0));
        }
        a = a + 1;
    }
    false
}

impl crate::markup::AnsiString {
    /// Resolves a color-specification string into its ordered directives, or
    /// fails with `InvalidColorSpec` exactly when the grammar rejects it.
    pub fn validate_color_codes(src: &str) -> (r: Result<
        Vec<(ColorDirective, Ground)>,
        AnsiError,
    >)
        ensures
            match r {
                Ok(v) => color_directives(src@) == Ok::<Seq<(DirModel, Ground)>, AnsiError>(
                    dirs_view(v@),
                ),
                Err(e) => color_directives(src@) == Err::<Seq<(DirModel, Ground)>, AnsiError>(e),
            },
    {
        let chars = crate::util::str_to_chars(src);
        match cds_exec(&chars, 0, Ground::Foreground) {
            Err(e) => Err(e),
            Ok(v) => {
                if has_clear_exec(&v) {
                    let mut out: Vec<(ColorDirective, Ground)> = Vec::new();
                    out.push((ColorDirective::ClearAll, Ground::Unset));
                    proof {
                        assert(dirs_view(out@) =~= seq![(DirModel::ClearAll, Ground::Unset)]);
                    }
                    Ok(out)
                } else {
                    Ok(v)
                }
            },
        }
    }
}

} // verus!
