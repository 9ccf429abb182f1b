//! The JSON text grammar: parsing wire text into a [`Json`] tree and
//! serializing a tree back to text.
//!
//! The grammar is stated operationally as spec functions over a
//! sequence of characters and a cursor position; the executable parser
//! and serializer are proved to agree with them exactly. Parsing is a
//! single left-to-right pass with one character of lookahead and no
//! backtracking.

use vstd::prelude::*;
use crate::json::Json;
use crate::json::JsonV;
use crate::json::Member;
use crate::json::views_of;
use crate::json::member_views;
use vstd::string::StrSliceExecFns;
use vstd::string::StringExecFns;

verus! {

broadcast use vstd::std_specs::vec::group_vec_axioms, vstd::seq::group_seq_axioms, vstd::utf8::char_u32_cast, vstd::utf8::char_is_scalar;

/// JSON insignificant whitespace.
pub open spec fn is_ws(c: char) -> bool {
    c == ' ' || c == '\t' || c == '\n' || c == '\r'
}

/// An ASCII decimal digit.
pub open spec fn is_digit_c(c: char) -> bool {
    '0' <= c && c <= '9'
}

/// The numeric value of a decimal digit character; -1 elsewhere.
pub open spec fn dval(c: char) -> int {
    if c == '0' { 0 } else if c == '1' { 1 } else if c == '2' { 2 } else if c == '3' { 3 }
    else if c == '4' { 4 } else if c == '5' { 5 } else if c == '6' { 6 } else if c == '7' { 7 }
    else if c == '8' { 8 } else if c == '9' { 9 } else { -1 }
}

/// The decimal digit character for a value in `0..=9`; '0' elsewhere.
pub open spec fn digit_char(n: int) -> char {
    if n == 1 { '1' } else if n == 2 { '2' } else if n == 3 { '3' } else if n == 4 { '4' }
    else if n == 5 { '5' } else if n == 6 { '6' } else if n == 7 { '7' } else if n == 8 { '8' }
    else if n == 9 { '9' } else { '0' }
}

/// The first position at or after `pos` that holds no whitespace.
pub open spec fn skip_ws(s: Seq<char>, pos: int) -> int
    decreases s.len() - pos,
{
    if 0 <= pos < s.len() && is_ws(s[pos]) {
        skip_ws(s, pos + 1)
    } else {
        pos
    }
}

/// `skip_ws`, clamped so that it can never move backwards; used in the
/// grammar definitions so that termination is plain from the text.
pub open spec fn ws_from(s: Seq<char>, pos: int) -> int {
    if skip_ws(s, pos) < pos {
        pos
    } else {
        skip_ws(s, pos)
    }
}

/// The first position at or after `pos` that holds no decimal digit.
pub open spec fn digit_end(s: Seq<char>, pos: int) -> int
    decreases s.len() - pos,
{
    if 0 <= pos < s.len() && is_digit_c(s[pos]) {
        digit_end(s, pos + 1)
    } else {
        pos
    }
}

/// `digit_end` never moves backwards, never leaves the text, and
/// everything it passed over is a digit.
pub proof fn lemma_digit_end(s: Seq<char>, pos: int)
    requires
        0 <= pos <= s.len(),
    ensures
        pos <= digit_end(s, pos) <= s.len(),
        digit_end(s, pos) < s.len() ==> !is_digit_c(s[digit_end(s, pos)]),
        forall|k: int| pos <= k < digit_end(s, pos) ==> is_digit_c(s[k]),
    decreases s.len() - pos,
{
    if pos < s.len() && is_digit_c(s[pos]) {
        lemma_digit_end(s, pos + 1);
    }
}

/// The value of the decimal digit run `s[a..b]`.
pub open spec fn dec_val(s: Seq<char>, a: int, b: int) -> int
    decreases b - a,
{
    if b <= a {
        0
    } else {
        dec_val(s, a, b - 1) * 10 + dval(s[b - 1])
    }
}

/// The decimal digit string of a non-negative integer, most
/// significant digit first.
pub open spec fn dec_digits(n: int) -> Seq<char>
    decreases n,
{
    if n < 10 {
        seq![digit_char(n)]
    } else {
        dec_digits(n / 10).push(digit_char(n % 10))
    }
}

/// The value of a hexadecimal digit character; -1 elsewhere.
pub open spec fn hval(c: char) -> int {
    if is_digit_c(c) { dval(c) }
    else if c == 'a' || c == 'A' { 10 }
    else if c == 'b' || c == 'B' { 11 }
    else if c == 'c' || c == 'C' { 12 }
    else if c == 'd' || c == 'D' { 13 }
    else if c == 'e' || c == 'E' { 14 }
    else if c == 'f' || c == 'F' { 15 }
    else { -1 }
}

/// A hexadecimal digit character.
pub open spec fn is_hex_c(c: char) -> bool {
    hval(c) >= 0
}

/// The lower-case hexadecimal digit character for a value in
/// `0..=15`; '0' elsewhere.
pub open spec fn hex_char(n: int) -> char {
    if 0 <= n <= 9 { digit_char(n) }
    else if n == 10 { 'a' } else if n == 11 { 'b' } else if n == 12 { 'c' }
    else if n == 13 { 'd' } else if n == 14 { 'e' } else if n == 15 { 'f' }
    else { '0' }
}

/// Whether four hexadecimal digits stand at `pos`.
pub open spec fn hex4_at(s: Seq<char>, pos: int) -> bool {
    pos >= 0 && pos + 4 <= s.len() && is_hex_c(s[pos]) && is_hex_c(s[pos + 1]) && is_hex_c(
        s[pos + 2],
    ) && is_hex_c(s[pos + 3])
}

/// The value of the four hexadecimal digits at `pos`.
pub open spec fn hex4_val(s: Seq<char>, pos: int) -> int {
    hval(s[pos]) * 0x1000 + hval(s[pos + 1]) * 0x100 + hval(s[pos + 2]) * 16 + hval(s[pos + 3])
}

/// The character with the given Unicode code point.
pub open spec fn char_of(cp: int) -> char {
    (cp as u32) as char
}

/// A UTF-16 code unit in the high-surrogate range.
pub open spec fn is_high_surrogate(cu: int) -> bool {
    0xD800 <= cu < 0xDC00
}

/// A UTF-16 code unit in the low-surrogate range.
pub open spec fn is_low_surrogate(cu: int) -> bool {
    0xDC00 <= cu < 0xE000
}

/// The code point a surrogate pair stands for.
pub open spec fn surrogate_value(hi: int, lo: int) -> int {
    0x10000 + (hi - 0xD800) * 0x400 + (lo - 0xDC00)
}

/// The escaped form of one character inside a JSON string literal:
/// quote and backslash take their own escapes, the named control
/// characters take their short escapes, every other control character
/// takes its `\u` form, and the rest stand raw.
pub open spec fn esc_char(c: char) -> Seq<char> {
    if c == '"' || c == '\\' {
        seq!['\\', c]
    } else if c == '\n' {
        seq!['\\', 'n']
    } else if c == '\t' {
        seq!['\\', 't']
    } else if c == '\r' {
        seq!['\\', 'r']
    } else if c == '\u{8}' {
        seq!['\\', 'b']
    } else if c == '\u{c}' {
        seq!['\\', 'f']
    } else if (c as u32) < 0x20 {
        seq!['\\', 'u', '0', '0', hex_char(c as u32 as int / 16), hex_char(c as u32 as int % 16)]
    } else {
        seq![c]
    }
}

/// The escaped form of a string from index `i` on.
pub open spec fn esc_from(s: Seq<char>, i: int) -> Seq<char>
    decreases s.len() - i,
{
    if i < 0 || i >= s.len() {
        Seq::empty()
    } else {
        esc_char(s[i]) + esc_from(s, i + 1)
    }
}

/// The escaped form of a whole string.
pub open spec fn esc(s: Seq<char>) -> Seq<char> {
    esc_from(s, 0)
}

/// What parsing one JSON value from a position yields: the value and
/// the position after it, or the position of the offending character.
pub enum JOut {
    Val { v: JsonV, end: int },
    Fail { at: int },
}

/// What parsing the members after `[` or `{` yields.
pub enum JSeqOut {
    Val { vs: Seq<JsonV>, end: int },
    Fail { at: int },
}

/// What parsing object members yields.
pub enum JMembOut {
    Val { ms: Seq<(Seq<char>, JsonV)>, end: int },
    Fail { at: int },
}

/// What parsing a string body (after the opening quote) yields.
pub enum JStrOut {
    Val { cs: Seq<char>, end: int },
    Fail { at: int },
}

/// The character an escape code stands for, if the code is one the
/// grammar accepts.
pub open spec fn unesc_char(c: char) -> Option<char> {
    if c == '"' { Some('"') }
    else if c == '\\' { Some('\\') }
    else if c == '/' { Some('/') }
    else if c == 'n' { Some('\n') }
    else if c == 't' { Some('\t') }
    else if c == 'r' { Some('\r') }
    else if c == 'b' { Some('\u{8}') }
    else if c == 'f' { Some('\u{c}') }
    else { None }
}

/// Parses the body of a string literal, starting just after the
/// opening quote, up to and including the closing quote.
pub open spec fn jparse_str(s: Seq<char>, pos: int) -> JStrOut
    decreases s.len() - pos,
{
    if pos < 0 || pos >= s.len() {
        JStrOut::Fail { at: pos }
    } else if s[pos] == '"' {
        JStrOut::Val { cs: Seq::empty(), end: pos + 1 }
    } else if s[pos] == '\\' {
        if pos + 1 >= s.len() {
            JStrOut::Fail { at: pos + 1 }
        } else if s[pos + 1] == 'u' {
            if !hex4_at(s, pos + 2) {
                JStrOut::Fail { at: pos + 2 }
            } else {
                let cu = hex4_val(s, pos + 2);
                if is_high_surrogate(cu) {
                    if !(pos + 8 <= s.len() && s[pos + 6] == '\\' && s[pos + 7] == 'u' && hex4_at(
                        s,
                        pos + 8,
                    )) {
                        JStrOut::Fail { at: pos + 6 }
                    } else {
                        let lo = hex4_val(s, pos + 8);
                        if !is_low_surrogate(lo) {
                            JStrOut::Fail { at: pos + 8 }
                        } else {
                            match jparse_str(s, pos + 12) {
                                JStrOut::Fail { at } => JStrOut::Fail { at },
                                JStrOut::Val { cs, end } => JStrOut::Val {
                                    cs: seq![char_of(surrogate_value(cu, lo))] + cs,
                                    end,
                                },
                            }
                        }
                    }
                } else if is_low_surrogate(cu) {
                    JStrOut::Fail { at: pos + 2 }
                } else {
                    match jparse_str(s, pos + 6) {
                        JStrOut::Fail { at } => JStrOut::Fail { at },
                        JStrOut::Val { cs, end } => JStrOut::Val {
                            cs: seq![char_of(cu)] + cs,
                            end,
                        },
                    }
                }
            }
        } else {
            match unesc_char(s[pos + 1]) {
                Option::None => JStrOut::Fail { at: pos + 1 },
                Option::Some(c) => match jparse_str(s, pos + 2) {
                    JStrOut::Fail { at } => JStrOut::Fail { at },
                    JStrOut::Val { cs, end } => JStrOut::Val { cs: seq![c] + cs, end },
                },
            }
        }
    } else {
        match jparse_str(s, pos + 1) {
            JStrOut::Fail { at } => JStrOut::Fail { at },
            JStrOut::Val { cs, end } => JStrOut::Val { cs: seq![s[pos]] + cs, end },
        }
    }
}

/// The largest value a JSON number may take here: payload numbers are
/// kept as signed 64-bit integers.
pub open spec fn num_limit() -> int {
    0x7fff_ffff_ffff_ffff
}

/// Parses a number at `pos`; the first character is a digit or `-`.
/// A run of several digits may not begin with zero.
pub open spec fn jparse_num(s: Seq<char>, pos: int) -> JOut {
    let neg = 0 <= pos < s.len() && s[pos] == '-';
    let a = if neg { pos + 1 } else { pos };
    let b = digit_end(s, a);
    if b <= a {
        JOut::Fail { at: a }
    } else if b > a + 1 && s[a] == '0' {
        JOut::Fail { at: a }
    } else {
        let m = dec_val(s, a, b);
        if m > num_limit() {
            JOut::Fail { at: pos }
        } else {
            JOut::Val { v: JsonV::Num(if neg { -m } else { m }), end: b }
        }
    }
}

/// The count of characters of `s` that stand at or after `pos`: the
/// measure by which the recursive grammar descends.
pub open spec fn rem(s: Seq<char>, pos: int) -> int {
    if pos < s.len() {
        s.len() - pos
    } else {
        0
    }
}

/// Parses one JSON value whose first character stands at `pos`; no
/// leading whitespace is admitted here, callers skip it.
pub open spec fn jparse_value(s: Seq<char>, pos: int) -> JOut
    decreases rem(s, pos), 0int,
{
    if pos < 0 || pos >= s.len() {
        JOut::Fail { at: pos }
    } else {
        let c = s[pos];
        if c == 'n' {
            if pos + 4 <= s.len() && s[pos + 1] == 'u' && s[pos + 2] == 'l' && s[pos + 3] == 'l' {
                JOut::Val { v: JsonV::Null, end: pos + 4 }
            } else {
                JOut::Fail { at: pos }
            }
        } else if c == 't' {
            if pos + 4 <= s.len() && s[pos + 1] == 'r' && s[pos + 2] == 'u' && s[pos + 3] == 'e' {
                JOut::Val { v: JsonV::Bool(true), end: pos + 4 }
            } else {
                JOut::Fail { at: pos }
            }
        } else if c == 'f' {
            if pos + 5 <= s.len() && s[pos + 1] == 'a' && s[pos + 2] == 'l' && s[pos + 3] == 's'
                && s[pos + 4] == 'e' {
                JOut::Val { v: JsonV::Bool(false), end: pos + 5 }
            } else {
                JOut::Fail { at: pos }
            }
        } else if c == '"' {
            match jparse_str(s, pos + 1) {
                JStrOut::Fail { at } => JOut::Fail { at },
                JStrOut::Val { cs, end } => JOut::Val { v: JsonV::Str(cs), end },
            }
        } else if c == '-' || is_digit_c(c) {
            jparse_num(s, pos)
        } else if c == '[' {
            let p = ws_from(s, pos + 1);
            if p < s.len() && s[p] == ']' {
                JOut::Val { v: JsonV::Arr(Seq::empty()), end: p + 1 }
            } else {
                match jparse_elems(s, pos + 1) {
                    JSeqOut::Fail { at } => JOut::Fail { at },
                    JSeqOut::Val { vs, end } => JOut::Val { v: JsonV::Arr(vs), end },
                }
            }
        } else if c == '{' {
            let p = ws_from(s, pos + 1);
            if p < s.len() && s[p] == '}' {
                JOut::Val { v: JsonV::Obj(Seq::empty()), end: p + 1 }
            } else {
                match jparse_membs(s, pos + 1) {
                    JMembOut::Fail { at } => JOut::Fail { at },
                    JMembOut::Val { ms, end } => JOut::Val { v: JsonV::Obj(ms), end },
                }
            }
        } else {
            JOut::Fail { at: pos }
        }
    }
}

/// Parses `value ( "," value )* "]"` starting at `pos` (whitespace is
/// skipped first).
pub open spec fn jparse_elems(s: Seq<char>, pos: int) -> JSeqOut
    decreases rem(s, pos), 1int,
{
    if pos < 0 || pos >= s.len() {
        JSeqOut::Fail { at: pos }
    } else {
    let p = ws_from(s, pos);
    match jparse_value(s, p) {
        JOut::Fail { at } => JSeqOut::Fail { at },
        JOut::Val { v, end } => {
            let e = if end <= p { p + 1 } else { end };
            let w = ws_from(s, e);
            if w >= s.len() {
                JSeqOut::Fail { at: w }
            } else if s[w] == ',' {
                match jparse_elems(s, w + 1) {
                    JSeqOut::Fail { at } => JSeqOut::Fail { at },
                    JSeqOut::Val { vs, end: e2 } => JSeqOut::Val { vs: seq![v] + vs, end: e2 },
                }
            } else if s[w] == ']' {
                JSeqOut::Val { vs: seq![v], end: w + 1 }
            } else {
                JSeqOut::Fail { at: w }
            }
        },
    }
    }
}

/// Parses `string ":" value ( "," string ":" value )* "}"` starting at
/// `pos` (whitespace is skipped first).
pub open spec fn jparse_membs(s: Seq<char>, pos: int) -> JMembOut
    decreases rem(s, pos), 1int,
{
    if pos < 0 || pos >= s.len() {
        JMembOut::Fail { at: pos }
    } else {
    let p = ws_from(s, pos);
    if p >= s.len() {
        JMembOut::Fail { at: p }
    } else if s[p] != '"' {
        JMembOut::Fail { at: p }
    } else {
        match jparse_str(s, p + 1) {
            JStrOut::Fail { at } => JMembOut::Fail { at },
            JStrOut::Val { cs, end } => {
                let e = if end <= p + 1 { p + 2 } else { end };
                let w = ws_from(s, e);
                if w >= s.len() || s[w] != ':' {
                    JMembOut::Fail { at: w }
                } else {
                    let q = ws_from(s, w + 1);
                    match jparse_value(s, q) {
                        JOut::Fail { at } => JMembOut::Fail { at },
                        JOut::Val { v, end: vend } => {
                            let e2 = if vend <= q { q + 1 } else { vend };
                            let w2 = ws_from(s, e2);
                            if w2 >= s.len() {
                                JMembOut::Fail { at: w2 }
                            } else if s[w2] == ',' {
                                match jparse_membs(s, w2 + 1) {
                                    JMembOut::Fail { at } => JMembOut::Fail { at },
                                    JMembOut::Val { ms, end: e3 } => JMembOut::Val {
                                        ms: seq![(cs, v)] + ms,
                                        end: e3,
                                    },
                                }
                            } else if s[w2] == '}' {
                                JMembOut::Val { ms: seq![(cs, v)], end: w2 + 1 }
                            } else {
                                JMembOut::Fail { at: w2 }
                            }
                        },
                    }
                }
            },
        }
    }
    }
}

/// Parses a whole JSON document: one value, with whitespace around it,
/// and nothing else.
pub open spec fn jparse_doc(s: Seq<char>) -> JOut {
    let p = ws_from(s, 0);
    match jparse_value(s, p) {
        JOut::Fail { at } => JOut::Fail { at },
        JOut::Val { v, end } => {
            let e = if end < 0 { 0 } else { end };
            let w = ws_from(s, e);
            if w >= s.len() {
                JOut::Val { v, end: w }
            } else {
                JOut::Fail { at: w }
            }
        },
    }
}

/// The serialized text of a JSON value: the canonical form the encoder
/// emits, with no insignificant whitespace.
pub open spec fn jser(j: JsonV) -> Seq<char>
    decreases j, 0int,
{
    match j {
        JsonV::Null => seq!['n', 'u', 'l', 'l'],
        JsonV::Bool(b) => if b {
            seq!['t', 'r', 'u', 'e']
        } else {
            seq!['f', 'a', 'l', 's', 'e']
        },
        JsonV::Num(n) => if n < 0 {
            seq!['-'] + dec_digits(-n)
        } else {
            dec_digits(n)
        },
        JsonV::Str(cs) => seq!['"'] + esc(cs) + seq!['"'],
        JsonV::Arr(vs) => seq!['['] + jser_elems(vs, 0) + seq![']'],
        JsonV::Obj(ms) => seq!['{'] + jser_membs(ms, 0) + seq!['}'],
        JsonV::Bin(bs) => seq!['['] + jser_bytes(bs, 0) + seq![']'],
    }
}

/// The serialized elements of an array from index `i` on, separated by
/// commas.
pub open spec fn jser_elems(vs: Seq<JsonV>, i: int) -> Seq<char>
    decreases vs, 1int, vs.len() - i,
{
    if i < 0 || i >= vs.len() {
        Seq::empty()
    } else if i == vs.len() - 1 {
        jser(vs[i])
    } else {
        jser(vs[i]) + seq![','] + jser_elems(vs, i + 1)
    }
}

/// The serialized members of an object from index `i` on, separated by
/// commas.
pub open spec fn jser_membs(ms: Seq<(Seq<char>, JsonV)>, i: int) -> Seq<char>
    decreases ms, 1int, ms.len() - i,
{
    if i < 0 || i >= ms.len() {
        Seq::empty()
    } else {
        let head = seq!['"'] + esc(ms[i].0) + seq!['"', ':'] + jser(ms[i].1);
        if i == ms.len() - 1 {
            head
        } else {
            head + seq![','] + jser_membs(ms, i + 1)
        }
    }
}

/// The serialized form of a binary buffer from index `i` on: the array
/// of its byte values. Only this direction exists on the wire; parsing
/// never yields a binary node.
pub open spec fn jser_bytes(bs: Seq<u8>, i: int) -> Seq<char>
    decreases bs.len() - i,
{
    if i < 0 || i >= bs.len() {
        Seq::empty()
    } else if i == bs.len() - 1 {
        dec_digits(bs[i] as int)
    } else {
        dec_digits(bs[i] as int) + seq![','] + jser_bytes(bs, i + 1)
    }
}

/// The line, counted from one, on which position `pos` of `s` stands:
/// one more than the count of newlines before it.
pub open spec fn line_of(s: Seq<char>, pos: int) -> int
    decreases pos,
{
    if pos <= 0 {
        1
    } else {
        line_of(s, pos - 1) + if 0 < pos <= s.len() && s[pos - 1] == '\n' { 1int } else { 0int }
    }
}

/// The column, counted from one, at which position `pos` of `s`
/// stands: the distance to the nearest newline before it.
pub open spec fn col_of(s: Seq<char>, pos: int) -> int
    decreases pos,
{
    if pos <= 0 {
        1
    } else if 0 < pos <= s.len() && s[pos - 1] == '\n' {
        1
    } else {
        col_of(s, pos - 1) + 1
    }
}

/// Digit runs hold non-negative values.
pub proof fn lemma_dec_val_nonneg(s: Seq<char>, a: int, i: int)
    requires
        a <= i,
        forall|k: int| a <= k < i ==> is_digit_c(#[trigger] s[k]),
    ensures
        0 <= dec_val(s, a, i),
    decreases i - a,
{
    if i > a {
        lemma_dec_val_nonneg(s, a, i - 1);
    }
}

/// A longer digit run never holds a smaller value.
pub proof fn lemma_dec_val_grows(s: Seq<char>, a: int, i: int, j: int)
    requires
        a <= i <= j,
        forall|k: int| a <= k < j ==> is_digit_c(#[trigger] s[k]),
    ensures
        dec_val(s, a, i) <= dec_val(s, a, j),
    decreases j - i,
{
    if j > i {
        lemma_dec_val_grows(s, a, i, j - 1);
        lemma_dec_val_nonneg(s, a, j - 1);
    }
}

/// Relies on `String::push`: appends exactly the one character.
#[verifier::external_body]
pub(crate) fn push_char(s: &mut String, c: char)
    ensures
        final(s)@ == old(s)@.push(c),
{
    s.push(c);
}

/// Moves the cursor past any whitespace.
pub(crate) fn ws_adv(s: &str, pos: usize) -> (r: usize)
    requires
        pos <= s@.len(),
    ensures
        r as int == ws_from(s@, pos as int),
        pos <= r <= s@.len(),
{
    let mut i: usize = pos;
    loop
        invariant
            pos <= i <= s@.len(),
            skip_ws(s@, pos as int) == skip_ws(s@, i as int),
        ensures
            i >= s@.len() || !is_ws(s@[i as int]),
            pos <= i <= s@.len(),
            skip_ws(s@, pos as int) == skip_ws(s@, i as int),
        decreases s@.len() - i,
    {
        if i >= s.unicode_len() {
            break;
        }
        let c = s.get_char(i);
        if !(c == ' ' || c == '\t' || c == '\n' || c == '\r') {
            break;
        }
        i = i + 1;
    }
    i
}

/// Moves the cursor past any decimal digits.
pub(crate) fn digit_adv(s: &str, pos: usize) -> (r: usize)
    requires
        pos <= s@.len(),
    ensures
        r as int == digit_end(s@, pos as int),
        pos <= r <= s@.len(),
        forall|k: int| pos <= k < r ==> is_digit_c(#[trigger] s@[k]),
        r < s@.len() ==> !is_digit_c(s@[r as int]),
    decreases s@.len() - pos,
{
    let mut i: usize = pos;
    loop
        invariant
            pos <= i <= s@.len(),
            digit_end(s@, pos as int) == digit_end(s@, i as int),
        ensures
            i >= s@.len() || !is_digit_c(s@[i as int]),
            pos <= i <= s@.len(),
            digit_end(s@, pos as int) == digit_end(s@, i as int),
        decreases s@.len() - i,
    {
        if i >= s.unicode_len() {
            break;
        }
        let c = s.get_char(i);
        if !(c >= '0' && c <= '9') {
            break;
        }
        i = i + 1;
    }
    proof {
        lemma_digit_end(s@, pos as int);
    }
    i
}

/// The character an escape code stands for, executable form.
fn unescape(c: char) -> (r: Option<char>)
    ensures
        r == unesc_char(c),
{
    if c == '"' { Some('"') }
    else if c == '\\' { Some('\\') }
    else if c == '/' { Some('/') }
    else if c == 'n' { Some('\n') }
    else if c == 't' { Some('\t') }
    else if c == 'r' { Some('\r') }
    else if c == 'b' { Some('\u{8}') }
    else if c == 'f' { Some('\u{c}') }
    else { None }
}

/// The numeric value of a digit character, executable form.
pub(crate) fn digit_val(c: char) -> (d: i64)
    ensures
        d == dval(c),
{
    if c == '0' { 0 } else if c == '1' { 1 } else if c == '2' { 2 } else if c == '3' { 3 }
    else if c == '4' { 4 } else if c == '5' { 5 } else if c == '6' { 6 } else if c == '7' { 7 }
    else if c == '8' { 8 } else if c == '9' { 9 } else { -1 }
}

/// The digit character of a value, executable form.
fn digit_char_of(d: u64) -> (c: char)
    ensures
        c == digit_char(d as int),
{
    if d == 1 { '1' } else if d == 2 { '2' } else if d == 3 { '3' } else if d == 4 { '4' }
    else if d == 5 { '5' } else if d == 6 { '6' } else if d == 7 { '7' } else if d == 8 { '8' }
    else if d == 9 { '9' } else { '0' }
}

/// The value of a hexadecimal digit character, executable form.
fn hex_val_of(c: char) -> (d: i64)
    ensures
        d == hval(c),
{
    let dd = digit_val(c);
    if dd >= 0 { dd }
    else if c == 'a' || c == 'A' { 10 }
    else if c == 'b' || c == 'B' { 11 }
    else if c == 'c' || c == 'C' { 12 }
    else if c == 'd' || c == 'D' { 13 }
    else if c == 'e' || c == 'E' { 14 }
    else if c == 'f' || c == 'F' { 15 }
    else { -1 }
}

/// The lower-case hexadecimal digit character of a value, executable
/// form.
fn hex_char_of(d: u32) -> (c: char)
    requires
        d <= 15,
    ensures
        c == hex_char(d as int),
{
    if d <= 9 { digit_char_of(d as u64) }
    else if d == 10 { 'a' } else if d == 11 { 'b' } else if d == 12 { 'c' }
    else if d == 13 { 'd' } else if d == 14 { 'e' } else { 'f' }
}

/// Relies on `char::from_u32`: the character with the given code
/// point. The caller keeps the argument a Unicode scalar value, so
/// the lookup cannot fail.
#[verifier::external_body]
fn char_from_code(cp: u32) -> (r: char)
    requires
        cp < 0xD800 || (0xE000 <= cp && cp <= 0x10FFFF),
    ensures
        r as u32 == cp,
{
    char::from_u32(cp).unwrap()
}

/// Reads the four hexadecimal digits at `pos`, if they stand there.
fn hex4(s: &str, pos: usize) -> (r: Option<u32>)
    requires
        pos <= s@.len(),
    ensures
        match r {
            Some(v) => hex4_at(s@, pos as int) && v as int == hex4_val(s@, pos as int) && v
                <= 0xffff,
            None => !hex4_at(s@, pos as int),
        },
{
    let n = s.unicode_len();
    if n - pos < 4 {
        return None;
    }
    let d0 = hex_val_of(s.get_char(pos));
    let d1 = hex_val_of(s.get_char(pos + 1));
    let d2 = hex_val_of(s.get_char(pos + 2));
    let d3 = hex_val_of(s.get_char(pos + 3));
    if d0 < 0 || d1 < 0 || d2 < 0 || d3 < 0 {
        return None;
    }
    Some((d0 as u32) * 0x1000 + (d1 as u32) * 0x100 + (d2 as u32) * 16 + (d3 as u32))
}

/// Parses the body of a string literal, from just after the opening
/// quote through the closing quote.
fn parse_str_body(s: &str, pos: usize) -> (r: Result<(String, usize), usize>)
    requires
        pos <= s@.len(),
    ensures
        match r {
            Ok(p) => jparse_str(s@, pos as int) == (JStrOut::Val { cs: p.0@, end: p.1 as int })
                && pos < p.1 <= s@.len(),
            Err(at) => jparse_str(s@, pos as int) == (JStrOut::Fail { at: at as int })
                && at <= s@.len(),
        },
    decreases s@.len() - pos,
{
    let n = s.unicode_len();
    if pos >= n {
        return Err(pos);
    }
    let c = s.get_char(pos);
    if c == '"' {
        Ok((String::new(), pos + 1))
    } else if c == '\\' {
        if pos + 1 >= n {
            return Err(pos + 1);
        }
        let e = s.get_char(pos + 1);
        if e == 'u' {
            match hex4(s, pos + 2) {
                None => Err(pos + 2),
                Some(cu) => {
                    if 0xD800 <= cu && cu < 0xDC00 {
                        let pair_ok = n - (pos + 6) >= 2 && s.get_char(pos + 6) == '\\'
                            && s.get_char(pos + 7) == 'u';
                        if !pair_ok {
                            return Err(pos + 6);
                        }
                        match hex4(s, pos + 8) {
                            None => Err(pos + 6),
                            Some(lo) => {
                                if !(0xDC00 <= lo && lo < 0xE000) {
                                    return Err(pos + 8);
                                }
                                let cp: u32 = 0x10000 + (cu - 0xD800) * 0x400 + (lo - 0xDC00);
                                let u = char_from_code(cp);
                                proof {
                                    assert(u == char_of(surrogate_value(cu as int, lo as int)));
                                }
                                match parse_str_body(s, pos + 12) {
                                    Err(at) => Err(at),
                                    Ok((tail, end)) => {
                                        let ghost tcs = tail@;
                                        let mut out = String::new();
                                        push_char(&mut out, u);
                                        out.append(tail.as_str());
                                        proof {
                                            assert(out@ =~= seq![u] + tcs);
                                        }
                                        Ok((out, end))
                                    },
                                }
                            },
                        }
                    } else if 0xDC00 <= cu && cu < 0xE000 {
                        Err(pos + 2)
                    } else {
                        let u = char_from_code(cu);
                        proof {
                            assert(u == char_of(cu as int));
                        }
                        match parse_str_body(s, pos + 6) {
                            Err(at) => Err(at),
                            Ok((tail, end)) => {
                                let ghost tcs = tail@;
                                let mut out = String::new();
                                push_char(&mut out, u);
                                out.append(tail.as_str());
                                proof {
                                    assert(out@ =~= seq![u] + tcs);
                                }
                                Ok((out, end))
                            },
                        }
                    }
                },
            }
        } else {
            match unescape(e) {
                None => Err(pos + 1),
                Some(u) => {
                    match parse_str_body(s, pos + 2) {
                        Err(at) => Err(at),
                        Ok((tail, end)) => {
                            let ghost tcs = tail@;
                            let mut out = String::new();
                            push_char(&mut out, u);
                            out.append(tail.as_str());
                            proof {
                                assert(out@ =~= seq![u] + tcs);
                            }
                            Ok((out, end))
                        },
                    }
                },
            }
        }
    } else {
        match parse_str_body(s, pos + 1) {
            Err(at) => Err(at),
            Ok((tail, end)) => {
                let ghost tcs = tail@;
                let mut out = String::new();
                push_char(&mut out, c);
                out.append(tail.as_str());
                proof {
                    assert(out@ =~= seq![c] + tcs);
                }
                Ok((out, end))
            },
        }
    }
}

/// Parses a number at `pos`.
fn parse_num(s: &str, pos: usize) -> (r: Result<(Json, usize), usize>)
    requires
        pos <= s@.len(),
    ensures
        match r {
            Ok(p) => jparse_num(s@, pos as int) == (JOut::Val { v: p.0@, end: p.1 as int })
                && pos < p.1 <= s@.len(),
            Err(at) => jparse_num(s@, pos as int) == (JOut::Fail { at: at as int })
                && at <= s@.len(),
        },
{
    let n = s.unicode_len();
    let neg = pos < n && s.get_char(pos) == '-';
    let a = if neg { pos + 1 } else { pos };
    let b = digit_adv(s, a);
    if b == a {
        return Err(a);
    }
    if b > a + 1 && s.get_char(a) == '0' {
        return Err(a);
    }
    let mut acc: i64 = 0;
    let mut i = a;
    while i < b
        invariant
            neg == ((pos as int) < s@.len() && s@[pos as int] == '-'),
            a as int == (if neg {
                pos as int + 1
            } else {
                pos as int
            }),
            a <= i <= b <= s@.len(),
            b as int == digit_end(s@, a as int),
            !(b > a + 1 && s@[a as int] == '0'),
            forall|k: int| a <= k < b ==> is_digit_c(#[trigger] s@[k]),
            acc == dec_val(s@, a as int, i as int),
            0 <= acc,
        decreases b - i,
    {
        let c = s.get_char(i);
        let d = digit_val(c);
        if acc > 922337203685477580i64 || (acc == 922337203685477580i64 && d > 7) {
            proof {
                assert(s@[i as int] == c);
                assert(dec_val(s@, a as int, i as int + 1) == acc * 10 + dval(c));
                assert(acc * 10 + dval(c) > num_limit());
                lemma_dec_val_grows(s@, a as int, i as int + 1, b as int);
                assert(dec_val(s@, a as int, b as int) > num_limit());
            }
            return Err(pos);
        }
        acc = acc * 10 + d;
        i = i + 1;
    }
    let v = if neg { -acc } else { acc };
    Ok((Json::Num(v), b))
}

/// Parses one JSON value whose first character stands at `pos`.
fn parse_value(s: &str, pos: usize) -> (r: Result<(Json, usize), usize>)
    requires
        pos <= s@.len(),
    ensures
        match r {
            Ok(p) => jparse_value(s@, pos as int) == (JOut::Val { v: p.0@, end: p.1 as int })
                && pos < p.1 <= s@.len(),
            Err(at) => jparse_value(s@, pos as int) == (JOut::Fail { at: at as int })
                && at <= s@.len(),
        },
    decreases rem(s@, pos as int), 0int,
{
    let n = s.unicode_len();
    if pos >= n {
        return Err(pos);
    }
    let c = s.get_char(pos);
    if c == 'n' {
        if n - pos >= 4 && s.get_char(pos + 1) == 'u' && s.get_char(pos + 2) == 'l'
            && s.get_char(pos + 3) == 'l' {
            Ok((Json::Null, pos + 4))
        } else {
            Err(pos)
        }
    } else if c == 't' {
        if n - pos >= 4 && s.get_char(pos + 1) == 'r' && s.get_char(pos + 2) == 'u'
            && s.get_char(pos + 3) == 'e' {
            Ok((Json::Bool(true), pos + 4))
        } else {
            Err(pos)
        }
    } else if c == 'f' {
        if n - pos >= 5 && s.get_char(pos + 1) == 'a' && s.get_char(pos + 2) == 'l'
            && s.get_char(pos + 3) == 's' && s.get_char(pos + 4) == 'e' {
            Ok((Json::Bool(false), pos + 5))
        } else {
            Err(pos)
        }
    } else if c == '"' {
        match parse_str_body(s, pos + 1) {
            Err(at) => Err(at),
            Ok((cs, end)) => Ok((Json::Str(cs), end)),
        }
    } else if c == '-' || (c >= '0' && c <= '9') {
        parse_num(s, pos)
    } else if c == '[' {
        let p = ws_adv(s, pos + 1);
        if p < n && s.get_char(p) == ']' {
            let vec: Vec<Json> = Vec::new();
            proof {
                assert(views_of(vec@) =~= Seq::<JsonV>::empty());
            }
            Ok((Json::Arr(vec), p + 1))
        } else {
            match parse_elems(s, pos + 1) {
                Err(at) => Err(at),
                Ok((vec, end)) => Ok((Json::Arr(vec), end)),
            }
        }
    } else if c == '{' {
        let p = ws_adv(s, pos + 1);
        if p < n && s.get_char(p) == '}' {
            let vec: Vec<Member> = Vec::new();
            proof {
                assert(member_views(vec@) =~= Seq::<(Seq<char>, JsonV)>::empty());
            }
            Ok((Json::Obj(vec), p + 1))
        } else {
            match parse_membs(s, pos + 1) {
                Err(at) => Err(at),
                Ok((vec, end)) => Ok((Json::Obj(vec), end)),
            }
        }
    } else {
        Err(pos)
    }
}

/// Parses the elements of an array, from after the opening bracket
/// through the closing one.
fn parse_elems(s: &str, pos: usize) -> (r: Result<(Vec<Json>, usize), usize>)
    requires
        pos <= s@.len(),
    ensures
        match r {
            Ok(p) => jparse_elems(s@, pos as int) == (JSeqOut::Val {
                vs: views_of(p.0@),
                end: p.1 as int,
            }) && pos < p.1 <= s@.len(),
            Err(at) => jparse_elems(s@, pos as int) == (JSeqOut::Fail { at: at as int })
                && at <= s@.len(),
        },
    decreases rem(s@, pos as int), 1int,
{
    let n = s.unicode_len();
    if pos >= n {
        return Err(pos);
    }
    let p = ws_adv(s, pos);
    match parse_value(s, p) {
        Err(at) => Err(at),
        Ok((v, end)) => {
            let w = ws_adv(s, end);
            if w >= n {
                return Err(w);
            }
            let c = s.get_char(w);
            if c == ',' {
                match parse_elems(s, w + 1) {
                    Err(at) => Err(at),
                    Ok((mut vec, e2)) => {
                        let ghost tailv = vec@;
                        let ghost vv = v@;
                        vec.insert(0, v);
                        proof {
                            assert(views_of(vec@) =~= seq![vv] + views_of(tailv));
                        }
                        Ok((vec, e2))
                    },
                }
            } else if c == ']' {
                let ghost vv = v@;
                let mut vec: Vec<Json> = Vec::new();
                vec.push(v);
                proof {
                    assert(views_of(vec@) =~= seq![vv]);
                }
                Ok((vec, w + 1))
            } else {
                Err(w)
            }
        },
    }
}

/// Parses the members of an object, from after the opening brace
/// through the closing one.
fn parse_membs(s: &str, pos: usize) -> (r: Result<(Vec<Member>, usize), usize>)
    requires
        pos <= s@.len(),
    ensures
        match r {
            Ok(p) => jparse_membs(s@, pos as int) == (JMembOut::Val {
                ms: member_views(p.0@),
                end: p.1 as int,
            }) && pos < p.1 <= s@.len(),
            Err(at) => jparse_membs(s@, pos as int) == (JMembOut::Fail { at: at as int })
                && at <= s@.len(),
        },
    decreases rem(s@, pos as int), 1int,
{
    let n = s.unicode_len();
    if pos >= n {
        return Err(pos);
    }
    let p = ws_adv(s, pos);
    if p >= n {
        return Err(p);
    }
    if s.get_char(p) != '"' {
        return Err(p);
    }
    match parse_str_body(s, p + 1) {
        Err(at) => Err(at),
        Ok((key, kend)) => {
            let w = ws_adv(s, kend);
            if w >= n {
                return Err(w);
            }
            if s.get_char(w) != ':' {
                return Err(w);
            }
            let q = ws_adv(s, w + 1);
            match parse_value(s, q) {
                Err(at) => Err(at),
                Ok((v, vend)) => {
                    let w2 = ws_adv(s, vend);
                    if w2 >= n {
                        return Err(w2);
                    }
                    let c = s.get_char(w2);
                    if c == ',' {
                        match parse_membs(s, w2 + 1) {
                            Err(at) => Err(at),
                            Ok((mut vec, e3)) => {
                                let ghost tailv = vec@;
                                let ghost kv = key@;
                                let ghost vv = v@;
                                vec.insert(0, Member { key, value: v });
                                proof {
                                    assert(member_views(vec@) =~= seq![(kv, vv)] + member_views(
                                        tailv,
                                    ));
                                }
                                Ok((vec, e3))
                            },
                        }
                    } else if c == '}' {
                        let ghost kv = key@;
                        let ghost vv = v@;
                        let mut vec: Vec<Member> = Vec::new();
                        vec.push(Member { key, value: v });
                        proof {
                            assert(member_views(vec@) =~= seq![(kv, vv)]);
                        }
                        Ok((vec, w2 + 1))
                    } else {
                        Err(w2)
                    }
                },
            }
        },
    }
}

/// Parses a whole JSON document: one value with nothing but
/// whitespace around it. On failure, returns the position of the
/// offending character.
pub fn parse_document(s: &str) -> (r: Result<Json, usize>)
    ensures
        match r {
            Ok(j) => jparse_doc(s@) matches JOut::Val { v, end } && v == j@,
            Err(at) => jparse_doc(s@) matches JOut::Fail { at: a } && a == at as int && at
                <= s@.len(),
        },
{
    let p = ws_adv(s, 0);
    match parse_value(s, p) {
        Err(at) => Err(at),
        Ok((j, end)) => {
            let w = ws_adv(s, end);
            if w >= s.unicode_len() {
                Ok(j)
            } else {
                Err(w)
            }
        },
    }
}

/// Writes the decimal digits of `n`.
pub(crate) fn write_digits(n: u64, out: &mut String)
    ensures
        final(out)@ == old(out)@ + dec_digits(n as int),
    decreases n,
{
    if n < 10 {
        push_char(out, digit_char_of(n));
        proof {
            assert(out@ =~= old(out)@ + dec_digits(n as int));
        }
    } else {
        write_digits(n / 10, out);
        push_char(out, digit_char_of(n % 10));
        proof {
            assert(out@ =~= old(out)@ + dec_digits(n as int));
        }
    }
}

/// Writes the characters of `s` from index `i` on, escaped.
pub(crate) fn write_escaped(s: &str, i: usize, out: &mut String)
    ensures
        final(out)@ == old(out)@ + esc_from(s@, i as int),
    decreases s@.len() - i,
{
    if i >= s.unicode_len() {
        proof {
            assert(out@ =~= out@ + esc_from(s@, i as int));
        }
        return;
    }
    let c = s.get_char(i);
    if c == '"' || c == '\\' {
        push_char(out, '\\');
        push_char(out, c);
    } else if c == '\n' {
        push_char(out, '\\');
        push_char(out, 'n');
    } else if c == '\t' {
        push_char(out, '\\');
        push_char(out, 't');
    } else if c == '\r' {
        push_char(out, '\\');
        push_char(out, 'r');
    } else if c == '\u{8}' {
        push_char(out, '\\');
        push_char(out, 'b');
    } else if c == '\u{c}' {
        push_char(out, '\\');
        push_char(out, 'f');
    } else if (c as u32) < 0x20 {
        let d = c as u32;
        push_char(out, '\\');
        push_char(out, 'u');
        push_char(out, '0');
        push_char(out, '0');
        push_char(out, hex_char_of(d / 16));
        push_char(out, hex_char_of(d % 16));
    } else {
        push_char(out, c);
    }
    proof {
        assert(out@ =~= old(out)@ + esc_char(s@[i as int]));
    }
    write_escaped(s, i + 1, out);
    proof {
        assert(out@ =~= old(out)@ + esc_from(s@, i as int));
    }
}

/// Writes the serialized text of one JSON value.
pub(crate) fn write_json(j: &Json, out: &mut String)
    ensures
        final(out)@ == old(out)@ + jser(j@),
    decreases *j, 0int, 0int,
{
    match j {
        Json::Null => {
            push_char(out, 'n');
            push_char(out, 'u');
            push_char(out, 'l');
            push_char(out, 'l');
            proof {
                assert(out@ =~= old(out)@ + jser(j@));
            }
        },
        Json::Bool(b) => {
            if *b {
                push_char(out, 't');
                push_char(out, 'r');
                push_char(out, 'u');
                push_char(out, 'e');
            } else {
                push_char(out, 'f');
                push_char(out, 'a');
                push_char(out, 'l');
                push_char(out, 's');
                push_char(out, 'e');
            }
            proof {
                assert(out@ =~= old(out)@ + jser(j@));
            }
        },
        Json::Num(x) => {
            if *x < 0 {
                push_char(out, '-');
            }
            let mag: u64 = if *x >= 0 {
                *x as u64
            } else {
                ((-(*x + 1)) as u64) + 1
            };
            write_digits(mag, out);
            proof {
                assert(out@ =~= old(out)@ + jser(j@));
            }
        },
        Json::Str(cs) => {
            push_char(out, '"');
            write_escaped(cs.as_str(), 0, out);
            push_char(out, '"');
            proof {
                assert(out@ =~= old(out)@ + jser(j@));
            }
        },
        Json::Arr(v) => {
            push_char(out, '[');
            proof {
                assert(decreases_to!(*j => j->Arr_0));
            }
            write_elems(v, 0, out);
            push_char(out, ']');
            proof {
                assert(out@ =~= old(out)@ + jser(j@));
            }
        },
        Json::Obj(v) => {
            push_char(out, '{');
            proof {
                assert(decreases_to!(*j => j->Obj_0));
            }
            write_membs(v, 0, out);
            push_char(out, '}');
            proof {
                assert(out@ =~= old(out)@ + jser(j@));
            }
        },
        Json::Bin(b) => {
            push_char(out, '[');
            write_bytes(b, 0, out);
            push_char(out, ']');
            proof {
                assert(out@ =~= old(out)@ + jser(j@));
            }
        },
    }
}

/// Writes the elements of an array from index `i` on, separated by
/// commas.
fn write_elems(v: &Vec<Json>, i: usize, out: &mut String)
    ensures
        final(out)@ == old(out)@ + jser_elems(views_of(v@), i as int),
    decreases v@, 1int, v@.len() - i,
{
    if i >= v.len() {
        proof {
            assert(out@ =~= out@ + jser_elems(views_of(v@), i as int));
        }
        return;
    }
    proof {
        assert(decreases_to!(v@ => v@[i as int]));
    }
    write_json(&v[i], out);
    if i + 1 < v.len() {
        push_char(out, ',');
        write_elems(v, i + 1, out);
    }
    proof {
        assert(out@ =~= old(out)@ + jser_elems(views_of(v@), i as int));
    }
}

/// Writes the members of an object from index `i` on, separated by
/// commas.
fn write_membs(v: &Vec<Member>, i: usize, out: &mut String)
    ensures
        final(out)@ == old(out)@ + jser_membs(member_views(v@), i as int),
    decreases v@, 1int, v@.len() - i,
{
    if i >= v.len() {
        proof {
            assert(out@ =~= out@ + jser_membs(member_views(v@), i as int));
        }
        return;
    }
    push_char(out, '"');
    write_escaped(v[i].key.as_str(), 0, out);
    push_char(out, '"');
    push_char(out, ':');
    proof {
        assert(decreases_to!(v@ => v@[i as int]));
        assert(decreases_to!(v@[i as int] => v@[i as int].value));
    }
    write_json(&v[i].value, out);
    if i + 1 < v.len() {
        push_char(out, ',');
        write_membs(v, i + 1, out);
    }
    proof {
        assert(out@ =~= old(out)@ + jser_membs(member_views(v@), i as int));
    }
}

/// Writes the byte values of a binary buffer from index `i` on.
fn write_bytes(b: &Vec<u8>, i: usize, out: &mut String)
    ensures
        final(out)@ == old(out)@ + jser_bytes(b@, i as int),
    decreases b@.len() - i,
{
    if i >= b.len() {
        proof {
            assert(out@ =~= out@ + jser_bytes(b@, i as int));
        }
        return;
    }
    write_digits(b[i] as u64, out);
    if i + 1 < b.len() {
        push_char(out, ',');
        write_bytes(b, i + 1, out);
    }
    proof {
        assert(out@ =~= old(out)@ + jser_bytes(b@, i as int));
    }
}

/// The serialized text of a JSON value, as the encoder emits it.
pub fn to_text(j: &Json) -> (r: String)
    ensures
        r@ == jser(j@),
{
    let mut out = String::new();
    write_json(j, &mut out);
    out
}

/// A value the codec can carry to the wire and back: numbers stay in
/// the signed 64-bit range, and no binary node stands in the tree
/// (the wire form of a buffer is a placeholder, not its bytes).
pub open spec fn rt_ok(j: JsonV) -> bool
    decreases j, 0int, 0int,
{
    match j {
        JsonV::Num(n) => -num_limit() <= n <= num_limit(),
        JsonV::Arr(vs) => rt_ok_elems(vs, 0),
        JsonV::Obj(ms) => rt_ok_membs(ms, 0),
        JsonV::Bin(_) => false,
        _ => true,
    }
}

/// Every element from index `i` on can round-trip.
pub open spec fn rt_ok_elems(vs: Seq<JsonV>, i: int) -> bool
    decreases vs, 1int, vs.len() - i,
{
    if i < 0 || i >= vs.len() {
        true
    } else {
        rt_ok(vs[i]) && rt_ok_elems(vs, i + 1)
    }
}

/// Every member value from index `i` on can round-trip.
pub open spec fn rt_ok_membs(ms: Seq<(Seq<char>, JsonV)>, i: int) -> bool
    decreases ms, 1int, ms.len() - i,
{
    if i < 0 || i >= ms.len() {
        true
    } else {
        rt_ok(ms[i].1) && rt_ok_membs(ms, i + 1)
    }
}

/// A digit string is non-empty, holds digits alone, and never starts
/// with a superfluous zero.
pub proof fn lemma_dec_digits_digits(n: int)
    requires
        n >= 0,
    ensures
        dec_digits(n).len() >= 1,
        forall|k: int| 0 <= k < dec_digits(n).len() ==> is_digit_c(#[trigger] dec_digits(n)[k]),
        n >= 1 ==> dec_digits(n)[0] != '0',
    decreases n,
{
    if n >= 10 {
        lemma_dec_digits_digits(n / 10);
    }
}

/// A run of digits with no digit after it is exactly what `digit_end`
/// passes over.
pub proof fn lemma_digit_end_of_run(s: Seq<char>, pos: int, e: int)
    requires
        0 <= pos <= e <= s.len(),
        forall|k: int| pos <= k < e ==> is_digit_c(#[trigger] s[k]),
        e < s.len() ==> !is_digit_c(s[e]),
    ensures
        digit_end(s, pos) == e,
    decreases e - pos,
{
    if pos < e {
        lemma_digit_end_of_run(s, pos + 1, e);
    }
}

/// One character of a piece of the text equals the same character of
/// the piece.
pub proof fn lemma_char_at(s: Seq<char>, pos: int, l: int, w: Seq<char>, k: int)
    requires
        0 <= pos,
        pos + l <= s.len(),
        w.len() == l,
        s.subrange(pos, pos + l) == w,
        0 <= k < l,
    ensures
        s[pos + k] == w[k],
{
    assert(s.subrange(pos, pos + l)[k] == s[pos + k]);
}

/// A sub-piece of a known piece of the text equals the same sub-piece
/// of the piece.
pub proof fn lemma_subrange_piece(s: Seq<char>, pos: int, l: int, a: int, b: int, w: Seq<char>)
    requires
        0 <= pos,
        pos + l <= s.len(),
        w.len() == l,
        s.subrange(pos, pos + l) == w,
        0 <= a <= b <= l,
    ensures
        s.subrange(pos + a, pos + b) =~= w.subrange(a, b),
{
    assert forall|k: int| 0 <= k < b - a implies s.subrange(pos + a, pos + b)[k] == w.subrange(
        a,
        b,
    )[k] by {
        assert(s.subrange(pos, pos + l)[a + k] == s[pos + a + k]);
        assert(s.subrange(pos + a, pos + b)[k] == s[pos + a + k]);
    }
}

/// Reading the digit string of `n` back gives `n`.
pub proof fn lemma_digits_value(s: Seq<char>, pos: int, n: int)
    requires
        n >= 0,
        0 <= pos,
        pos + dec_digits(n).len() <= s.len(),
        s.subrange(pos, pos + dec_digits(n).len() as int) == dec_digits(n),
    ensures
        dec_val(s, pos, pos + dec_digits(n).len() as int) == n,
    decreases n,
{
    let dd = dec_digits(n);
    let l = dd.len() as int;
    lemma_char_at(s, pos, l, dd, l - 1);
    if n < 10 {
        assert(dec_val(s, pos, pos) == 0);
        assert(dval(digit_char(n)) == n);
        assert(dec_val(s, pos, pos + 1) == dec_val(s, pos, pos) * 10 + dval(s[pos]));
    } else {
        lemma_dec_digits_digits(n / 10);
        let head = dec_digits(n / 10);
        assert(dd == head.push(digit_char(n % 10)));
        assert(dd.subrange(0, l - 1) =~= head);
        lemma_subrange_piece(s, pos, l, 0, l - 1, dd);
        assert(s.subrange(pos, pos + head.len() as int) =~= dd.subrange(0, l - 1));
        lemma_digits_value(s, pos, n / 10);
        assert(dd[l - 1] == digit_char(n % 10));
        assert(dval(digit_char(n % 10)) == n % 10);
        assert(dec_val(s, pos, pos + l) == dec_val(s, pos, pos + l - 1) * 10 + dval(
            s[pos + l - 1],
        ));
    }
}

/// Reading an escaped string back, through the closing quote, yields
/// the characters from `i` on.
pub proof fn lemma_str_parse(s: Seq<char>, pos: int, cs: Seq<char>, i: int)
    requires
        0 <= i <= cs.len(),
        0 <= pos,
        pos + esc_from(cs, i).len() < s.len(),
        s.subrange(pos, pos + esc_from(cs, i).len() as int) == esc_from(cs, i),
        s[pos + esc_from(cs, i).len()] == '"',
    ensures
        jparse_str(s, pos) == (JStrOut::Val {
            cs: cs.subrange(i, cs.len() as int),
            end: pos + esc_from(cs, i).len() + 1,
        }),
    decreases cs.len() - i,
{
    let e = esc_from(cs, i);
    let l = e.len() as int;
    if i == cs.len() {
        assert(e =~= Seq::<char>::empty());
        assert(cs.subrange(i, cs.len() as int) =~= Seq::<char>::empty());
    } else {
        let etail = esc_from(cs, i + 1);
        let tl = etail.len() as int;
        let c = cs[i];
        assert(e == esc_char(c) + etail);
        let el = esc_char(c).len() as int;
        if c == '"' || c == '\\' || c == '\n' || c == '\t' || c == '\r' || c == '\u{8}' || c
            == '\u{c}' {
            assert(e[0] == '\\');
            assert(unesc_char(e[1]) == Some(c));
            assert(e[1] != 'u');
            lemma_char_at(s, pos, l, e, 0);
            lemma_char_at(s, pos, l, e, 1);
            lemma_subrange_piece(s, pos, l, 2, l, e);
            assert(e.subrange(2, l) =~= etail);
            lemma_str_parse(s, pos + 2, cs, i + 1);
        } else if (c as u32) < 0x20 {
            let d = c as u32 as int;
            assert(e[0] == '\\' && e[1] == 'u' && e[2] == '0' && e[3] == '0' && e[4] == hex_char(
                d / 16,
            ) && e[5] == hex_char(d % 16));
            lemma_char_at(s, pos, l, e, 0);
            lemma_char_at(s, pos, l, e, 1);
            lemma_char_at(s, pos, l, e, 2);
            lemma_char_at(s, pos, l, e, 3);
            lemma_char_at(s, pos, l, e, 4);
            lemma_char_at(s, pos, l, e, 5);
            assert(hval(hex_char(d / 16)) == d / 16);
            assert(hval(hex_char(d % 16)) == d % 16);
            assert(hex4_at(s, pos + 2));
            assert(hex4_val(s, pos + 2) == d);
            assert(!is_high_surrogate(d) && !is_low_surrogate(d));
            assert(char_of(d) == c) by {
                assert((c as u32) == d);
                vstd::utf8::char_u32_cast(c, c as u32);
                assert((d as u32) == (c as u32));
                assert(((c as u32) as char) == c);
            }
            lemma_subrange_piece(s, pos, l, 6, l, e);
            assert(e.subrange(6, l) =~= etail);
            lemma_str_parse(s, pos + 6, cs, i + 1);
        } else {
            assert(e[0] == c);
            lemma_char_at(s, pos, l, e, 0);
            lemma_subrange_piece(s, pos, l, 1, l, e);
            assert(e.subrange(1, l) =~= etail);
            lemma_str_parse(s, pos + 1, cs, i + 1);
        }
        assert(seq![c] + cs.subrange(i + 1, cs.len() as int) =~= cs.subrange(i, cs.len() as int));
    }
}

/// A serialized value is non-empty, and its first character is no
/// whitespace, none of the closing marks, and a digit only for a
/// non-negative number.
pub proof fn lemma_jser_shape(j: JsonV)
    ensures
        jser(j).len() >= 1,
        !is_ws(jser(j)[0]),
        jser(j)[0] != ']' && jser(j)[0] != '}' && jser(j)[0] != ',' && jser(j)[0] != '/' && jser(
            j,
        )[0] != ':',
        is_digit_c(jser(j)[0]) ==> j matches JsonV::Num(..),
{
    match j {
        JsonV::Num(n) => {
            if n >= 0 {
                lemma_dec_digits_digits(n);
            } else {
                lemma_dec_digits_digits(-n);
            }
        },
        _ => {},
    }
}

/// Parsing the serialized form of a value, inside a larger text,
/// yields the value back and stops right after it.
pub proof fn lemma_value_parse(s: Seq<char>, pos: int, j: JsonV)
    requires
        rt_ok(j),
        0 <= pos,
        pos + jser(j).len() <= s.len(),
        s.subrange(pos, pos + jser(j).len() as int) == jser(j),
        pos + jser(j).len() < s.len() ==> !is_digit_c(s[pos + jser(j).len()]),
    ensures
        jparse_value(s, pos) == (JOut::Val { v: j, end: pos + jser(j).len() }),
    decreases j, 0int, 0int,
{
    lemma_jser_shape(j);
    let w = jser(j);
    let l = w.len() as int;
    lemma_char_at(s, pos, l, w, 0);
    match j {
        JsonV::Null => {
            lemma_char_at(s, pos, l, w, 1);
            lemma_char_at(s, pos, l, w, 2);
            lemma_char_at(s, pos, l, w, 3);
        },
        JsonV::Bool(b) => {
            lemma_char_at(s, pos, l, w, 1);
            lemma_char_at(s, pos, l, w, 2);
            lemma_char_at(s, pos, l, w, 3);
            if !b {
                lemma_char_at(s, pos, l, w, 4);
            }
        },
        JsonV::Num(n) => {
            if n >= 0 {
                lemma_dec_digits_digits(n);
                assert forall|k: int| pos <= k < pos + l implies is_digit_c(s[k]) by {
                    lemma_char_at(s, pos, l, w, k - pos);
                }
                lemma_digit_end_of_run(s, pos, pos + l);
                lemma_digits_value(s, pos, n);
            } else {
                lemma_dec_digits_digits(-n);
                let dd = dec_digits(-n);
                assert(w == seq!['-'] + dd);
                assert(w[0] == '-');
                lemma_subrange_piece(s, pos, l, 1, l, w);
                assert(w.subrange(1, l) =~= dd);
                assert forall|k: int| pos + 1 <= k < pos + l implies is_digit_c(s[k]) by {
                    lemma_char_at(s, pos, l, w, k - pos);
                    assert(w[k - pos] == dd[k - pos - 1]);
                }
                lemma_digit_end_of_run(s, pos + 1, pos + l);
                lemma_digits_value(s, pos + 1, -n);
            }
        },
        JsonV::Str(cs) => {
            let el = esc_from(cs, 0).len() as int;
            assert(w == seq!['"'] + esc_from(cs, 0) + seq!['"']);
            assert(w[0] == '"');
            lemma_subrange_piece(s, pos, l, 1, 1 + el, w);
            assert(w.subrange(1, 1 + el) =~= esc_from(cs, 0));
            lemma_char_at(s, pos, l, w, l - 1);
            assert(w[l - 1] == '"');
            lemma_str_parse(s, pos + 1, cs, 0);
            assert(cs.subrange(0, cs.len() as int) =~= cs);
        },
        JsonV::Arr(vs) => {
            assert(w[0] == '[');
            if vs.len() == 0 {
                assert(vs =~= Seq::<JsonV>::empty());
                assert(jser_elems(vs, 0) =~= Seq::<char>::empty());
                assert(w =~= seq!['[', ']']);
                lemma_char_at(s, pos, l, w, 1);
                assert(skip_ws(s, pos + 1) == pos + 1);
            } else {
                let el = jser_elems(vs, 0).len() as int;
                assert(w == seq!['['] + jser_elems(vs, 0) + seq![']']);
                lemma_jser_shape(vs[0]);
                assert(jser_elems(vs, 0)[0] == jser(vs[0])[0]);
                lemma_char_at(s, pos, l, w, 1);
                assert(w[1] == jser_elems(vs, 0)[0]);
                assert(skip_ws(s, pos + 1) == pos + 1);
                lemma_subrange_piece(s, pos, l, 1, 1 + el, w);
                assert(w.subrange(1, 1 + el) =~= jser_elems(vs, 0));
                lemma_char_at(s, pos, l, w, l - 1);
                assert(w[l - 1] == ']');
                lemma_elems_parse(s, pos + 1, vs, 0);
                assert(vs.subrange(0, vs.len() as int) =~= vs);
            }
        },
        JsonV::Obj(ms) => {
            assert(w[0] == '{');
            if ms.len() == 0 {
                assert(ms =~= Seq::<(Seq<char>, JsonV)>::empty());
                assert(jser_membs(ms, 0) =~= Seq::<char>::empty());
                assert(w =~= seq!['{', '}']);
                lemma_char_at(s, pos, l, w, 1);
                assert(skip_ws(s, pos + 1) == pos + 1);
            } else {
                let el = jser_membs(ms, 0).len() as int;
                assert(w == seq!['{'] + jser_membs(ms, 0) + seq!['}']);
                assert(jser_membs(ms, 0)[0] == '"');
                lemma_char_at(s, pos, l, w, 1);
                assert(w[1] == '"');
                assert(skip_ws(s, pos + 1) == pos + 1);
                lemma_subrange_piece(s, pos, l, 1, 1 + el, w);
                assert(w.subrange(1, 1 + el) =~= jser_membs(ms, 0));
                lemma_char_at(s, pos, l, w, l - 1);
                assert(w[l - 1] == '}');
                lemma_membs_parse(s, pos + 1, ms, 0);
                assert(ms.subrange(0, ms.len() as int) =~= ms);
            }
        },
        JsonV::Bin(_) => {},
    }
}

/// Parsing serialized array elements, from `i` on, through the
/// closing bracket.
pub proof fn lemma_elems_parse(s: Seq<char>, pos: int, vs: Seq<JsonV>, i: int)
    requires
        0 <= i < vs.len(),
        rt_ok_elems(vs, i),
        0 <= pos,
        pos + jser_elems(vs, i).len() < s.len(),
        s.subrange(pos, pos + jser_elems(vs, i).len() as int) == jser_elems(vs, i),
        s[pos + jser_elems(vs, i).len()] == ']',
    ensures
        jparse_elems(s, pos) == (JSeqOut::Val {
            vs: vs.subrange(i, vs.len() as int),
            end: pos + jser_elems(vs, i).len() + 1,
        }),
    decreases vs, 1int, vs.len() - i,
{
    let w = jser_elems(vs, i);
    let l = w.len() as int;
    let hl = jser(vs[i]).len() as int;
    lemma_jser_shape(vs[i]);
    if i == vs.len() - 1 {
        assert(w == jser(vs[i]));
        lemma_char_at(s, pos, l, w, 0);
        assert(skip_ws(s, pos) == pos);
        lemma_value_parse(s, pos, vs[i]);
        assert(skip_ws(s, pos + hl) == pos + hl);
        assert(vs.subrange(i, vs.len() as int) =~= seq![vs[i]]);
    } else {
        assert(w == jser(vs[i]) + seq![','] + jser_elems(vs, i + 1));
        assert(w[0] == jser(vs[i])[0]);
        lemma_char_at(s, pos, l, w, 0);
        assert(skip_ws(s, pos) == pos);
        lemma_subrange_piece(s, pos, l, 0, hl, w);
        assert(w.subrange(0, hl) =~= jser(vs[i]));
        lemma_char_at(s, pos, l, w, hl);
        assert(w[hl] == ',');
        lemma_value_parse(s, pos, vs[i]);
        assert(skip_ws(s, pos + hl) == pos + hl);
        let tail = jser_elems(vs, i + 1);
        lemma_subrange_piece(s, pos, l, hl + 1, l, w);
        assert(w.subrange(hl + 1, l) =~= tail);
        lemma_elems_parse(s, pos + hl + 1, vs, i + 1);
        assert(seq![vs[i]] + vs.subrange(i + 1, vs.len() as int) =~= vs.subrange(
            i,
            vs.len() as int,
        ));
    }
}

/// Parsing serialized object members, from `i` on, through the
/// closing brace.
pub proof fn lemma_membs_parse(s: Seq<char>, pos: int, ms: Seq<(Seq<char>, JsonV)>, i: int)
    requires
        0 <= i < ms.len(),
        rt_ok_membs(ms, i),
        0 <= pos,
        pos + jser_membs(ms, i).len() < s.len(),
        s.subrange(pos, pos + jser_membs(ms, i).len() as int) == jser_membs(ms, i),
        s[pos + jser_membs(ms, i).len()] == '}',
    ensures
        jparse_membs(s, pos) == (JMembOut::Val {
            ms: ms.subrange(i, ms.len() as int),
            end: pos + jser_membs(ms, i).len() + 1,
        }),
    decreases ms, 1int, ms.len() - i,
{
    let w = jser_membs(ms, i);
    let l = w.len() as int;
    let key = ms[i].0;
    let kl = esc_from(key, 0).len() as int;
    let vl = jser(ms[i].1).len() as int;
    let head = seq!['"'] + esc_from(key, 0) + seq!['"', ':'] + jser(ms[i].1);
    lemma_jser_shape(ms[i].1);
    if i == ms.len() - 1 {
        assert(w == head);
    } else {
        assert(w == head + seq![','] + jser_membs(ms, i + 1));
    }
    assert(w[0] == '"');
    lemma_char_at(s, pos, l, w, 0);
    assert(skip_ws(s, pos) == pos);
    lemma_subrange_piece(s, pos, l, 1, 1 + kl, w);
    assert(w.subrange(1, 1 + kl) =~= esc_from(key, 0));
    lemma_char_at(s, pos, l, w, 1 + kl);
    assert(w[1 + kl] == '"');
    lemma_str_parse(s, pos + 1, key, 0);
    assert(key.subrange(0, key.len() as int) =~= key);
    let kend = pos + 1 + kl + 1;
    lemma_char_at(s, pos, l, w, 2 + kl);
    assert(w[2 + kl] == ':');
    assert(skip_ws(s, kend) == kend);
    lemma_char_at(s, pos, l, w, 3 + kl);
    assert(w[3 + kl] == jser(ms[i].1)[0]);
    assert(skip_ws(s, kend + 1) == kend + 1);
    lemma_subrange_piece(s, pos, l, 3 + kl, 3 + kl + vl, w);
    assert(w.subrange(3 + kl, 3 + kl + vl) =~= jser(ms[i].1));
    let vend = kend + 1 + vl;
    if i == ms.len() - 1 {
        lemma_value_parse(s, kend + 1, ms[i].1);
        assert(skip_ws(s, vend) == vend);
        assert(ms.subrange(i, ms.len() as int) =~= seq![(key, ms[i].1)]);
    } else {
        lemma_char_at(s, pos, l, w, 3 + kl + vl);
        assert(w[3 + kl + vl] == ',');
        lemma_value_parse(s, kend + 1, ms[i].1);
        assert(skip_ws(s, vend) == vend);
        let tail = jser_membs(ms, i + 1);
        lemma_subrange_piece(s, pos, l, 4 + kl + vl, l, w);
        assert(w.subrange(4 + kl + vl, l) =~= tail);
        lemma_membs_parse(s, vend + 1, ms, i + 1);
        assert(seq![(key, ms[i].1)] + ms.subrange(i + 1, ms.len() as int) =~= ms.subrange(
            i,
            ms.len() as int,
        ));
    }
}

/// Parsing the whole serialized text of a value yields the value:
/// the serializer and the parser are mutual inverses on every value
/// the wire can carry.
pub proof fn lemma_doc_round_trip(j: JsonV)
    requires
        rt_ok(j),
    ensures
        jparse_doc(jser(j)) == (JOut::Val { v: j, end: jser(j).len() as int }),
{
    let s = jser(j);
    lemma_jser_shape(j);
    assert(skip_ws(s, 0) == 0);
    assert(s.subrange(0, s.len() as int) =~= s);
    lemma_value_parse(s, 0, j);
    assert(skip_ws(s, s.len() as int) == s.len() as int);
}

} // verus!
