//! The mathematical model of a JSON document.
//!
//! [`JsonModel`] is the abstract value tree: the view of the executable
//! [`crate::value::Value`] type.  This module also defines, purely at the
//! spec level,
//! - the canonical rendering [`ser`] of a model to text, and
//! - the grammar scanners ([`scan_number`], [`scan_string_body`]) and the
//!   recursive-descent parser [`sp_value`] over a character sequence,
//! which the executable serializer and parser are proved to implement
//! exactly.

use vstd::prelude::*;
use crate::errors::ErrorKind;
use crate::text::{char_at, digit_val, digits_end, hex_val, is_digit, is_hex, is_ws, ws_end};

verus! {

broadcast use crate::text::lemma_ws_end_bounds, crate::text::lemma_digits_end_bounds;


/// The abstract JSON value tree.
///
/// A number is carried as its decimal lexeme (the exact character run
/// accepted by the number production); a string is carried as its decoded
/// character content, escapes already resolved.  Object members keep
/// insertion order and keys may repeat.
#[verifier::ext_equal]
pub enum JsonModel {
    Null,
    Bool(bool),
    Num(Seq<char>),
    Str(Seq<char>),
    Arr(Seq<JsonModel>),
    Obj(Seq<(Seq<char>, JsonModel)>),
}

// ---------------------------------------------------------------------------
// The number production
// ---------------------------------------------------------------------------

/// What a number scan yields: the offset one past the lexeme, or the
/// first violation.
pub enum NumScan {
    Done { end: int },
    Bad { kind: ErrorKind, at: int },
}

/// Digits of `s[i..j]` read as a decimal integer, capped at 10^21.
///
/// The cap matters only to keep the definition executable with machine
/// integers: every decision taken over this value is a comparison against
/// a threshold far below the cap, and once the cap is reached the true
/// value is beyond every such threshold as well.
pub open spec fn dec_val_capped(s: Seq<char>, i: int, j: int, acc: int) -> int
    decreases j - i,
{
    if i < j && 0 <= i < s.len() {
        if acc >= 1000000000000000000000 {
            acc
        } else {
            dec_val_capped(s, i + 1, j, acc * 10 + digit_val(s[i]))
        }
    } else {
        acc
    }
}

/// The first offset in `s[i..j]` holding a digit other than `'0'`, or `j`.
pub open spec fn first_sig_digit(s: Seq<char>, i: int, j: int) -> int
    decreases j - i,
{
    if i < j && 0 <= i < s.len() && s[i] == '0' {
        first_sig_digit(s, i + 1, j)
    } else {
        i
    }
}

/// The first seventeen significant digits of a number, read as an
/// integer: digits are taken from `s[i..ie]` and then from `s[fs..fe]`,
/// and padded with zeros when fewer than seventeen stand there.
pub open spec fn lead17(s: Seq<char>, i: int, ie: int, fs: int, fe: int, acc: int, n: int) -> int
    decreases ie - i, fe - fs, 17 - n,
{
    if n >= 17 {
        acc
    } else if i < ie {
        lead17(s, i + 1, ie, fs, fe, acc * 10 + digit_val(char_at(s, i)), n + 1)
    } else if fs < fe {
        lead17(s, i, ie, fs + 1, fe, acc * 10 + digit_val(char_at(s, fs)), n + 1)
    } else {
        lead17(s, i, ie, fs, fe, acc * 10, n + 1)
    }
}

/// Whether the scanned number's magnitude is certainly past the upper
/// end of the double range.
///
/// `ds` is the first digit of the integer part, `ie` its end, `fs..fe`
/// the fraction digits, and `exp` the signed exponent value.  With `e`
/// the derived decimal exponent, the magnitude lies in
/// `[10^(e-1), 10^e)`.  Everything with `e > 309` is rejected; at the
/// boundary decade `e == 309` the first seventeen significant digits
/// are compared against 17976931348623159, the smallest
/// seventeen-digit prefix that lies wholly beyond the largest double
/// (1.7976931348623157e308) and its rounding threshold.  Every rejected
/// number therefore truly overflows; magnitudes between the exact
/// threshold and 1.7976931348623159e308 — within one part in 10^16 of
/// it — still pass.
pub open spec fn num_too_large(s: Seq<char>, ds: int, ie: int, fs: int, fe: int, exp: int) -> bool {
    if char_at(s, ds) != '0' {
        // integer part has no leading zero, so its first digit is significant
        let e = (ie - ds) + exp;
        e > 309 || (e == 309 && lead17(s, ds, ie, fs, fe, 0, 0) >= 17976931348623159)
    } else {
        // integer part is exactly "0": look for the first significant
        // fraction digit
        let p = first_sig_digit(s, fs, fe);
        if p >= fe {
            false
        } else {
            let e = exp - (p - fs);
            e > 309 || (e == 309 && lead17(s, p, fe, fe, fe, 0, 0) >= 17976931348623159)
        }
    }
}

/// The number production: `-? (0 | [1-9][0-9]*) (. [0-9]+)? ([eE][+-]?[0-9]+)?`,
/// rejected with `InvalidValue` on a grammar violation (a leading zero
/// followed by digits included) and with `NumberTooLarge` when the value
/// is beyond double range.
pub open spec fn scan_number(s: Seq<char>, i: int) -> NumScan {
    let ds = if char_at(s, i) == '-' {
        i + 1
    } else {
        i
    };
    if !(ds < s.len() && is_digit(s[ds])) {
        NumScan::Bad { kind: ErrorKind::InvalidValue, at: ds }
    } else {
        let ie = if s[ds] == '0' {
            ds + 1
        } else {
            digits_end(s, ds)
        };
        if ie < s.len() && is_digit(s[ie]) {
            // only reachable after a leading zero
            NumScan::Bad { kind: ErrorKind::InvalidValue, at: ie }
        } else if ie < s.len() && s[ie] == '.' && !(ie + 1 < s.len() && is_digit(s[ie + 1])) {
            NumScan::Bad { kind: ErrorKind::InvalidValue, at: ie + 1 }
        } else {
            let fs = if ie < s.len() && s[ie] == '.' {
                ie + 1
            } else {
                ie
            };
            let fe = if ie < s.len() && s[ie] == '.' {
                digits_end(s, ie + 1)
            } else {
                ie
            };
            if fe < s.len() && (s[fe] == 'e' || s[fe] == 'E') {
                let es = if fe + 1 < s.len() && (s[fe + 1] == '+' || s[fe + 1] == '-') {
                    fe + 2
                } else {
                    fe + 1
                };
                if !(es < s.len() && is_digit(s[es])) {
                    NumScan::Bad { kind: ErrorKind::InvalidValue, at: es }
                } else {
                    let ee = digits_end(s, es);
                    let mag = dec_val_capped(s, es, ee, 0);
                    let exp = if char_at(s, fe + 1) == '-' {
                        -mag
                    } else {
                        mag
                    };
                    if num_too_large(s, ds, ie, fs, fe, exp) {
                        NumScan::Bad { kind: ErrorKind::NumberTooLarge, at: i }
                    } else {
                        NumScan::Done { end: ee }
                    }
                }
            } else {
                if num_too_large(s, ds, ie, fs, fe, 0) {
                    NumScan::Bad { kind: ErrorKind::NumberTooLarge, at: i }
                } else {
                    NumScan::Done { end: fe }
                }
            }
        }
    }
}

/// A character run that the number production accepts whole.
pub open spec fn num_lexeme_ok(lx: Seq<char>) -> bool {
    scan_number(lx, 0) == NumScan::Done { end: lx.len() as int }
}

// ---------------------------------------------------------------------------
// The string production
// ---------------------------------------------------------------------------

/// What a string-body scan yields: the decoded content and the offset one
/// past the closing quote, or the first violation.
pub enum StrScan {
    Done { content: Seq<char>, end: int },
    Bad { kind: ErrorKind, at: int },
}

/// The decoded character of a one-letter escape, if `c` is one.
pub open spec fn esc_code(c: char) -> Option<char> {
    if c == '"' {
        Some('"')
    } else if c == '\\' {
        Some('\\')
    } else if c == '/' {
        Some('/')
    } else if c == 'b' {
        Some('\u{8}')
    } else if c == 'f' {
        Some('\u{c}')
    } else if c == 'n' {
        Some('\n')
    } else if c == 'r' {
        Some('\r')
    } else if c == 't' {
        Some('\t')
    } else {
        None
    }
}

/// Whether four hexadecimal digits stand at `i`.
pub open spec fn hex4_ok(s: Seq<char>, i: int) -> bool {
    &&& 0 <= i
    &&& i + 4 <= s.len()
    &&& is_hex(s[i])
    &&& is_hex(s[i + 1])
    &&& is_hex(s[i + 2])
    &&& is_hex(s[i + 3])
}

/// The value of the four hexadecimal digits at `i`.
pub open spec fn hex4_val(s: Seq<char>, i: int) -> int {
    hex_val(char_at(s, i)) * 0x1000 + hex_val(char_at(s, i + 1)) * 0x100 + hex_val(
        char_at(s, i + 2),
    ) * 0x10 + hex_val(char_at(s, i + 3))
}

/// The code point combined from a high and a low UTF-16 surrogate.
pub open spec fn surrogate_combine(h: int, l: int) -> int {
    0x10000 + (h - 0xD800) * 0x400 + (l - 0xDC00)
}

/// The string body from `i` (one past the opening quote) to its closing
/// quote: literal characters, one-letter escapes, `\uXXXX` escapes with
/// surrogate pairing.  Raw control characters are rejected; so is an
/// input that ends before the closing quote.
pub open spec fn scan_string_body(s: Seq<char>, i: int) -> StrScan
    decreases s.len() - i,
{
    if !(0 <= i < s.len()) {
        StrScan::Bad { kind: ErrorKind::MissQuotationMark, at: i }
    } else if s[i] == '"' {
        StrScan::Done { content: Seq::empty(), end: i + 1 }
    } else if s[i] == '\\' {
        let e = char_at(s, i + 1);
        if esc_code(e) is Some {
            match scan_string_body(s, i + 2) {
                StrScan::Done { content, end } => StrScan::Done {
                    content: seq![esc_code(e)->Some_0] + content,
                    end,
                },
                bad => bad,
            }
        } else if e == 'u' {
            if !hex4_ok(s, i + 2) {
                StrScan::Bad { kind: ErrorKind::InvalidStringEscape, at: i + 2 }
            } else {
                let h = hex4_val(s, i + 2);
                if 0xD800 <= h <= 0xDBFF {
                    if !(char_at(s, i + 6) == '\\' && char_at(s, i + 7) == 'u' && hex4_ok(
                        s,
                        i + 8,
                    )) {
                        StrScan::Bad { kind: ErrorKind::InvalidUnicodeSurrogate, at: i + 6 }
                    } else {
                        let l = hex4_val(s, i + 8);
                        if !(0xDC00 <= l <= 0xDFFF) {
                            StrScan::Bad { kind: ErrorKind::InvalidUnicodeSurrogate, at: i + 8 }
                        } else {
                            match scan_string_body(s, i + 12) {
                                StrScan::Done { content, end } => StrScan::Done {
                                    content: seq![surrogate_combine(h, l) as char] + content,
                                    end,
                                },
                                bad => bad,
                            }
                        }
                    }
                } else if 0xDC00 <= h <= 0xDFFF {
                    StrScan::Bad { kind: ErrorKind::InvalidUnicodeSurrogate, at: i + 2 }
                } else {
                    match scan_string_body(s, i + 6) {
                        StrScan::Done { content, end } => StrScan::Done {
                            content: seq![h as char] + content,
                            end,
                        },
                        bad => bad,
                    }
                }
            }
        } else {
            StrScan::Bad { kind: ErrorKind::InvalidStringEscape, at: i + 1 }
        }
    } else if (s[i] as u32) < 0x20 {
        StrScan::Bad { kind: ErrorKind::InvalidStringChar, at: i }
    } else {
        match scan_string_body(s, i + 1) {
            StrScan::Done { content, end } => StrScan::Done {
                content: seq![s[i]] + content,
                end,
            },
            bad => bad,
        }
    }
}

// ---------------------------------------------------------------------------
// Canonical rendering
// ---------------------------------------------------------------------------

/// The character for the hexadecimal digit `d`.
pub open spec fn hex_digit_char(d: int) -> char {
    if d < 10 {
        (('0' as int) + d) as char
    } else {
        (('a' as int) + (d - 10)) as char
    }
}

/// How one string character is rendered: `"`, `\` and the named control
/// characters as their short escapes, other control characters as
/// `\u00XX`, everything else literally.
pub open spec fn esc_char(c: char) -> Seq<char> {
    if c == '"' {
        seq!['\\', '"']
    } else if c == '\\' {
        seq!['\\', '\\']
    } else if c == '\u{8}' {
        seq!['\\', 'b']
    } else if c == '\u{c}' {
        seq!['\\', 'f']
    } else if c == '\n' {
        seq!['\\', 'n']
    } else if c == '\r' {
        seq!['\\', 'r']
    } else if c == '\t' {
        seq!['\\', 't']
    } else if (c as u32) < 0x20 {
        seq!['\\', 'u', '0', '0', hex_digit_char((c as int) / 16), hex_digit_char((c as int) % 16)]
    } else {
        seq![c]
    }
}

/// The rendering of string content from offset `i` on.
pub open spec fn ser_str_body(sc: Seq<char>, i: int) -> Seq<char>
    decreases sc.len() - i,
{
    if 0 <= i < sc.len() {
        esc_char(sc[i]) + ser_str_body(sc, i + 1)
    } else {
        Seq::empty()
    }
}

/// The canonical minified rendering of a model tree: no inserted
/// whitespace, elements and members in order, strings re-escaped.
pub open spec fn ser(m: JsonModel) -> Seq<char>
    decreases m, 0int, 0int,
{
    match m {
        JsonModel::Null => seq!['n', 'u', 'l', 'l'],
        JsonModel::Bool(b) => if b {
            seq!['t', 'r', 'u', 'e']
        } else {
            seq!['f', 'a', 'l', 's', 'e']
        },
        JsonModel::Num(lx) => lx,
        JsonModel::Str(sc) => seq!['"'] + ser_str_body(sc, 0) + seq!['"'],
        JsonModel::Arr(es) => seq!['['] + ser_elems(es, 0) + seq![']'],
        JsonModel::Obj(ms) => seq!['{'] + ser_members(ms, 0) + seq!['}'],
    }
}

/// The renderings of the elements from `k` on, joined with commas.
pub open spec fn ser_elems(es: Seq<JsonModel>, k: int) -> Seq<char>
    decreases es, es.len() - k, 0int,
{
    if 0 <= k < es.len() {
        if k + 1 == es.len() {
            ser(es[k])
        } else {
            ser(es[k]) + seq![','] + ser_elems(es, k + 1)
        }
    } else {
        Seq::empty()
    }
}

/// The renderings of the members from `k` on — `"key":value` — joined
/// with commas.
pub open spec fn ser_members(ms: Seq<(Seq<char>, JsonModel)>, k: int) -> Seq<char>
    decreases ms, ms.len() - k, 0int,
{
    if 0 <= k < ms.len() {
        let one = seq!['"'] + ser_str_body(ms[k].0, 0) + seq!['"', ':'] + ser(ms[k].1);
        if k + 1 == ms.len() {
            one
        } else {
            one + seq![','] + ser_members(ms, k + 1)
        }
    } else {
        Seq::empty()
    }
}

// ---------------------------------------------------------------------------
// Well-formed models
// ---------------------------------------------------------------------------

/// A model the engine can both produce and render: every number lexeme is
/// one the number production accepts whole.
pub open spec fn model_wf(m: JsonModel) -> bool
    decreases m, 0int,
{
    match m {
        JsonModel::Num(lx) => num_lexeme_ok(lx),
        JsonModel::Arr(es) => wf_elems(es, 0),
        JsonModel::Obj(ms) => wf_members(ms, 0),
        _ => true,
    }
}

/// Well-formedness of the elements from `k` on.
pub open spec fn wf_elems(es: Seq<JsonModel>, k: int) -> bool
    decreases es, es.len() - k,
{
    if 0 <= k < es.len() {
        model_wf(es[k]) && wf_elems(es, k + 1)
    } else {
        true
    }
}

/// Well-formedness of the member values from `k` on.
pub open spec fn wf_members(ms: Seq<(Seq<char>, JsonModel)>, k: int) -> bool
    decreases ms, ms.len() - k,
{
    if 0 <= k < ms.len() {
        model_wf(ms[k].1) && wf_members(ms, k + 1)
    } else {
        true
    }
}

// ---------------------------------------------------------------------------
// The spec-level parser
// ---------------------------------------------------------------------------

/// What a spec-level parse step yields: a model and the offset where
/// parsing stopped, or the first violation and its offset.
pub enum PRes {
    Val { v: JsonModel, end: int },
    Fail { kind: ErrorKind, at: int },
}

/// Whether the literal `lit` stands at offset `i`.
pub open spec fn lit_matches(s: Seq<char>, i: int, lit: Seq<char>) -> bool {
    i + lit.len() <= s.len() && s.subrange(i, i + lit.len()) == lit
}

/// Where matching the literal `lit` at offset `j` first goes wrong,
/// scanning from the literal's index `k`: the offset of the first
/// differing character, or of the end of the input; one past the
/// literal when nothing goes wrong.
pub open spec fn lit_mismatch(s: Seq<char>, j: int, lit: Seq<char>, k: int) -> int
    decreases lit.len() - k,
{
    if k < lit.len() {
        if j + k >= s.len() || s[j + k] != lit[k] {
            j + k
        } else {
            lit_mismatch(s, j, lit, k + 1)
        }
    } else {
        j + lit.len()
    }
}

/// One `value` of the grammar: leading whitespace, a production selected
/// by the first character, trailing whitespace.  `end` stands one past
/// the trailing whitespace.
pub open spec fn sp_value(s: Seq<char>, i: int) -> PRes
    decreases s.len() - i, 1int,
{
    let j = ws_end(s, i);
    if j >= s.len() {
        PRes::Fail { kind: ErrorKind::ExpectValue, at: j }
    } else {
        let c = s[j];
        if c == 'n' {
            sp_literal(s, j, seq!['n', 'u', 'l', 'l'], JsonModel::Null)
        } else if c == 't' {
            sp_literal(s, j, seq!['t', 'r', 'u', 'e'], JsonModel::Bool(true))
        } else if c == 'f' {
            sp_literal(s, j, seq!['f', 'a', 'l', 's', 'e'], JsonModel::Bool(false))
        } else if c == '"' {
            match scan_string_body(s, j + 1) {
                StrScan::Done { content, end } => PRes::Val {
                    v: JsonModel::Str(content),
                    end: ws_end(s, end),
                },
                StrScan::Bad { kind, at } => PRes::Fail { kind, at },
            }
        } else if c == '[' {
            let j1 = ws_end(s, j + 1);
            if j1 < s.len() && s[j1] == ']' {
                PRes::Val { v: JsonModel::Arr(Seq::empty()), end: ws_end(s, j1 + 1) }
            } else {
                match sp_elems(s, j + 1, Seq::empty()) {
                    PRes::Val { v, end } => PRes::Val { v, end: ws_end(s, end) },
                    fail => fail,
                }
            }
        } else if c == '{' {
            let j1 = ws_end(s, j + 1);
            if j1 < s.len() && s[j1] == '}' {
                PRes::Val { v: JsonModel::Obj(Seq::empty()), end: ws_end(s, j1 + 1) }
            } else {
                match sp_members(s, j + 1, Seq::empty()) {
                    PRes::Val { v, end } => PRes::Val { v, end: ws_end(s, end) },
                    fail => fail,
                }
            }
        } else if c == '-' || is_digit(c) {
            match scan_number(s, j) {
                NumScan::Done { end } => PRes::Val {
                    v: JsonModel::Num(s.subrange(j, end)),
                    end: ws_end(s, end),
                },
                NumScan::Bad { kind, at } => PRes::Fail { kind, at },
            }
        } else {
            PRes::Fail { kind: ErrorKind::InvalidValue, at: j }
        }
    }
}

/// A whole literal, matched character by character; any mismatch is
/// `InvalidValue` at the first differing position — the point of the
/// violation, as everywhere else in the grammar.
pub open spec fn sp_literal(s: Seq<char>, j: int, lit: Seq<char>, v: JsonModel) -> PRes {
    if lit_matches(s, j, lit) {
        PRes::Val { v, end: ws_end(s, j + lit.len()) }
    } else {
        PRes::Fail { kind: ErrorKind::InvalidValue, at: lit_mismatch(s, j, lit, 0) }
    }
}

/// Array elements from offset `i` (one past `[` or a comma), with the
/// elements already parsed in `acc`.  `end` stands one past the `]`; the
/// caller consumes trailing whitespace.
pub open spec fn sp_elems(s: Seq<char>, i: int, acc: Seq<JsonModel>) -> PRes
    decreases s.len() - i, 2int,
{
    match sp_value(s, i) {
        PRes::Fail { kind, at } => PRes::Fail { kind, at },
        PRes::Val { v, end } => {
            // a parsed value always stands past its first character;
            // the guard keeps the recursion well-founded
            let j = if end > i {
                end
            } else {
                i + 1
            };
            if j >= s.len() {
                PRes::Fail { kind: ErrorKind::MissCommaOrSquareBracket, at: j }
            } else if s[j] == ',' {
                sp_elems(s, j + 1, acc.push(v))
            } else if s[j] == ']' {
                PRes::Val { v: JsonModel::Arr(acc.push(v)), end: j + 1 }
            } else {
                PRes::Fail { kind: ErrorKind::MissCommaOrSquareBracket, at: j }
            }
        },
    }
}

/// Object members from offset `i` (one past `{` or a comma), with the
/// members already parsed in `acc`: a string key, a colon, a value, then
/// a comma or the closing brace.  `end` stands one past the `}`; the
/// caller consumes trailing whitespace.
pub open spec fn sp_members(s: Seq<char>, i: int, acc: Seq<(Seq<char>, JsonModel)>) -> PRes
    decreases s.len() - i, 2int,
{
    let j = ws_end(s, i);
    if !(j < s.len() && s[j] == '"') {
        PRes::Fail { kind: ErrorKind::MissKey, at: j }
    } else {
        match scan_string_body(s, j + 1) {
            StrScan::Bad { kind, at } => PRes::Fail { kind, at },
            StrScan::Done { content, end } => {
                // the closing quote stands past the opening one
                let e2 = if end > j + 1 {
                    end
                } else {
                    j + 2
                };
                let k = ws_end(s, e2);
                if !(k < s.len() && s[k] == ':') {
                    PRes::Fail { kind: ErrorKind::MissColon, at: k }
                } else {
                    match sp_value(s, k + 1) {
                        PRes::Fail { kind, at } => PRes::Fail { kind, at },
                        PRes::Val { v, end } => {
                            let j2 = if end > k + 1 {
                                end
                            } else {
                                k + 2
                            };
                            if j2 >= s.len() {
                                PRes::Fail { kind: ErrorKind::MissCommaOrSquareBracket, at: j2 }
                            } else if s[j2] == ',' {
                                sp_members(s, j2 + 1, acc.push((content, v)))
                            } else if s[j2] == '}' {
                                PRes::Val { v: JsonModel::Obj(acc.push((content, v))), end: j2 + 1 }
                            } else {
                                PRes::Fail { kind: ErrorKind::MissCommaOrSquareBracket, at: j2 }
                            }
                        },
                    }
                }
            },
        }
    }
}

/// A whole document: one `value` with its surrounding whitespace, and
/// nothing after it.
pub open spec fn sp_parse(s: Seq<char>) -> PRes {
    match sp_value(s, 0) {
        PRes::Val { v, end } => if end == s.len() {
            PRes::Val { v, end }
        } else {
            PRes::Fail { kind: ErrorKind::RootNotSingular, at: end }
        },
        fail => fail,
    }
}

// ---------------------------------------------------------------------------
// Progress of the spec-level parser
// ---------------------------------------------------------------------------

/// A number lexeme ends past its first character and inside the buffer.
pub proof fn lemma_scan_number_bounds(s: Seq<char>, i: int)
    requires
        0 <= i <= s.len(),
    ensures
        scan_number(s, i) matches NumScan::Done { end } ==> i < end <= s.len(),
{
    let ds = if char_at(s, i) == '-' { i + 1 } else { i };
    if ds < s.len() && is_digit(s[ds]) {
        assert(digits_end(s, ds) == digits_end(s, ds + 1));
    }
}

/// A string body ends past its opening offset and inside the buffer.
pub proof fn lemma_scan_string_bounds(s: Seq<char>, i: int)
    ensures
        scan_string_body(s, i) matches StrScan::Done { content, end } ==> i < end <= s.len(),
    decreases s.len() - i,
{
    if 0 <= i < s.len() && s[i] != '"' {
        if s[i] == '\\' {
            let e = char_at(s, i + 1);
            if esc_code(e) is Some {
                lemma_scan_string_bounds(s, i + 2);
            } else if e == 'u' && hex4_ok(s, i + 2) {
                let h = hex4_val(s, i + 2);
                if 0xD800 <= h <= 0xDBFF {
                    if char_at(s, i + 6) == '\\' && char_at(s, i + 7) == 'u' && hex4_ok(s, i + 8) {
                        lemma_scan_string_bounds(s, i + 12);
                    }
                } else if !(0xDC00 <= h <= 0xDFFF) {
                    lemma_scan_string_bounds(s, i + 6);
                }
            }
        } else {
            lemma_scan_string_bounds(s, i + 1);
        }
    }
}

/// A parsed value ends past its starting offset and inside the buffer.
pub proof fn lemma_sp_value_bounds(s: Seq<char>, i: int)
    requires
        0 <= i <= s.len(),
    ensures
        sp_value(s, i) matches PRes::Val { v, end } ==> i < end <= s.len(),
    decreases s.len() - i, 1int,
{
    let j = ws_end(s, i);
    if j < s.len() {
        let c = s[j];
        if c == '"' {
            lemma_scan_string_bounds(s, j + 1);
        } else if c == '[' {
            let j1 = ws_end(s, j + 1);
            if !(j1 < s.len() && s[j1] == ']') {
                lemma_sp_elems_bounds(s, j + 1, Seq::empty());
            }
        } else if c == '{' {
            let j1 = ws_end(s, j + 1);
            if !(j1 < s.len() && s[j1] == '}') {
                lemma_sp_members_bounds(s, j + 1, Seq::empty());
            }
        } else if c == '-' || is_digit(c) {
            lemma_scan_number_bounds(s, j);
        }
    }
}

/// A parsed element list ends past its starting offset and inside the
/// buffer.
pub proof fn lemma_sp_elems_bounds(s: Seq<char>, i: int, acc: Seq<JsonModel>)
    requires
        0 <= i <= s.len(),
    ensures
        sp_elems(s, i, acc) matches PRes::Val { v, end } ==> i < end <= s.len(),
    decreases s.len() - i, 2int,
{
    lemma_sp_value_bounds(s, i);
    match sp_value(s, i) {
        PRes::Fail { .. } => {},
        PRes::Val { v, end } => {
            let j = if end > i { end } else { i + 1 };
            if j < s.len() && s[j] == ',' {
                lemma_sp_elems_bounds(s, j + 1, acc.push(v));
            }
        },
    }
}

/// A parsed member list ends past its starting offset and inside the
/// buffer.
pub proof fn lemma_sp_members_bounds(s: Seq<char>, i: int, acc: Seq<(Seq<char>, JsonModel)>)
    requires
        0 <= i <= s.len(),
    ensures
        sp_members(s, i, acc) matches PRes::Val { v, end } ==> i < end <= s.len(),
    decreases s.len() - i, 2int,
{
    let j = ws_end(s, i);
    if j < s.len() && s[j] == '"' {
        lemma_scan_string_bounds(s, j + 1);
        match scan_string_body(s, j + 1) {
            StrScan::Bad { .. } => {},
            StrScan::Done { content, end } => {
                let e2 = if end > j + 1 { end } else { j + 2 };
                let k = ws_end(s, e2);
                if k < s.len() && s[k] == ':' {
                    lemma_sp_value_bounds(s, k + 1);
                    match sp_value(s, k + 1) {
                        PRes::Fail { .. } => {},
                        PRes::Val { v, end: vend } => {
                            let j2 = if vend > k + 1 { vend } else { k + 2 };
                            if j2 < s.len() && s[j2] == ',' {
                                lemma_sp_members_bounds(s, j2 + 1, acc.push((content, v)));
                            }
                        },
                    }
                }
            },
        }
    }
}

/// Where parsing a value starts matters only through `ws_end`: skipping
/// the leading whitespace first changes nothing.
pub proof fn lemma_sp_value_shift_ws(s: Seq<char>, i: int, i2: int)
    requires
        ws_end(s, i) == ws_end(s, i2),
    ensures
        sp_value(s, i) == sp_value(s, i2),
{
}

// ---------------------------------------------------------------------------
// Object lookup and editing semantics
// ---------------------------------------------------------------------------

/// The value of the last member with key `k`, if any: lookup under
/// duplicate keys goes to the most recently inserted match.
pub open spec fn obj_lookup(ms: Seq<(Seq<char>, JsonModel)>, k: Seq<char>) -> Option<JsonModel>
    decreases ms.len(),
{
    if ms.len() == 0 {
        None
    } else if ms.last().0 == k {
        Some(ms.last().1)
    } else {
        obj_lookup(ms.drop_last(), k)
    }
}

/// Whether some member has key `k`.
pub open spec fn obj_contains(ms: Seq<(Seq<char>, JsonModel)>, k: Seq<char>) -> bool {
    obj_lookup(ms, k) is Some
}

/// The members after insert-or-update: the last member with key `k`
/// takes the new value in place; with no such member the pair is
/// appended.
pub open spec fn obj_upsert(
    ms: Seq<(Seq<char>, JsonModel)>,
    k: Seq<char>,
    v: JsonModel,
) -> Seq<(Seq<char>, JsonModel)>
    decreases ms.len(),
{
    if !obj_contains(ms, k) {
        ms.push((k, v))
    } else if ms.last().0 == k {
        ms.drop_last().push((k, v))
    } else {
        obj_upsert(ms.drop_last(), k, v).push(ms.last())
    }
}

/// The members after removing the first member with key `k`, if any.
pub open spec fn obj_remove_first(
    ms: Seq<(Seq<char>, JsonModel)>,
    k: Seq<char>,
) -> Seq<(Seq<char>, JsonModel)>
    decreases ms.len(),
{
    if ms.len() == 0 {
        ms
    } else if ms.first().0 == k {
        ms.drop_first()
    } else {
        seq![ms.first()] + obj_remove_first(ms.drop_first(), k)
    }
}

/// Lookup lands on index `i` when `i` holds the key and nothing after it
/// does.
pub proof fn lemma_obj_lookup_at(ms: Seq<(Seq<char>, JsonModel)>, k: Seq<char>, i: int)
    requires
        0 <= i < ms.len(),
        ms[i].0 == k,
        forall|j: int| i < j < ms.len() ==> ms[j].0 != k,
    ensures
        obj_lookup(ms, k) == Some(ms[i].1),
    decreases ms.len(),
{
    if i + 1 < ms.len() {
        lemma_obj_lookup_at(ms.drop_last(), k, i);
    }
}

/// Lookup finds nothing when no member holds the key.
pub proof fn lemma_obj_lookup_none(ms: Seq<(Seq<char>, JsonModel)>, k: Seq<char>)
    requires
        forall|j: int| 0 <= j < ms.len() ==> ms[j].0 != k,
    ensures
        obj_lookup(ms, k) is None,
    decreases ms.len(),
{
    if ms.len() > 0 {
        lemma_obj_lookup_none(ms.drop_last(), k);
    }
}

/// Lookup finds something as soon as one member holds the key.
pub proof fn lemma_obj_lookup_some(ms: Seq<(Seq<char>, JsonModel)>, k: Seq<char>, i: int)
    requires
        0 <= i < ms.len(),
        ms[i].0 == k,
    ensures
        obj_lookup(ms, k) is Some,
    decreases ms.len(),
{
    if ms.last().0 != k {
        lemma_obj_lookup_some(ms.drop_last(), k, i);
    }
}

/// Insert-or-update replaces in place at the last matching index.
pub proof fn lemma_obj_upsert_at(
    ms: Seq<(Seq<char>, JsonModel)>,
    k: Seq<char>,
    v: JsonModel,
    i: int,
)
    requires
        0 <= i < ms.len(),
        ms[i].0 == k,
        forall|j: int| i < j < ms.len() ==> ms[j].0 != k,
    ensures
        obj_upsert(ms, k, v) == ms.update(i, (k, v)),
    decreases ms.len(),
{
    lemma_obj_lookup_some(ms, k, i);
    if i + 1 == ms.len() {
        assert(ms.drop_last().push((k, v)) =~= ms.update(i, (k, v)));
    } else {
        lemma_obj_upsert_at(ms.drop_last(), k, v, i);
        assert(ms.drop_last().update(i, (k, v)).push(ms.last()) =~= ms.update(i, (k, v)));
    }
}

/// Removing lands on index `i` when `i` holds the key and nothing before
/// it does.
pub proof fn lemma_obj_remove_at(ms: Seq<(Seq<char>, JsonModel)>, k: Seq<char>, i: int)
    requires
        0 <= i < ms.len(),
        ms[i].0 == k,
        forall|j: int| 0 <= j < i ==> ms[j].0 != k,
    ensures
        obj_remove_first(ms, k) == ms.remove(i),
    decreases ms.len(),
{
    if i == 0 {
        assert(ms.drop_first() =~= ms.remove(0));
    } else {
        assert(ms.drop_first()[i - 1].0 == k);
        lemma_obj_remove_at(ms.drop_first(), k, i - 1);
        assert(seq![ms.first()] + ms.drop_first().remove(i - 1) =~= ms.remove(i));
    }
}

/// Removing changes nothing when no member holds the key.
pub proof fn lemma_obj_remove_none(ms: Seq<(Seq<char>, JsonModel)>, k: Seq<char>)
    requires
        forall|j: int| 0 <= j < ms.len() ==> ms[j].0 != k,
    ensures
        obj_remove_first(ms, k) == ms,
    decreases ms.len(),
{
    if ms.len() > 0 {
        lemma_obj_remove_none(ms.drop_first(), k);
        assert(seq![ms.first()] + ms.drop_first() =~= ms);
    }
}

/// After insert-or-update, lookup of that key finds exactly the new
/// value.
pub proof fn lemma_obj_upsert_lookup(ms: Seq<(Seq<char>, JsonModel)>, k: Seq<char>, v: JsonModel)
    ensures
        obj_lookup(obj_upsert(ms, k, v), k) == Some(v),
    decreases ms.len(),
{
    if !obj_contains(ms, k) {
        assert(ms.push((k, v)).last() == (k, v));
    } else if ms.last().0 == k {
        assert(ms.drop_last().push((k, v)).last() == (k, v));
    } else {
        lemma_obj_upsert_lookup(ms.drop_last(), k, v);
        let up = obj_upsert(ms.drop_last(), k, v);
        assert(up.push(ms.last()).drop_last() =~= up);
    }
}

} // verus!
