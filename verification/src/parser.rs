//! The recursive-descent parser.
//!
//! Each production mirrors its spec-level counterpart in [`crate::model`]
//! and is proved to return exactly what that function says — value,
//! stopping offset, error kind and error offset alike.

use vstd::prelude::*;
use crate::convert::str_to_chars;
use crate::cursor::{LeptContext, lept_parse_whitespace, ISDIGIT};
use crate::errors::{ErrorKind, ParseError};
use crate::model::{
    scan_number, sp_parse, NumScan, PRes,
    dec_val_capped, first_sig_digit, lead17,
    esc_code, hex4_ok, hex4_val, scan_string_body, surrogate_combine, StrScan,
    lemma_scan_string_bounds, lemma_sp_value_bounds, lemma_sp_value_shift_ws,
    lit_matches, lit_mismatch, sp_elems, sp_members, sp_value, JsonModel,
};
use crate::value::{
    lemma_members_model_push, lemma_values_model_push, members_model, values_model, Member,
};
use crate::text::{digits_end, hex_val, is_digit, is_hex, lemma_digits_end_chars, ws_end};
use crate::value::{value_model, Value};

verus! {

broadcast use crate::text::lemma_ws_end_bounds, crate::text::lemma_digits_end_bounds, crate::text::lemma_ws_end_idem;

/// Consumes the maximal run of decimal digits at the cursor.
fn skip_digits(c: &mut LeptContext)
    requires
        old(c).wf(),
    ensures
        final(c).chars == old(c).chars,
        final(c).stack == old(c).stack,
        final(c).wf(),
        final(c).ptr == digits_end(old(c).chars@, old(c).ptr as int),
{
    while c.hasnext() && ISDIGIT(c.peek())
        invariant
            c.wf(),
            c.chars == old(c).chars,
            c.stack == old(c).stack,
            digits_end(c.chars@, c.ptr as int) == digits_end(old(c).chars@, old(c).ptr as int),
        decreases c.chars@.len() - c.ptr,
    {
        c.forward();
    }
}

/// Consumes the maximal run of digits at the cursor and reads it as a
/// decimal integer, capped at 10^21.
fn read_exp_digits(c: &mut LeptContext) -> (r: u128)
    requires
        old(c).wf(),
    ensures
        final(c).chars == old(c).chars,
        final(c).stack == old(c).stack,
        final(c).wf(),
        final(c).ptr == digits_end(old(c).chars@, old(c).ptr as int),
        r as int == dec_val_capped(
            old(c).chars@,
            old(c).ptr as int,
            digits_end(old(c).chars@, old(c).ptr as int),
            0,
        ),
        r < 0x10000000000000000000000000000,
{
    let ghost s = old(c).chars@;
    let ghost ee = digits_end(s, old(c).ptr as int);
    proof {
        lemma_digits_end_chars(s, old(c).ptr as int);
    }
    let mut acc: u128 = 0;
    while c.hasnext() && ISDIGIT(c.peek())
        invariant
            c.wf(),
            c.chars == old(c).chars,
            c.stack == old(c).stack,
            s == old(c).chars@,
            ee == digits_end(s, old(c).ptr as int),
            old(c).ptr <= c.ptr,
            c.ptr <= ee,
            ee == digits_end(s, c.ptr as int),
            acc < 10000000000000000000000,
            dec_val_capped(s, c.ptr as int, ee, acc as int) == dec_val_capped(
                s,
                old(c).ptr as int,
                ee,
                0,
            ),
        decreases c.chars@.len() - c.ptr,
    {
        let ch = c.peek();
        proof {
            assert(is_digit(s[c.ptr as int]));
            assert(digits_end(s, c.ptr as int) == digits_end(s, c.ptr as int + 1));
        }
        let d = (ch as u32) - 48;
        if acc < 1000000000000000000000 {
            acc = acc * 10 + (d as u128);
        }
        c.forward();
    }
    proof {
        assert(c.ptr == ee);
    }
    acc
}

/// The first offset in `chars[a..b]` holding a digit other than `'0'`,
/// or `b` when there is none.
fn first_sig_index(chars: &Vec<char>, a: usize, b: usize) -> (r: usize)
    requires
        a <= b,
        b <= chars@.len(),
    ensures
        r as int == first_sig_digit(chars@, a as int, b as int),
        a <= r <= b,
{
    let mut p = a;
    while p < b && chars[p] == '0'
        invariant
            a <= p <= b,
            b <= chars@.len(),
            first_sig_digit(chars@, p as int, b as int) == first_sig_digit(
                chars@,
                a as int,
                b as int,
            ),
        decreases b - p,
    {
        p = p + 1;
    }
    p
}

/// A copy of `chars[a..b]`.
fn copy_range(chars: &Vec<char>, a: usize, b: usize) -> (r: Vec<char>)
    requires
        a <= b,
        b <= chars@.len(),
    ensures
        r@ == chars@.subrange(a as int, b as int),
{
    let mut r: Vec<char> = Vec::new();
    let mut k = a;
    while k < b
        invariant
            a <= k <= b,
            b <= chars@.len(),
            r@ == chars@.subrange(a as int, k as int),
        decreases b - k,
    {
        r.push(chars[k]);
        k = k + 1;
        proof {
            assert(r@ =~= chars@.subrange(a as int, k as int));
        }
    }
    r
}

/// Powers of ten, for bounding accumulated digits.
spec fn p10(n: int) -> int
    decreases n,
{
    if n <= 0 {
        1
    } else {
        10 * p10(n - 1)
    }
}

/// `p10` is positive.
proof fn lemma_p10_pos(n: int)
    ensures
        p10(n) >= 1,
    decreases n,
{
    if n > 0 {
        lemma_p10_pos(n - 1);
    }
}

/// `p10` grows with its argument.
proof fn lemma_p10_le(a: int, b: int)
    requires
        0 <= a <= b,
    ensures
        p10(a) <= p10(b),
    decreases b - a,
{
    if a < b {
        lemma_p10_le(a, b - 1);
        lemma_p10_pos(b - 1);
        assert(p10(b) == 10 * p10(b - 1));
    }
}

/// The first seventeen significant digits, as `lead17` reads them:
/// from `chars[i..ie]`, then `chars[fs..fe]`, zero-padded.
fn lead_digits(chars: &Vec<char>, i: usize, ie: usize, fs: usize, fe: usize) -> (r: u64)
    requires
        i <= ie,
        ie <= chars@.len(),
        fs <= fe,
        fe <= chars@.len(),
        forall|k: int| i <= k < ie ==> is_digit(chars@[k]),
        forall|k: int| fs <= k < fe ==> is_digit(chars@[k]),
    ensures
        r as int == lead17(chars@, i as int, ie as int, fs as int, fe as int, 0, 0),
{
    let ghost s = chars@;
    let mut acc: u64 = 0;
    let mut n: usize = 0;
    let mut a = i;
    let mut b = fs;
    while n < 17
        invariant
            s == chars@,
            i <= a <= ie,
            ie <= s.len(),
            fs <= b <= fe,
            fe <= s.len(),
            n <= 17,
            (acc as int) < p10(n as int),
            forall|k: int| i <= k < ie ==> is_digit(s[k]),
            forall|k: int| fs <= k < fe ==> is_digit(s[k]),
            lead17(s, a as int, ie as int, b as int, fe as int, acc as int, n as int)
                == lead17(s, i as int, ie as int, fs as int, fe as int, 0, 0),
        decreases 17 - n,
    {
        proof {
            lemma_p10_le(n as int, 16);
            assert(p10(16) == 10000000000000000) by {
                reveal_with_fuel(p10, 18);
            }
            assert(p10(n as int + 1) == 10 * p10(n as int));
        }
        if a < ie {
            let d = (chars[a] as u32) - 48;
            acc = acc * 10 + (d as u64);
            a = a + 1;
        } else if b < fe {
            let d = (chars[b] as u32) - 48;
            acc = acc * 10 + (d as u64);
            b = b + 1;
        } else {
            acc = acc * 10;
        }
        n = n + 1;
    }
    acc
}

/// The number production, from the cursor's offset: exactly what
/// `scan_number` says, with the accepted lexeme as the result.
#[verifier::rlimit(50)]
pub(crate) fn parse_number(c: &mut LeptContext) -> (r: Result<Vec<char>, ParseError>)
    requires
        old(c).wf(),
    ensures
        final(c).chars == old(c).chars,
        final(c).stack == old(c).stack,
        final(c).wf(),
        (match scan_number(old(c).chars@, old(c).ptr as int) {
            NumScan::Done { end } => r matches Ok(lx) && lx@ == old(c).chars@.subrange(
                old(c).ptr as int,
                end,
            ) && final(c).ptr == end,
            NumScan::Bad { kind, at } => r matches Err(e) && e == (ParseError {
                kind,
                offset: at as usize,
            }),
        }),
{
    let ghost s = old(c).chars@;
    let start = c.ptr;
    if c.peek() == '-' {
        c.forward();
    }
    if !(c.hasnext() && ISDIGIT(c.peek())) {
        return Err(ParseError { kind: ErrorKind::InvalidValue, offset: c.ptr });
    }
    let zero = c.peek() == '0';
    let ds = c.ptr;
    if zero {
        c.forward();
    } else {
        skip_digits(c);
    }
    let ie = c.ptr;
    if c.hasnext() && ISDIGIT(c.peek()) {
        return Err(ParseError { kind: ErrorKind::InvalidValue, offset: c.ptr });
    }
    let mut fs = ie;
    let mut fe = ie;
    if c.hasnext() && c.peek() == '.' {
        if !ISDIGIT(c.peek1()) {
            proof {
                assert(c.chars@.len() == c.chars.len());
            }
            return Err(ParseError { kind: ErrorKind::InvalidValue, offset: c.ptr + 1 });
        }
        c.forward();
        fs = c.ptr;
        skip_digits(c);
        fe = c.ptr;
    }
    let mut exp: i128 = 0;
    let mut end = fe;
    if c.hasnext() && (c.peek() == 'e' || c.peek() == 'E') {
        c.forward();
        let mut neg = false;
        if c.hasnext() && (c.peek() == '+' || c.peek() == '-') {
            neg = c.peek() == '-';
            c.forward();
        }
        if !(c.hasnext() && ISDIGIT(c.peek())) {
            return Err(ParseError { kind: ErrorKind::InvalidValue, offset: c.ptr });
        }
        let mag = read_exp_digits(c);
        end = c.ptr;
        exp = if neg {
            -(mag as i128)
        } else {
            mag as i128
        };
    }
    proof {
        lemma_digits_end_chars(s, ds as int);
        if ie < fs {
            lemma_digits_end_chars(s, fs as int);
        }
    }
    let too = if !zero {
        let e = (ie - ds) as i128 + exp;
        e > 309 || (e == 309 && lead_digits(&c.chars, ds, ie, fs, fe) >= 17976931348623159)
    } else {
        let p = first_sig_index(&c.chars, fs, fe);
        if p >= fe {
            false
        } else {
            let e = exp - ((p - fs) as i128);
            e > 309 || (e == 309 && lead_digits(&c.chars, p, fe, fe, fe) >= 17976931348623159)
        }
    };
    if too {
        return Err(ParseError { kind: ErrorKind::NumberTooLarge, offset: start });
    }
    Ok(copy_range(&c.chars, start, end))
}

/// Relies on `char::from_u32`: every scalar value outside the surrogate
/// range converts to the character with that code point (`from_u32`
/// returns `None` exactly on surrogates and values above 0x10FFFF).
#[verifier::external_body]
fn u32_to_char(u: u32) -> (c: char)
    requires
        u < 0xD800 || (0xE000 <= u && u <= 0x10FFFF),
    ensures
        c == (u as char),
{
    char::from_u32(u).unwrap()
}

/// The numeric value of a hexadecimal digit, if `ch` is one.
fn hex_digit_value(ch: char) -> (r: Option<u32>)
    ensures
        r is Some <==> is_hex(ch),
        r matches Some(v) ==> v as int == hex_val(ch) && v <= 15,
{
    let u = ch as u32;
    if 48 <= u && u <= 57 {
        Some(u - 48)
    } else if 97 <= u && u <= 102 {
        Some(u - 97 + 10)
    } else if 65 <= u && u <= 70 {
        Some(u - 65 + 10)
    } else {
        None
    }
}

/// Four hexadecimal digits at the cursor, consumed only when all four
/// stand there.
fn read_hex4(c: &mut LeptContext) -> (r: Option<u32>)
    requires
        old(c).wf(),
    ensures
        final(c).chars == old(c).chars,
        final(c).stack == old(c).stack,
        final(c).wf(),
        r is Some <==> hex4_ok(old(c).chars@, old(c).ptr as int),
        r matches Some(h) ==> h as int == hex4_val(old(c).chars@, old(c).ptr as int) && h <= 0xFFFF
            && final(c).ptr == old(c).ptr + 4,
        r is None ==> final(c).ptr == old(c).ptr,
{
    let h0 = match hex_digit_value(c.peek()) {
        Some(v) => v,
        None => {
            return None;
        },
    };
    let h1 = match hex_digit_value(c.peek1()) {
        Some(v) => v,
        None => {
            return None;
        },
    };
    let h2 = match hex_digit_value(c.peek2()) {
        Some(v) => v,
        None => {
            return None;
        },
    };
    let h3 = match hex_digit_value(c.peek3()) {
        Some(v) => v,
        None => {
            return None;
        },
    };
    c.forward();
    c.forward();
    c.forward();
    c.forward();
    Some(h0 * 0x1000 + h1 * 0x100 + h2 * 0x10 + h3)
}

/// The one-letter escapes, decoded.
fn esc_decode(e: char) -> (r: Option<char>)
    ensures
        r == esc_code(e),
{
    if e == '"' {
        Some('"')
    } else if e == '\\' {
        Some('\\')
    } else if e == '/' {
        Some('/')
    } else if e == 'b' {
        Some('\u{8}')
    } else if e == 'f' {
        Some('\u{c}')
    } else if e == 'n' {
        Some('\n')
    } else if e == 'r' {
        Some('\r')
    } else if e == 't' {
        Some('\t')
    } else {
        None
    }
}

/// The string body, from one past the opening quote: exactly what
/// `scan_string_body` says, with the decoded content as the result.
/// Decoded characters are collected on the cursor's scratch stack, which
/// is handed back unchanged.
#[verifier::rlimit(100)]
fn parse_string_body(c: &mut LeptContext) -> (r: Result<Vec<char>, ParseError>)
    requires
        old(c).wf(),
    ensures
        final(c).chars == old(c).chars,
        final(c).stack@ == old(c).stack@,
        final(c).wf(),
        (match scan_string_body(old(c).chars@, old(c).ptr as int) {
            StrScan::Done { content, end } => r matches Ok(v) && v@ == content && final(c).ptr
                == end,
            StrScan::Bad { kind, at } => r matches Err(e) && e == (ParseError {
                kind,
                offset: at as usize,
            }),
        }),
{
    let ghost s = old(c).chars@;
    let ghost i0 = old(c).ptr as int;
    let base = c.stack.len();
    loop
        invariant
            c.wf(),
            c.chars@ == s,
            c.chars == old(c).chars,
            s == old(c).chars@,
            i0 == old(c).ptr as int,
            base == old(c).stack@.len(),
            base <= c.stack@.len(),
            c.stack@.subrange(0, base as int) == old(c).stack@,
            c.ptr <= s.len(),
            (match scan_string_body(s, c.ptr as int) {
                StrScan::Done { content, end } => scan_string_body(s, i0) == (StrScan::Done {
                    content: c.stack@.subrange(base as int, c.stack@.len() as int) + content,
                    end,
                }),
                StrScan::Bad { kind, at } => scan_string_body(s, i0) == (StrScan::Bad {
                    kind,
                    at,
                }),
            }),
        decreases s.len() - c.ptr,
    {
        let ghost p0 = c.ptr as int;
        let ghost st0 = c.stack@;
        if !c.hasnext() {
            let off = c.ptr;
            c.stack.truncate(base);
            proof {
                assert(c.stack@ =~= old(c).stack@);
            }
            return Err(ParseError { kind: ErrorKind::MissQuotationMark, offset: off });
        }
        let ch = c.peek();
        if ch == '"' {
            c.forward();
            let content = c.stack.split_off(base);
            proof {
                assert(c.stack@ =~= old(c).stack@);
                assert(content@ + Seq::<char>::empty() =~= content@);
            }
            return Ok(content);
        } else if ch == '\\' {
            c.forward();
            let e = c.peek();
            match esc_decode(e) {
                Some(d) => {
                    c.forward();
                    c.putc(d);
                    proof {
                        assert(scan_string_body(s, p0) == scan_prepend(d, scan_string_body(s, p0 + 2)));
                        lemma_body_step(
                            s,
                            i0,
                            p0,
                            p0 + 2,
                            d,
                            st0.subrange(base as int, st0.len() as int),
                        );
                        assert(c.stack@.subrange(base as int, c.stack@.len() as int) =~= st0
                            .subrange(base as int, st0.len() as int).push(d));
                    }
                },
                None => {
                    if e == 'u' {
                        c.forward();
                        let hstart = c.ptr;
                        match read_hex4(c) {
                            None => {
                                let off = c.ptr;
                                c.stack.truncate(base);
                                proof {
                                    assert(c.stack@ =~= old(c).stack@);
                                }
                                return Err(ParseError {
                                    kind: ErrorKind::InvalidStringEscape,
                                    offset: off,
                                });
                            },
                            Some(h) => {
                                if 0xD800 <= h && h <= 0xDBFF {
                                    let mark = c.ptr;
                                    let got_low_intro = c.expect('\\') && c.expect('u');
                                    let low = if got_low_intro {
                                        read_hex4(c)
                                    } else {
                                        None
                                    };
                                    match low {
                                        None => {
                                            c.stack.truncate(base);
                                            proof {
                                                assert(c.stack@ =~= old(c).stack@);
                                            }
                                            return Err(ParseError {
                                                kind: ErrorKind::InvalidUnicodeSurrogate,
                                                offset: mark,
                                            });
                                        },
                                        Some(l) => {
                                            if !(0xDC00 <= l && l <= 0xDFFF) {
                                                c.stack.truncate(base);
                                                proof {
                                                    assert(c.stack@ =~= old(c).stack@);
                                                }
                                                return Err(ParseError {
                                                    kind: ErrorKind::InvalidUnicodeSurrogate,
                                                    offset: mark + 2,
                                                });
                                            }
                                            let cp = 0x10000 + (h - 0xD800) * 0x400 + (l
                                                - 0xDC00);
                                            let d = u32_to_char(cp);
                                            c.putc(d);
                                            proof {
                                                assert(cp as int == surrogate_combine(
                                                    h as int,
                                                    l as int,
                                                ));
                                                assert(scan_string_body(s, p0) == scan_prepend(
                                                    d,
                                                    scan_string_body(s, p0 + 12),
                                                ));
                                                lemma_body_step(
                            s,
                            i0,
                            p0,
                            p0 + 12,
                            d,
                            st0.subrange(base as int, st0.len() as int),
                        );
                        assert(c.stack@.subrange(base as int, c.stack@.len() as int) =~= st0
                            .subrange(base as int, st0.len() as int).push(d));
                                            }
                                        },
                                    }
                                } else if 0xDC00 <= h && h <= 0xDFFF {
                                    c.stack.truncate(base);
                                    proof {
                                        assert(c.stack@ =~= old(c).stack@);
                                    }
                                    return Err(ParseError {
                                        kind: ErrorKind::InvalidUnicodeSurrogate,
                                        offset: hstart,
                                    });
                                } else {
                                    let d = u32_to_char(h);
                                    c.putc(d);
                                    proof {
                                        assert(scan_string_body(s, p0) == scan_prepend(
                                            d,
                                            scan_string_body(s, p0 + 6),
                                        ));
                                        lemma_body_step(
                            s,
                            i0,
                            p0,
                            p0 + 6,
                            d,
                            st0.subrange(base as int, st0.len() as int),
                        );
                        assert(c.stack@.subrange(base as int, c.stack@.len() as int) =~= st0
                            .subrange(base as int, st0.len() as int).push(d));
                                    }
                                }
                            },
                        }
                    } else {
                        let off = c.ptr;
                        c.stack.truncate(base);
                        proof {
                            assert(c.stack@ =~= old(c).stack@);
                        }
                        return Err(ParseError {
                            kind: ErrorKind::InvalidStringEscape,
                            offset: off,
                        });
                    }
                },
            }
        } else if (ch as u32) < 0x20 {
            let off = c.ptr;
            c.stack.truncate(base);
            proof {
                assert(c.stack@ =~= old(c).stack@);
            }
            return Err(ParseError { kind: ErrorKind::InvalidStringChar, offset: off });
        } else {
            c.putc(ch);
            c.forward();
            proof {
                assert(scan_string_body(s, p0) == scan_prepend(ch, scan_string_body(s, p0 + 1)));
                lemma_body_step(
                            s,
                            i0,
                            p0,
                            p0 + 1,
                            ch,
                            st0.subrange(base as int, st0.len() as int),
                        );
                        assert(c.stack@.subrange(base as int, c.stack@.len() as int) =~= st0
                            .subrange(base as int, st0.len() as int).push(ch));
            }
        }
    }
}

/// How one decoded character is prepended to the rest of a scan.
spec fn scan_prepend(d: char, r: StrScan) -> StrScan {
    match r {
        StrScan::Done { content, end } => StrScan::Done { content: seq![d] + content, end },
        bad => bad,
    }
}

/// One decoding step: when the scan at `p0` prepends `d` to the scan at
/// `next`, the accumulated content moves from `pushed0` to
/// `pushed0.push(d)`.
proof fn lemma_body_step(s: Seq<char>, i0: int, p0: int, next: int, d: char, pushed0: Seq<char>)
    requires
        (match scan_string_body(s, p0) {
            StrScan::Done { content, end } => scan_string_body(s, i0) == (StrScan::Done {
                content: pushed0 + content,
                end,
            }),
            StrScan::Bad { kind, at } => scan_string_body(s, i0) == (StrScan::Bad { kind, at }),
        }),
        scan_string_body(s, p0) == scan_prepend(d, scan_string_body(s, next)),
    ensures
        (match scan_string_body(s, next) {
            StrScan::Done { content, end } => scan_string_body(s, i0) == (StrScan::Done {
                content: pushed0.push(d) + content,
                end,
            }),
            StrScan::Bad { kind, at } => scan_string_body(s, i0) == (StrScan::Bad { kind, at }),
        }),
{
    match scan_string_body(s, next) {
        StrScan::Done { content, end } => {
            assert(pushed0 + (seq![d] + content) =~= pushed0.push(d) + content);
        },
        StrScan::Bad { .. } => {},
    }
}

/// Matches the four characters at the cursor one by one.  On a full
/// match all four are consumed; on a mismatch the cursor rests at the
/// first differing position (or at the end of the input).
fn match_four(c: &mut LeptContext, l0: char, l1: char, l2: char, l3: char) -> (r: bool)
    requires
        old(c).wf(),
    ensures
        final(c).chars == old(c).chars,
        final(c).stack == old(c).stack,
        final(c).wf(),
        r == lit_matches(old(c).chars@, old(c).ptr as int, seq![l0, l1, l2, l3]),
        r ==> final(c).ptr == old(c).ptr + 4,
        !r ==> final(c).ptr == lit_mismatch(old(c).chars@, old(c).ptr as int, seq![
            l0,
            l1,
            l2,
            l3,
        ], 0),
{
    let ghost s = c.chars@;
    let ghost i = c.ptr as int;
    let ghost lit = seq![l0, l1, l2, l3];
    let ok = c.expect(l0) && c.expect(l1) && c.expect(l2) && c.expect(l3);
    proof {
        assert(lit_mismatch(s, i, lit, 0) == (if i >= s.len() || s[i] != l0 {
            i
        } else {
            lit_mismatch(s, i, lit, 1)
        }));
        assert(lit_mismatch(s, i, lit, 1) == (if i + 1 >= s.len() || s[i + 1] != l1 {
            i + 1
        } else {
            lit_mismatch(s, i, lit, 2)
        }));
        assert(lit_mismatch(s, i, lit, 2) == (if i + 2 >= s.len() || s[i + 2] != l2 {
            i + 2
        } else {
            lit_mismatch(s, i, lit, 3)
        }));
        assert(lit_mismatch(s, i, lit, 4) == i + 4);
        assert(lit_mismatch(s, i, lit, 3) == (if i + 3 >= s.len() || s[i + 3] != l3 {
            i + 3
        } else {
            i + 4
        }));
        if ok {
            assert(s.subrange(i, i + 4) =~= lit);
        } else if lit_matches(s, i, lit) {
            assert(s.subrange(i, i + 4)[0] == s[i]);
            assert(s.subrange(i, i + 4)[1] == s[i + 1]);
            assert(s.subrange(i, i + 4)[2] == s[i + 2]);
            assert(s.subrange(i, i + 4)[3] == s[i + 3]);
        }
    }
    ok
}

/// Matches the five characters at the cursor one by one, with the same
/// consumption rule as `match_four`.
fn match_five(c: &mut LeptContext, l0: char, l1: char, l2: char, l3: char, l4: char) -> (r:
    bool)
    requires
        old(c).wf(),
    ensures
        final(c).chars == old(c).chars,
        final(c).stack == old(c).stack,
        final(c).wf(),
        r == lit_matches(old(c).chars@, old(c).ptr as int, seq![l0, l1, l2, l3, l4]),
        r ==> final(c).ptr == old(c).ptr + 5,
        !r ==> final(c).ptr == lit_mismatch(old(c).chars@, old(c).ptr as int, seq![
            l0,
            l1,
            l2,
            l3,
            l4,
        ], 0),
{
    let ghost s = c.chars@;
    let ghost i = c.ptr as int;
    let ghost lit = seq![l0, l1, l2, l3, l4];
    let ok = c.expect(l0) && c.expect(l1) && c.expect(l2) && c.expect(l3) && c.expect(l4);
    proof {
        assert(lit_mismatch(s, i, lit, 0) == (if i >= s.len() || s[i] != l0 {
            i
        } else {
            lit_mismatch(s, i, lit, 1)
        }));
        assert(lit_mismatch(s, i, lit, 1) == (if i + 1 >= s.len() || s[i + 1] != l1 {
            i + 1
        } else {
            lit_mismatch(s, i, lit, 2)
        }));
        assert(lit_mismatch(s, i, lit, 2) == (if i + 2 >= s.len() || s[i + 2] != l2 {
            i + 2
        } else {
            lit_mismatch(s, i, lit, 3)
        }));
        assert(lit_mismatch(s, i, lit, 3) == (if i + 3 >= s.len() || s[i + 3] != l3 {
            i + 3
        } else {
            lit_mismatch(s, i, lit, 4)
        }));
        assert(lit_mismatch(s, i, lit, 5) == i + 5);
        assert(lit_mismatch(s, i, lit, 4) == (if i + 4 >= s.len() || s[i + 4] != l4 {
            i + 4
        } else {
            i + 5
        }));
        if ok {
            assert(s.subrange(i, i + 5) =~= lit);
        } else if lit_matches(s, i, lit) {
            assert(s.subrange(i, i + 5)[0] == s[i]);
            assert(s.subrange(i, i + 5)[1] == s[i + 1]);
            assert(s.subrange(i, i + 5)[2] == s[i + 2]);
            assert(s.subrange(i, i + 5)[3] == s[i + 3]);
            assert(s.subrange(i, i + 5)[4] == s[i + 4]);
        }
    }
    ok
}

/// One `value` of the grammar, from the cursor's offset: exactly what
/// `sp_value` says — the tree, the stopping offset, or the first
/// violation with its kind and offset.
#[verifier::rlimit(100)]
pub fn parse_value(c: &mut LeptContext) -> (r: Result<Value, ParseError>)
    requires
        old(c).wf(),
    ensures
        final(c).chars == old(c).chars,
        final(c).stack@ == old(c).stack@,
        final(c).wf(),
        (match sp_value(old(c).chars@, old(c).ptr as int) {
            PRes::Val { v, end } => r matches Ok(val) && val@ == v && final(c).ptr == end,
            PRes::Fail { kind, at } => r matches Err(e) && e == (ParseError {
                kind,
                offset: at as usize,
            }),
        }),
    decreases c.chars@.len() - c.ptr,
{
    let ghost s = old(c).chars@;
    let ghost i0 = old(c).ptr as int;
    lept_parse_whitespace(c);
    let ghost j = c.ptr as int;
    if !c.hasnext() {
        return Err(ParseError { kind: ErrorKind::ExpectValue, offset: c.ptr });
    }
    let ch = c.peek();
    if ch == 'n' {
        if match_four(c, 'n', 'u', 'l', 'l') {
            lept_parse_whitespace(c);
            Ok(Value::Null)
        } else {
            Err(ParseError { kind: ErrorKind::InvalidValue, offset: c.ptr })
        }
    } else if ch == 't' {
        if match_four(c, 't', 'r', 'u', 'e') {
            lept_parse_whitespace(c);
            Ok(Value::Bool(true))
        } else {
            Err(ParseError { kind: ErrorKind::InvalidValue, offset: c.ptr })
        }
    } else if ch == 'f' {
        if match_five(c, 'f', 'a', 'l', 's', 'e') {
            lept_parse_whitespace(c);
            Ok(Value::Bool(false))
        } else {
            Err(ParseError { kind: ErrorKind::InvalidValue, offset: c.ptr })
        }
    } else if ch == '"' {
        c.forward();
        match parse_string_body(c) {
            Ok(v) => {
                lept_parse_whitespace(c);
                Ok(Value::Text(v))
            },
            Err(e) => Err(e),
        }
    } else if ch == '[' {
        c.forward();
        lept_parse_whitespace(c);
        if c.hasnext() && c.peek() == ']' {
            c.forward();
            lept_parse_whitespace(c);
            proof {
                assert(values_model(Seq::<Value>::empty(), 0) =~= Seq::<JsonModel>::empty());
            }
            return Ok(Value::Array(Vec::new()));
        }
        let ghost orig = sp_elems(s, j + 1, Seq::empty());
        let ghost mut elstart: int = j + 1;
        let mut elems: Vec<Value> = Vec::new();
        proof {
            assert(values_model(Seq::<Value>::empty(), 0) =~= Seq::<JsonModel>::empty());
        }
        loop
            invariant
                c.wf(),
                c.chars == old(c).chars,
                c.chars@ == s,
                c.stack@ == old(c).stack@,
                s == old(c).chars@,
                i0 == old(c).ptr as int,
                i0 < elstart,
                0 <= elstart <= s.len(),
                elstart <= c.ptr,
                i0 < c.ptr,
                c.ptr <= s.len(),
                ws_end(s, elstart) == ws_end(s, c.ptr as int),
                sp_elems(s, elstart, values_model(elems@, 0)) == orig,
                sp_value(s, i0) == (match orig {
                    PRes::Val { v, end } => PRes::Val { v, end: ws_end(s, end) },
                    f => f,
                }),
            decreases s.len() - c.ptr,
        {
            proof {
                lemma_sp_value_shift_ws(s, elstart, c.ptr as int);
                lemma_sp_value_bounds(s, c.ptr as int);
            }
            let rv = match parse_value(c) {
                Ok(v) => v,
                Err(e) => {
                    return Err(e);
                },
            };
            let ghost eb = elems@;
            elems.push(rv);
            proof {
                lemma_values_model_push(eb, rv, 0);
            }
            if !c.hasnext() {
                return Err(ParseError {
                    kind: ErrorKind::MissCommaOrSquareBracket,
                    offset: c.ptr,
                });
            }
            let d2 = c.peek();
            if d2 == ',' {
                c.forward();
                proof {
                    elstart = c.ptr as int;
                }
            } else if d2 == ']' {
                c.forward();
                lept_parse_whitespace(c);
                return Ok(Value::Array(elems));
            } else {
                return Err(ParseError {
                    kind: ErrorKind::MissCommaOrSquareBracket,
                    offset: c.ptr,
                });
            }
        }
    } else if ch == '{' {
        c.forward();
        lept_parse_whitespace(c);
        if c.hasnext() && c.peek() == '}' {
            c.forward();
            lept_parse_whitespace(c);
            proof {
                assert(members_model(Seq::<Member>::empty(), 0) =~= Seq::<
                (Seq<char>, JsonModel),
                >::empty());
            }
            return Ok(Value::Object(Vec::new()));
        }
        let ghost orig = sp_members(s, j + 1, Seq::empty());
        let ghost mut memstart: int = j + 1;
        let mut members: Vec<Member> = Vec::new();
        proof {
            assert(members_model(Seq::<Member>::empty(), 0) =~= Seq::<
            (Seq<char>, JsonModel),
            >::empty());
        }
        loop
            invariant
                c.wf(),
                c.chars == old(c).chars,
                c.chars@ == s,
                c.stack@ == old(c).stack@,
                s == old(c).chars@,
                i0 == old(c).ptr as int,
                i0 < memstart,
                0 <= memstart <= s.len(),
                memstart <= c.ptr,
                i0 < c.ptr,
                c.ptr <= s.len(),
                ws_end(s, memstart) == ws_end(s, c.ptr as int),
                sp_members(s, memstart, members_model(members@, 0)) == orig,
                sp_value(s, i0) == (match orig {
                    PRes::Val { v, end } => PRes::Val { v, end: ws_end(s, end) },
                    f => f,
                }),
            decreases s.len() - c.ptr,
        {
            lept_parse_whitespace(c);
            let ghost j0 = c.ptr as int;
            if !(c.hasnext() && c.peek() == '"') {
                return Err(ParseError { kind: ErrorKind::MissKey, offset: c.ptr });
            }
            c.forward();
            proof {
                lemma_scan_string_bounds(s, j0 + 1);
            }
            let key = match parse_string_body(c) {
                Ok(k) => k,
                Err(e) => {
                    return Err(e);
                },
            };
            lept_parse_whitespace(c);
            if !c.expect(':') {
                return Err(ParseError { kind: ErrorKind::MissColon, offset: c.ptr });
            }
            proof {
                lemma_sp_value_bounds(s, c.ptr as int);
            }
            let val = match parse_value(c) {
                Ok(v) => v,
                Err(e) => {
                    return Err(e);
                },
            };
            let ghost mb = members@;
            let m = Member { key, value: val };
            members.push(m);
            proof {
                lemma_members_model_push(mb, m, 0);
            }
            if !c.hasnext() {
                return Err(ParseError {
                    kind: ErrorKind::MissCommaOrSquareBracket,
                    offset: c.ptr,
                });
            }
            let d2 = c.peek();
            if d2 == ',' {
                c.forward();
                proof {
                    memstart = c.ptr as int;
                }
            } else if d2 == '}' {
                c.forward();
                lept_parse_whitespace(c);
                return Ok(Value::Object(members));
            } else {
                return Err(ParseError {
                    kind: ErrorKind::MissCommaOrSquareBracket,
                    offset: c.ptr,
                });
            }
        }
    } else if ch == '-' || ISDIGIT(ch) {
        match parse_number(c) {
            Ok(lx) => {
                lept_parse_whitespace(c);
                Ok(Value::Number(lx))
            },
            Err(e) => Err(e),
        }
    } else {
        Err(ParseError { kind: ErrorKind::InvalidValue, offset: c.ptr })
    }
}

/// Parses a whole document: one value with optional surrounding
/// whitespace and nothing else.  Exactly what `sp_parse` says: the tree
/// on success, the first grammar violation and its character offset
/// otherwise.
pub fn parse(text: &str) -> (r: Result<Value, ParseError>)
    ensures
        (match sp_parse(text@) {
            PRes::Val { v, end } => r matches Ok(val) && val@ == v,
            PRes::Fail { kind, at } => r matches Err(e) && e == (ParseError {
                kind,
                offset: at as usize,
            }),
        }),
        r matches Ok(val) ==> crate::model::model_wf(val@),
{
    proof {
        crate::laws::lemma_sp_parse_wf(text@);
    }
    let chars = str_to_chars(text);
    let mut c = LeptContext { chars, ptr: 0, stack: Vec::new() };
    let v = match parse_value(&mut c) {
        Ok(v) => v,
        Err(e) => {
            return Err(e);
        },
    };
    if c.hasnext() {
        return Err(ParseError { kind: ErrorKind::RootNotSingular, offset: c.ptr });
    }
    Ok(v)
}

} // verus!
