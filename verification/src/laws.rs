//! The round-trip laws of the engine.
//!
//! The theorems here relate the spec-level parser and serializer that the
//! executable `parse` and `stringify` are proved equal to: parsing the
//! rendering of any well-formed tree — with any amount of whitespace
//! around it — yields that tree back, whole.

use vstd::prelude::*;
use crate::model::{
    dec_val_capped, esc_char, esc_code, first_sig_digit, hex4_ok, hex4_val, hex_digit_char,
    lemma_scan_string_bounds, lemma_sp_value_bounds, lit_matches, model_wf, num_lexeme_ok,
    lead17, num_too_large, scan_number, scan_string_body, ser, ser_elems, ser_members,
    ser_str_body,
    sp_elems, sp_members, sp_parse, sp_value, wf_elems, wf_members, JsonModel, NumScan, PRes,
    StrScan,
};
use crate::text::{
    char_at, digit_val, digits_end, hex_val, is_digit, is_hex, is_ws, lemma_digits_end_chars,
    lemma_digits_end_is, lemma_ws_end_is, ws_end,
};

verus! {

broadcast use crate::text::lemma_ws_end_bounds, crate::text::lemma_digits_end_bounds;

/// Nothing but whitespace.
pub open spec fn all_ws(w: Seq<char>) -> bool {
    forall|k: int| 0 <= k < w.len() ==> is_ws(w[k])
}

/// What may legally follow a rendered value: the end of the input, a
/// separator, a closing bracket, or whitespace.
pub open spec fn at_value_end(s: Seq<char>, j: int) -> bool {
    j == s.len() || s[j] == ',' || s[j] == ']' || s[j] == '}' || is_ws(s[j])
}

/// Reading capped digits does not depend on where the run stands.
proof fn lemma_dec_val_shift(s: Seq<char>, lx: Seq<char>, off: int, a: int, b: int, acc: int)
    requires
        0 <= a <= b <= lx.len(),
        0 <= off,
        off + lx.len() <= s.len(),
        s.subrange(off, off + lx.len()) == lx,
    ensures
        dec_val_capped(s, off + a, off + b, acc) == dec_val_capped(lx, a, b, acc),
    decreases b - a,
{
    if a < b {
        assert(s[off + a] == s.subrange(off, off + lx.len())[a]);
        if acc < 1000000000000000000000 {
            lemma_dec_val_shift(s, lx, off, a + 1, b, acc * 10 + digit_val(lx[a]));
        }
    }
}

/// Finding the first significant digit does not depend on where the run
/// stands.
proof fn lemma_first_sig_shift(s: Seq<char>, lx: Seq<char>, off: int, a: int, b: int)
    requires
        0 <= a <= b <= lx.len(),
        0 <= off,
        off + lx.len() <= s.len(),
        s.subrange(off, off + lx.len()) == lx,
    ensures
        first_sig_digit(s, off + a, off + b) == off + first_sig_digit(lx, a, b),
    decreases b - a,
{
    if a < b {
        assert(s[off + a] == s.subrange(off, off + lx.len())[a]);
        if lx[a] == '0' {
            lemma_first_sig_shift(s, lx, off, a + 1, b);
        }
    }
}

/// `first_sig_digit` stays within its range.
proof fn lemma_first_sig_bounds(s: Seq<char>, i: int, j: int)
    requires
        0 <= i <= j,
    ensures
        i <= first_sig_digit(s, i, j) <= j,
    decreases j - i,
{
    if i < j && 0 <= i < s.len() && s[i] == '0' {
        lemma_first_sig_bounds(s, i + 1, j);
    }
}

/// Reading leading significant digits does not depend on where the
/// runs stand.
proof fn lemma_lead17_shift(
    s: Seq<char>,
    lx: Seq<char>,
    off: int,
    i: int,
    ie: int,
    fs: int,
    fe: int,
    acc: int,
    n: int,
)
    requires
        0 <= i <= ie <= lx.len(),
        0 <= fs <= fe <= lx.len(),
        0 <= off,
        off + lx.len() <= s.len(),
        s.subrange(off, off + lx.len()) == lx,
    ensures
        lead17(s, off + i, off + ie, off + fs, off + fe, acc, n) == lead17(
            lx,
            i,
            ie,
            fs,
            fe,
            acc,
            n,
        ),
    decreases ie - i, fe - fs, 17 - n,
{
    if n >= 17 {
    } else if i < ie {
        assert(char_at(s, off + i) == char_at(lx, i)) by {
            assert(s.subrange(off, off + lx.len())[i] == s[off + i]);
        }
        lemma_lead17_shift(
            s,
            lx,
            off,
            i + 1,
            ie,
            fs,
            fe,
            acc * 10 + digit_val(char_at(lx, i)),
            n + 1,
        );
    } else if fs < fe {
        assert(char_at(s, off + fs) == char_at(lx, fs)) by {
            assert(s.subrange(off, off + lx.len())[fs] == s[off + fs]);
        }
        lemma_lead17_shift(
            s,
            lx,
            off,
            i,
            ie,
            fs + 1,
            fe,
            acc * 10 + digit_val(char_at(lx, fs)),
            n + 1,
        );
    } else {
        lemma_lead17_shift(s, lx, off, i, ie, fs, fe, acc * 10, n + 1);
    }
}

/// A number lexeme embedded at `j` and followed by a value terminator
/// scans exactly to its own end.
#[verifier::rlimit(100)]
#[verifier::spinoff_prover]
pub proof fn lemma_scan_number_local(s: Seq<char>, j: int, lx: Seq<char>)
    requires
        0 <= j,
        j + lx.len() <= s.len(),
        s.subrange(j, j + lx.len()) == lx,
        num_lexeme_ok(lx),
        at_value_end(s, j + lx.len()),
    ensures
        scan_number(s, j) == (NumScan::Done { end: j + lx.len() }),
{
    let l = lx.len() as int;
    assert forall|k: int| 0 <= k < l implies s[j + k] == lx[k] by {
        assert(s.subrange(j, j + l)[k] == s[j + k]);
    }
    // the character one past the lexeme extends no number
    assert(j + l == s.len() || !(is_digit(s[j + l]) || s[j + l] == '.' || s[j + l] == 'e' || s[j
        + l] == 'E' || s[j + l] == '+' || s[j + l] == '-'));
    // the lexeme's own scan, unfolded
    let ds0 = if char_at(lx, 0) == '-' {
        1int
    } else {
        0int
    };
    assert(ds0 < l && is_digit(lx[ds0]));
    assert(char_at(s, j) == char_at(lx, 0));
    let ds = j + ds0;
    let ie0 = if lx[ds0] == '0' {
        ds0 + 1
    } else {
        digits_end(lx, ds0)
    };
    lemma_digits_end_chars(lx, ds0);
    if lx[ds0] != '0' {
        assert forall|k2: int| ds <= k2 < j + ie0 implies is_digit(s[k2]) by {
            assert(s.subrange(j, j + l)[k2 - j] == s[k2]);
        }
        assert(j + ie0 == s.len() || !is_digit(s[j + ie0]));
        lemma_digits_end_is(s, ds, j + ie0);
    }
    assert(ie0 <= l);
    let ie = j + ie0;
    assert(ie0 == (if lx[ds0] == '0' {
        ds0 + 1
    } else {
        digits_end(lx, ds0)
    }));
    assert((ie < s.len() && is_digit(s[ie])) == (ie0 < l && is_digit(lx[ie0])));
    assert((ie < s.len() && s[ie] == '.') == (ie0 < l && lx[ie0] == '.'));
    let fs0 = if ie0 < l && lx[ie0] == '.' {
        ie0 + 1
    } else {
        ie0
    };
    let fe0 = if ie0 < l && lx[ie0] == '.' {
        digits_end(lx, ie0 + 1)
    } else {
        ie0
    };
    if ie0 < l && lx[ie0] == '.' {
        assert(ie0 + 1 < l && is_digit(lx[ie0 + 1]));
        assert((ie + 1 < s.len() && is_digit(s[ie + 1])));
        lemma_digits_end_chars(lx, ie0 + 1);
        assert forall|k2: int| ie + 1 <= k2 < j + fe0 implies is_digit(s[k2]) by {
            assert(s.subrange(j, j + l)[k2 - j] == s[k2]);
        }
        assert(j + fe0 == s.len() || !is_digit(s[j + fe0]));
        lemma_digits_end_is(s, ie + 1, j + fe0);
    }
    assert(fe0 <= l);
    let fe = j + fe0;
    assert((fe < s.len() && (s[fe] == 'e' || s[fe] == 'E')) == (fe0 < l && (lx[fe0] == 'e'
        || lx[fe0] == 'E')));
    if fe0 < l && (lx[fe0] == 'e' || lx[fe0] == 'E') {
        assert((fe + 1 < s.len() && (s[fe + 1] == '+' || s[fe + 1] == '-')) == (fe0 + 1 < l && (
        lx[fe0 + 1] == '+' || lx[fe0 + 1] == '-')));
        let es0 = if fe0 + 1 < l && (lx[fe0 + 1] == '+' || lx[fe0 + 1] == '-') {
            fe0 + 2
        } else {
            fe0 + 1
        };
        assert(es0 < l && is_digit(lx[es0]));
        let ee0 = digits_end(lx, es0);
        lemma_digits_end_chars(lx, es0);
        assert forall|k2: int| j + es0 <= k2 < j + ee0 implies is_digit(s[k2]) by {
            assert(s.subrange(j, j + l)[k2 - j] == s[k2]);
        }
        assert(j + ee0 == s.len() || !is_digit(s[j + ee0]));
        lemma_digits_end_is(s, j + es0, j + ee0);
        lemma_dec_val_shift(s, lx, j, es0, ee0, 0);
        assert(ee0 == l) by {
            assert(scan_number(lx, 0) == NumScan::Done { end: ee0 });
        }
        assert(char_at(s, fe + 1) == char_at(lx, fe0 + 1));
        let mag = dec_val_capped(lx, es0, ee0, 0);
        let exp = if char_at(lx, fe0 + 1) == '-' {
            -mag
        } else {
            mag
        };
        assert(!num_too_large(lx, ds0, ie0, fs0, fe0, exp));
        assert(char_at(s, ds) == char_at(lx, ds0));
        lemma_first_sig_shift(s, lx, j, fs0, fe0);
        lemma_first_sig_bounds(lx, fs0, fe0);
        lemma_lead17_shift(s, lx, j, ds0, ie0, fs0, fe0, 0, 0);
        lemma_lead17_shift(s, lx, j, first_sig_digit(lx, fs0, fe0), fe0, fe0, fe0, 0, 0);
        assert(!num_too_large(s, ds, ie, j + fs0, fe, exp));
    } else {
        assert(fe0 == l) by {
            assert(scan_number(lx, 0) == NumScan::Done { end: fe0 });
        }
        assert(!num_too_large(lx, ds0, ie0, fs0, fe0, 0));
        assert(char_at(s, ds) == char_at(lx, ds0));
        lemma_first_sig_shift(s, lx, j, fs0, fe0);
        lemma_first_sig_bounds(lx, fs0, fe0);
        lemma_lead17_shift(s, lx, j, ds0, ie0, fs0, fe0, 0, 0);
        lemma_lead17_shift(s, lx, j, first_sig_digit(lx, fs0, fe0), fe0, fe0, fe0, 0, 0);
        assert(!num_too_large(s, ds, ie, j + fs0, fe, 0));
    }
}

/// Rendered string content, embedded after an opening quote and followed
/// by its closing quote, scans back to exactly that content.
pub proof fn lemma_scan_string_local(s: Seq<char>, i: int, content: Seq<char>, k: int)
    requires
        0 <= k <= content.len(),
        0 <= i,
        i + ser_str_body(content, k).len() + 1 <= s.len(),
        s.subrange(i, i + ser_str_body(content, k).len()) == ser_str_body(content, k),
        s[i + ser_str_body(content, k).len()] == '"',
    ensures
        scan_string_body(s, i) == (StrScan::Done {
            content: content.subrange(k, content.len() as int),
            end: i + ser_str_body(content, k).len() + 1,
        }),
    decreases content.len() - k,
{
    let bl = ser_str_body(content, k).len() as int;
    if k == content.len() {
        assert(ser_str_body(content, k) =~= Seq::<char>::empty());
        assert(s[i] == '"');
        assert(content.subrange(k, content.len() as int) =~= Seq::<char>::empty());
    } else {
        let c0 = content[k];
        let e = esc_char(c0);
        let rest = ser_str_body(content, k + 1);
        assert(ser_str_body(content, k) == e + rest);
        let el = e.len() as int;
        assert(bl == el + rest.len());
        assert forall|k2: int| 0 <= k2 < bl implies s[i + k2] == (e + rest)[k2] by {
            assert(s.subrange(i, i + bl)[k2] == s[i + k2]);
        }
        assert forall|m: int| 0 <= m < el implies s[i + m] == e[m] by {
            assert(s[i + m] == (e + rest)[m]);
        }
        assert forall|m: int| 0 <= m < rest.len() implies s.subrange(i + el, i + bl)[m]
            == rest[m] by {
            assert(s.subrange(i + el, i + bl)[m] == s[i + (el + m)]);
            assert(s[i + (el + m)] == (e + rest)[el + m]);
            assert((e + rest)[el + m] == rest[m]);
        }
        assert(s.subrange(i + el, i + bl) =~= rest);
        lemma_scan_string_local(s, i + el, content, k + 1);
        assert(s[i + 0] == e[0]);
        let cv = c0 as int;
        if e.len() == 2 {
            // a short escape: backslash plus one letter
            assert(s[i] == e[0] && e[0] == '\\');
            assert(s[i + 1] == e[1]);
            assert(char_at(s, i + 1) == e[1]);
            assert(esc_code(e[1]) == Some(c0));
        } else if e.len() == 6 {
            // a \u00XX escape for an unnamed control character
            assert(s[i] == e[0] && e[0] == '\\');
            assert(s[i + 1] == e[1] && s[i + 2] == e[2] && s[i + 3] == e[3] && s[i + 4] == e[4]
                && s[i + 5] == e[5]);
            assert(char_at(s, i + 1) == 'u');
            assert(char_at(s, i + 2) == '0');
            assert(char_at(s, i + 3) == '0');
            assert(char_at(s, i + 4) == hex_digit_char(cv / 16));
            assert(char_at(s, i + 5) == hex_digit_char(cv % 16));
            lemma_char_val(c0);
            assert((c0 as u32) < 0x20);
            assert(0 <= cv < 0x20);
            assert(is_hex(hex_digit_char(cv / 16)) && hex_val(hex_digit_char(cv / 16)) == cv
                / 16);
            assert(is_hex(hex_digit_char(cv % 16)) && hex_val(hex_digit_char(cv % 16)) == cv
                % 16);
            assert(hex4_ok(s, i + 2));
            assert(hex4_val(s, i + 2) == cv) by {
                assert(hex_val('0') == 0);
                assert(cv == 16 * (cv / 16) + cv % 16);
            }
            assert((cv as char) == c0);
        } else {
            // the character itself
            assert(e =~= seq![c0]);
            assert(s[i] == e[0] && e[0] == c0);
            assert(c0 != '"' && c0 != '\\' && (c0 as u32) >= 0x20);
        }
        assert(seq![c0] + content.subrange(k + 1, content.len() as int) =~= content.subrange(
            k,
            content.len() as int,
        ));
    }
}

/// A character's code point, seen through `int` and through `u32`.
proof fn lemma_char_val(c: char)
    ensures
        0 <= c as int <= 0x10FFFF,
        c as u32 as int == c as int,
{
}

/// One character of an embedded run.
proof fn lemma_sub_at(s: Seq<char>, i: int, t: Seq<char>, k: int)
    requires
        0 <= i,
        i + t.len() <= s.len(),
        s.subrange(i, i + t.len()) == t,
        0 <= k < t.len(),
    ensures
        s[i + k] == t[k],
{
    assert(s.subrange(i, i + t.len())[k] == s[i + k]);
}

/// A piece of an embedded run is embedded at the shifted place.
proof fn lemma_sub_split(s: Seq<char>, i: int, t: Seq<char>, a: int, b: int)
    requires
        0 <= i,
        i + t.len() <= s.len(),
        s.subrange(i, i + t.len()) == t,
        0 <= a <= b <= t.len(),
    ensures
        s.subrange(i + a, i + b) == t.subrange(a, b),
{
    assert forall|m2: int| 0 <= m2 < b - a implies s.subrange(i + a, i + b)[m2]
        == t.subrange(a, b)[m2] by {
        assert(s.subrange(i, i + t.len())[a + m2] == s[i + (a + m2)]);
    }
    assert(s.subrange(i + a, i + b) =~= t.subrange(a, b));
}

/// A character that can begin a rendered value.
pub open spec fn is_value_start(c: char) -> bool {
    c == 'n' || c == 't' || c == 'f' || c == '"' || c == '[' || c == '{' || c == '-' || is_digit(
        c,
    )
}

/// A rendering is never empty, and its first character selects the right
/// production: never whitespace, a separator or a closing bracket.
pub proof fn lemma_ser_first(m: JsonModel)
    requires
        model_wf(m),
    ensures
        ser(m).len() >= 1,
        is_value_start(ser(m)[0]),
{
    match m {
        JsonModel::Num(lx) => {
            assert(scan_number(lx, 0) is Done);
            let ds0 = if char_at(lx, 0) == '-' {
                1int
            } else {
                0int
            };
            assert(ds0 < lx.len() && is_digit(lx[ds0]));
            assert(ser(m)[0] == lx[0]);
        },
        JsonModel::Str(sc) => {
            assert(ser(m)[0] == '"');
        },
        JsonModel::Arr(es) => {
            assert(ser(m)[0] == '[');
        },
        JsonModel::Obj(ms) => {
            assert(ser(m)[0] == '{');
        },
        _ => {},
    }
}

/// A rendered value embedded at a whitespace-free offset and followed by
/// a value terminator parses back to exactly that value.
#[verifier::rlimit(100)]
#[verifier::spinoff_prover]
pub proof fn lemma_value_at(s: Seq<char>, i: int, m: JsonModel)
    requires
        model_wf(m),
        0 <= i,
        i + ser(m).len() <= s.len(),
        ws_end(s, i) == i,
        s.subrange(i, i + ser(m).len()) == ser(m),
        at_value_end(s, i + ser(m).len()),
    ensures
        sp_value(s, i) == (PRes::Val { v: m, end: ws_end(s, i + ser(m).len()) }),
    decreases m, 0int, 0int,
{
    let sm = ser(m);
    let l = sm.len() as int;
    lemma_ser_first(m);
    lemma_sub_at(s, i, sm, 0);
    match m {
        JsonModel::Null => {
            assert(lit_matches(s, i, seq!['n', 'u', 'l', 'l']));
        },
        JsonModel::Bool(b) => {
            if b {
                assert(lit_matches(s, i, seq!['t', 'r', 'u', 'e']));
            } else {
                assert(lit_matches(s, i, seq!['f', 'a', 'l', 's', 'e']));
                assert(!lit_matches(s, i, seq!['t', 'r', 'u', 'e']));
            }
        },
        JsonModel::Num(lx) => {
            lemma_scan_number_local(s, i, lx);
        },
        JsonModel::Str(sc) => {
            let body = ser_str_body(sc, 0);
            let bl = body.len() as int;
            assert(sm.subrange(1, 1 + bl) =~= body);
            lemma_sub_split(s, i, sm, 1, 1 + bl);
            lemma_sub_at(s, i, sm, 1 + bl);
            assert(sm[1 + bl] == '"');
            lemma_scan_string_local(s, i + 1, sc, 0);
            assert(sc.subrange(0, sc.len() as int) =~= sc);
        },
        JsonModel::Arr(es) => {
            let inner = ser_elems(es, 0);
            let il = inner.len() as int;
            assert(sm[0] == '[');
            lemma_sub_at(s, i, sm, l - 1);
            assert(sm[l - 1] == ']');
            if es.len() == 0 {
                assert(il == 0);
                assert(s[i + 1] == ']');
                assert(ws_end(s, i + 1) == i + 1);
                assert(es =~= Seq::<JsonModel>::empty());
            } else {
                lemma_ser_first(es[0]);
                assert(inner.subrange(0, ser(es[0]).len() as int) =~= ser(es[0]));
                lemma_sub_split(s, i, sm, 1, 1 + il);
                assert(sm.subrange(1, 1 + il) =~= inner);
                lemma_sub_at(s, i + 1, inner, 0);
                assert(s[i + 1] == ser(es[0])[0]);
                assert(!is_ws(s[i + 1]) && s[i + 1] != ']');
                assert(ws_end(s, i + 1) == i + 1);
                lemma_elems_at(s, i + 1, es, 0, Seq::empty());
                assert(Seq::empty() + es.subrange(0, es.len() as int) =~= es);
            }
        },
        JsonModel::Obj(ms) => {
            let inner = ser_members(ms, 0);
            let il = inner.len() as int;
            assert(sm[0] == '{');
            lemma_sub_at(s, i, sm, l - 1);
            assert(sm[l - 1] == '}');
            if ms.len() == 0 {
                assert(il == 0);
                assert(s[i + 1] == '}');
                assert(ws_end(s, i + 1) == i + 1);
                assert(ms =~= Seq::<(Seq<char>, JsonModel)>::empty());
            } else {
                lemma_sub_split(s, i, sm, 1, 1 + il);
                assert(sm.subrange(1, 1 + il) =~= inner);
                lemma_sub_at(s, i + 1, inner, 0);
                assert(inner[0] == '"');
                assert(!is_ws(s[i + 1]) && s[i + 1] != '}');
                assert(ws_end(s, i + 1) == i + 1);
                lemma_members_at(s, i + 1, ms, 0, Seq::empty());
                assert(Seq::empty() + ms.subrange(0, ms.len() as int) =~= ms);
            }
        },
    }
}

/// Rendered elements embedded at `i` and closed by `]` parse back to
/// exactly those elements, appended to what was already gathered.
#[verifier::rlimit(100)]
#[verifier::spinoff_prover]
pub proof fn lemma_elems_at(s: Seq<char>, i: int, es: Seq<JsonModel>, k: int, acc: Seq<JsonModel>)
    requires
        0 <= k < es.len(),
        wf_elems(es, k),
        0 <= i,
        i + ser_elems(es, k).len() + 1 <= s.len(),
        s.subrange(i, i + ser_elems(es, k).len()) == ser_elems(es, k),
        s[i + ser_elems(es, k).len()] == ']',
    ensures
        sp_elems(s, i, acc) == (PRes::Val {
            v: JsonModel::Arr(acc + es.subrange(k, es.len() as int)),
            end: i + ser_elems(es, k).len() + 1,
        }),
    decreases es, es.len() - k, 0int,
{
    let sk = ser_elems(es, k);
    let skl = sk.len() as int;
    let e0 = ser(es[k]);
    let e0l = e0.len() as int;
    lemma_ser_first(es[k]);
    if k + 1 == es.len() {
        assert(sk == e0);
        assert(!is_ws(s[i])) by {
            lemma_sub_at(s, i, sk, 0);
        }
        assert(ws_end(s, i) == i);
        lemma_value_at(s, i, es[k]);
        assert(ws_end(s, i + e0l) == i + e0l);
        assert(acc.push(es[k]) =~= acc + es.subrange(k, es.len() as int));
    } else {
        let rest = ser_elems(es, k + 1);
        assert(sk == e0 + seq![','] + rest);
        assert(sk.subrange(0, e0l) =~= e0);
        assert(sk[e0l] == ',');
        assert(sk.subrange(e0l + 1, skl) =~= rest);
        lemma_sub_split(s, i, sk, 0, e0l);
        lemma_sub_at(s, i, sk, e0l);
        lemma_sub_split(s, i, sk, e0l + 1, skl);
        assert(!is_ws(s[i])) by {
            lemma_sub_at(s, i, e0, 0);
        }
        assert(ws_end(s, i) == i);
        lemma_value_at(s, i, es[k]);
        assert(ws_end(s, i + e0l) == i + e0l);
        lemma_elems_at(s, i + e0l + 1, es, k + 1, acc.push(es[k]));
        assert(acc.push(es[k]) + es.subrange(k + 1, es.len() as int) =~= acc + es.subrange(
            k,
            es.len() as int,
        ));
    }
}

/// Rendered members embedded at `i` and closed by `}` parse back to
/// exactly those members, appended to what was already gathered.
#[verifier::rlimit(100)]
#[verifier::spinoff_prover]
pub proof fn lemma_members_at(
    s: Seq<char>,
    i: int,
    ms: Seq<(Seq<char>, JsonModel)>,
    k: int,
    acc: Seq<(Seq<char>, JsonModel)>,
)
    requires
        0 <= k < ms.len(),
        wf_members(ms, k),
        0 <= i,
        i + ser_members(ms, k).len() + 1 <= s.len(),
        s.subrange(i, i + ser_members(ms, k).len()) == ser_members(ms, k),
        s[i + ser_members(ms, k).len()] == '}',
    ensures
        sp_members(s, i, acc) == (PRes::Val {
            v: JsonModel::Obj(acc + ms.subrange(k, ms.len() as int)),
            end: i + ser_members(ms, k).len() + 1,
        }),
    decreases ms, ms.len() - k, 0int,
{
    let sk = ser_members(ms, k);
    let skl = sk.len() as int;
    let key = ms[k].0;
    let body = ser_str_body(key, 0);
    let bl = body.len() as int;
    let ev = ser(ms[k].1);
    let evl = ev.len() as int;
    let one = seq!['"'] + body + seq!['"', ':'] + ev;
    let onel = one.len() as int;
    assert(onel == bl + 3 + evl);
    lemma_ser_first(ms[k].1);
    // the member's own pieces
    assert(one[0] == '"');
    assert(one.subrange(1, 1 + bl) =~= body);
    assert(one[1 + bl] == '"');
    assert(one[2 + bl] == ':');
    assert(one.subrange(3 + bl, onel) =~= ev);
    if k + 1 == ms.len() {
        assert(sk == one);
    } else {
        let rest = ser_members(ms, k + 1);
        assert(sk == one + seq![','] + rest);
        assert(sk.subrange(0, onel) =~= one);
        assert(sk[onel] == ',');
        assert(sk.subrange(onel + 1, skl) =~= rest);
    }
    // land the pieces in s
    lemma_sub_split(s, i, sk, 0, onel);
    lemma_sub_at(s, i, one, 0);
    lemma_sub_split(s, i, one, 1, 1 + bl);
    lemma_sub_at(s, i, one, 1 + bl);
    lemma_sub_at(s, i, one, 2 + bl);
    lemma_sub_split(s, i, one, 3 + bl, onel);
    assert(ws_end(s, i) == i);
    lemma_scan_string_local(s, i + 1, key, 0);
    assert(key.subrange(0, key.len() as int) =~= key);
    assert(ws_end(s, i + 2 + bl) == i + 2 + bl);
    // the member's value
    assert(s.subrange(i + 3 + bl, i + onel) == ev);
    lemma_sub_at(s, i + 3 + bl, ev, 0);
    assert(ws_end(s, i + 3 + bl) == i + 3 + bl);
    if k + 1 == ms.len() {
        lemma_value_at(s, i + 3 + bl, ms[k].1);
        assert(ws_end(s, i + onel) == i + onel);
        assert(acc.push((key, ms[k].1)) =~= acc + ms.subrange(k, ms.len() as int));
        assert((key, ms[k].1) == ms[k]);
    } else {
        lemma_sub_at(s, i, sk, onel);
        lemma_value_at(s, i + 3 + bl, ms[k].1);
        assert(ws_end(s, i + onel) == i + onel);
        let rest = ser_members(ms, k + 1);
        assert(skl == onel + 1 + rest.len());
        lemma_sub_split(s, i, sk, onel + 1, skl);
        assert(sk.subrange(onel + 1, skl) =~= rest);
        lemma_members_at(s, i + onel + 1, ms, k + 1, acc.push((key, ms[k].1)));
        assert((key, ms[k].1) == ms[k]);
        assert(acc.push(ms[k]) + ms.subrange(k + 1, ms.len() as int) =~= acc + ms.subrange(
            k,
            ms.len() as int,
        ));
    }
}

/// Parsing the rendering of any well-formed tree, with any whitespace
/// around it, yields exactly that tree, consuming the whole input.
pub proof fn lemma_parse_serialized(m: JsonModel, w1: Seq<char>, w2: Seq<char>)
    requires
        model_wf(m),
        all_ws(w1),
        all_ws(w2),
    ensures
        sp_parse(w1 + ser(m) + w2) == (PRes::Val {
            v: m,
            end: (w1 + ser(m) + w2).len() as int,
        }),
{
    let s = w1 + ser(m) + w2;
    let sm = ser(m);
    let l = sm.len() as int;
    let a = w1.len() as int;
    lemma_ser_first(m);
    assert forall|k2: int| 0 <= k2 < a implies is_ws(s[k2]) by {
        assert(s[k2] == w1[k2]);
    }
    assert(s[a] == sm[0]);
    lemma_ws_end_is(s, 0, a);
    assert(s.subrange(a, a + l) =~= sm);
    if w2.len() == 0 {
        assert(a + l == s.len());
    } else {
        assert(s[a + l] == w2[0]);
    }
    assert(ws_end(s, a) == a);
    lemma_value_at(s, a, m);
    crate::model::lemma_sp_value_shift_ws(s, 0, a);
    assert forall|k2: int| a + l <= k2 < s.len() implies is_ws(s[k2]) by {
        assert(s[k2] == w2[k2 - (a + l)]);
    }
    lemma_ws_end_is(s, a + l, s.len() as int);
}

/// Round trip: parsing the rendering of any well-formed tree yields that
/// tree back, structurally whole.
pub proof fn lemma_round_trip(m: JsonModel)
    requires
        model_wf(m),
    ensures
        sp_parse(ser(m)) == (PRes::Val { v: m, end: ser(m).len() as int }),
{
    lemma_parse_serialized(m, Seq::empty(), Seq::empty());
    assert(Seq::empty() + ser(m) + Seq::empty() =~= ser(m));
}

/// Idempotence: rendering, parsing and rendering again gives the same
/// text as rendering once.
pub proof fn lemma_stringify_idempotent(m: JsonModel)
    requires
        model_wf(m),
    ensures
        sp_parse(ser(m)) matches PRes::Val { v, end } && ser(v) == ser(m),
{
    lemma_round_trip(m);
}

/// Whitespace insensitivity: the null literal parses under any amount of
/// leading and trailing whitespace.
pub proof fn lemma_ws_insensitive_null(w1: Seq<char>, w2: Seq<char>)
    requires
        all_ws(w1),
        all_ws(w2),
    ensures
        sp_parse(w1 + seq!['n', 'u', 'l', 'l'] + w2) matches PRes::Val { v, end } && v
            == JsonModel::Null,
{
    lemma_parse_serialized(JsonModel::Null, w1, w2);
}

/// A number accepted in context is a well-formed lexeme on its own.
#[verifier::rlimit(100)]
#[verifier::spinoff_prover]
pub proof fn lemma_scan_number_wf(s: Seq<char>, j: int)
    requires
        0 <= j <= s.len(),
    ensures
        scan_number(s, j) matches NumScan::Done { end } ==> j <= end <= s.len()
            && num_lexeme_ok(s.subrange(j, end)),
{
    if scan_number(s, j) is Done {
        let ds = if char_at(s, j) == '-' {
            j + 1
        } else {
            j
        };
        assert(ds < s.len() && is_digit(s[ds]));
        let ie = if s[ds] == '0' {
            ds + 1
        } else {
            digits_end(s, ds)
        };
        lemma_digits_end_chars(s, ds);
        let fs = if ie < s.len() && s[ie] == '.' {
            ie + 1
        } else {
            ie
        };
        let fe = if ie < s.len() && s[ie] == '.' {
            digits_end(s, ie + 1)
        } else {
            ie
        };
        if ie < s.len() && s[ie] == '.' {
            lemma_digits_end_chars(s, ie + 1);
        }
        let end = (match scan_number(s, j) {
            NumScan::Done { end } => end,
            NumScan::Bad { kind, at } => 0int,
        });
        let lx = s.subrange(j, end);
        assert forall|k2: int| 0 <= k2 < end - j implies lx[k2] == s[j + k2] by {}
        if fe < s.len() && (s[fe] == 'e' || s[fe] == 'E') {
            let es = if fe + 1 < s.len() && (s[fe + 1] == '+' || s[fe + 1] == '-') {
                fe + 2
            } else {
                fe + 1
            };
            let ee = digits_end(s, es);
            lemma_digits_end_chars(s, es);
            assert(end == ee);
            // map each scanning step into lexeme coordinates
            assert(char_at(lx, 0) == char_at(s, j));
            lemma_digits_end_is(lx, ds - j, ie - j);
            if ie < s.len() && s[ie] == '.' {
                lemma_digits_end_is(lx, ie + 1 - j, fe - j);
            }
            lemma_digits_end_is(lx, es - j, ee - j);
            lemma_dec_val_shift(s, lx, j, es - j, ee - j, 0);
            lemma_first_sig_shift(s, lx, j, fs - j, fe - j);
            lemma_first_sig_bounds(lx, fs - j, fe - j);
            lemma_lead17_shift(s, lx, j, ds - j, ie - j, fs - j, fe - j, 0, 0);
            lemma_lead17_shift(
                s,
                lx,
                j,
                first_sig_digit(lx, fs - j, fe - j),
                fe - j,
                fe - j,
                fe - j,
                0,
                0,
            );
            assert(char_at(lx, fe - j + 1) == char_at(s, fe + 1));
            assert(char_at(lx, ds - j) == char_at(s, ds));
            assert(scan_number(lx, 0) == (NumScan::Done { end: lx.len() as int }));
        } else {
            assert(end == fe);
            assert(char_at(lx, 0) == char_at(s, j));
            lemma_digits_end_is(lx, ds - j, ie - j);
            if ie < s.len() && s[ie] == '.' {
                lemma_digits_end_is(lx, ie + 1 - j, fe - j);
            }
            lemma_first_sig_shift(s, lx, j, fs - j, fe - j);
            lemma_first_sig_bounds(lx, fs - j, fe - j);
            lemma_lead17_shift(s, lx, j, ds - j, ie - j, fs - j, fe - j, 0, 0);
            lemma_lead17_shift(
                s,
                lx,
                j,
                first_sig_digit(lx, fs - j, fe - j),
                fe - j,
                fe - j,
                fe - j,
                0,
                0,
            );
            assert(char_at(lx, ds - j) == char_at(s, ds));
            assert(scan_number(lx, 0) == (NumScan::Done { end: lx.len() as int }));
        }
    }
}

/// `wf_elems` from `k` is well-formedness of every element from `k` on.
pub proof fn lemma_wf_elems_iff(es: Seq<JsonModel>, k: int)
    requires
        0 <= k <= es.len(),
    ensures
        wf_elems(es, k) <==> (forall|j: int| k <= j < es.len() ==> model_wf(#[trigger] es[j])),
    decreases es.len() - k,
{
    if k < es.len() {
        lemma_wf_elems_iff(es, k + 1);
    }
}

/// `wf_members` from `k` is well-formedness of every member value from
/// `k` on.
pub proof fn lemma_wf_members_iff(ms: Seq<(Seq<char>, JsonModel)>, k: int)
    requires
        0 <= k <= ms.len(),
    ensures
        wf_members(ms, k) <==> (forall|j: int|
            k <= j < ms.len() ==> model_wf(#[trigger] ms[j].1)),
    decreases ms.len() - k,
{
    if k < ms.len() {
        lemma_wf_members_iff(ms, k + 1);
    }
}

/// Whatever the spec-level parser accepts is a well-formed model.
pub proof fn lemma_sp_value_wf(s: Seq<char>, i: int)
    requires
        0 <= i <= s.len(),
    ensures
        sp_value(s, i) matches PRes::Val { v, end } ==> model_wf(v),
    decreases s.len() - i, 1int,
{
    let j = ws_end(s, i);
    if j < s.len() {
        let c = s[j];
        if c == '[' {
            let j1 = ws_end(s, j + 1);
            if j1 < s.len() && s[j1] == ']' {
                lemma_wf_elems_iff(Seq::empty(), 0);
            } else {
                lemma_sp_elems_wf(s, j + 1, Seq::empty());
            }
        } else if c == '{' {
            let j1 = ws_end(s, j + 1);
            if j1 < s.len() && s[j1] == '}' {
                lemma_wf_members_iff(Seq::empty(), 0);
            } else {
                lemma_sp_members_wf(s, j + 1, Seq::empty());
            }
        } else if c == '-' || is_digit(c) {
            lemma_scan_number_wf(s, j);
        }
    }
}

/// Whatever the spec-level element parser accepts extends well-formed
/// gathered elements into a well-formed array.
pub proof fn lemma_sp_elems_wf(s: Seq<char>, i: int, acc: Seq<JsonModel>)
    requires
        0 <= i <= s.len(),
        forall|j: int| 0 <= j < acc.len() ==> model_wf(#[trigger] acc[j]),
    ensures
        sp_elems(s, i, acc) matches PRes::Val { v, end } ==> model_wf(v),
    decreases s.len() - i, 2int,
{
    lemma_sp_value_bounds(s, i);
    lemma_sp_value_wf(s, i);
    match sp_value(s, i) {
        PRes::Fail { .. } => {},
        PRes::Val { v, end } => {
            let j = if end > i {
                end
            } else {
                i + 1
            };
            if j < s.len() && s[j] == ',' {
                lemma_sp_elems_wf(s, j + 1, acc.push(v));
            } else if j < s.len() && s[j] == ']' {
                lemma_wf_elems_iff(acc.push(v), 0);
            }
        },
    }
}

/// Whatever the spec-level member parser accepts extends well-formed
/// gathered members into a well-formed object.
pub proof fn lemma_sp_members_wf(s: Seq<char>, i: int, acc: Seq<(Seq<char>, JsonModel)>)
    requires
        0 <= i <= s.len(),
        forall|j: int| 0 <= j < acc.len() ==> model_wf(#[trigger] acc[j].1),
    ensures
        sp_members(s, i, acc) matches PRes::Val { v, end } ==> model_wf(v),
    decreases s.len() - i, 2int,
{
    let j = ws_end(s, i);
    if j < s.len() && s[j] == '"' {
        lemma_scan_string_bounds(s, j + 1);
        match scan_string_body(s, j + 1) {
            StrScan::Bad { .. } => {},
            StrScan::Done { content, end } => {
                let e2 = if end > j + 1 {
                    end
                } else {
                    j + 2
                };
                let k = ws_end(s, e2);
                if k < s.len() && s[k] == ':' {
                    lemma_sp_value_bounds(s, k + 1);
                    lemma_sp_value_wf(s, k + 1);
                    match sp_value(s, k + 1) {
                        PRes::Fail { .. } => {},
                        PRes::Val { v, end: vend } => {
                            let j2 = if vend > k + 1 {
                                vend
                            } else {
                                k + 2
                            };
                            if j2 < s.len() && s[j2] == ',' {
                                lemma_sp_members_wf(s, j2 + 1, acc.push((content, v)));
                            } else if j2 < s.len() && s[j2] == '}' {
                                lemma_wf_members_iff(acc.push((content, v)), 0);
                            }
                        },
                    }
                }
            },
        }
    }
}

/// Whatever a whole parse accepts is a well-formed model.
pub proof fn lemma_sp_parse_wf(s: Seq<char>)
    ensures
        sp_parse(s) matches PRes::Val { v, end } ==> model_wf(v),
{
    lemma_sp_value_wf(s, 0);
}

} // verus!
