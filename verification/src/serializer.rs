//! The canonical serializer.
//!
//! [`stringify`] renders a value tree to minified JSON text and is proved
//! to return exactly the spec-level rendering [`ser`] of the tree's
//! model.

use vstd::prelude::*;
use crate::convert::chars_to_string;
use crate::model::{
    esc_char, hex_digit_char, ser, ser_elems, ser_members, ser_str_body, JsonModel,
};
use crate::value::{
    lemma_members_model, lemma_values_model, members_model, value_model, values_model, Member,
    Value,
};

verus! {

/// The character for the hexadecimal digit `d`.
fn hex_digit(d: u8) -> (r: char)
    requires
        d < 16,
    ensures
        r == hex_digit_char(d as int),
{
    if d < 10 {
        (48 + d) as char
    } else {
        (97 + (d - 10)) as char
    }
}

/// Appends the rendering of one string character: the named short
/// escapes, `\u00XX` for other control characters, the character itself
/// otherwise.
fn ser_char_into(ch: char, out: &mut Vec<char>)
    ensures
        final(out)@ == old(out)@ + esc_char(ch),
{
    if ch == '"' {
        out.push('\\');
        out.push('"');
    } else if ch == '\\' {
        out.push('\\');
        out.push('\\');
    } else if ch == '\u{8}' {
        out.push('\\');
        out.push('b');
    } else if ch == '\u{c}' {
        out.push('\\');
        out.push('f');
    } else if ch == '\n' {
        out.push('\\');
        out.push('n');
    } else if ch == '\r' {
        out.push('\\');
        out.push('r');
    } else if ch == '\t' {
        out.push('\\');
        out.push('t');
    } else if (ch as u32) < 0x20 {
        let u = ch as u32;
        out.push('\\');
        out.push('u');
        out.push('0');
        out.push('0');
        out.push(hex_digit((u / 16) as u8));
        out.push(hex_digit((u % 16) as u8));
    } else {
        out.push(ch);
    }
    proof {
        assert(final(out)@ =~= old(out)@ + esc_char(ch));
    }
}

/// Appends the rendering of whole string content.
fn ser_str_into(sc: &Vec<char>, out: &mut Vec<char>)
    ensures
        final(out)@ == old(out)@ + ser_str_body(sc@, 0),
{
    let n = sc.len();
    let mut k: usize = 0;
    while k < n
        invariant
            k <= n,
            n == sc@.len(),
            out@ + ser_str_body(sc@, k as int) == old(out)@ + ser_str_body(sc@, 0),
        decreases n - k,
    {
        let ghost before = out@;
        ser_char_into(sc[k], out);
        proof {
            assert(out@ + ser_str_body(sc@, k + 1) =~= before + ser_str_body(sc@, k as int));
        }
        k = k + 1;
    }
    proof {
        assert(out@ + ser_str_body(sc@, n as int) =~= out@);
    }
}

/// Appends every character of `src`.
fn push_all(src: &Vec<char>, out: &mut Vec<char>)
    ensures
        final(out)@ == old(out)@ + src@,
{
    let n = src.len();
    let mut k: usize = 0;
    while k < n
        invariant
            k <= n,
            n == src@.len(),
            out@ == old(out)@ + src@.subrange(0, k as int),
        decreases n - k,
    {
        out.push(src[k]);
        k = k + 1;
        proof {
            assert(old(out)@ + src@.subrange(0, k - 1) + seq![src@[k - 1]] =~= old(out)@
                + src@.subrange(0, k as int));
        }
    }
    proof {
        assert(old(out)@ + src@.subrange(0, n as int) =~= old(out)@ + src@);
    }
}

/// Appends the canonical rendering of one value.
fn ser_into(v: &Value, out: &mut Vec<char>)
    ensures
        final(out)@ == old(out)@ + ser(value_model(*v)),
    decreases *v, 0int, 0int,
{
    match v {
        Value::Null => {
            out.push('n');
            out.push('u');
            out.push('l');
            out.push('l');
            proof {
                assert(out@ =~= old(out)@ + ser(value_model(*v)));
            }
        },
        Value::Bool(b) => {
            if *b {
                out.push('t');
                out.push('r');
                out.push('u');
                out.push('e');
            } else {
                out.push('f');
                out.push('a');
                out.push('l');
                out.push('s');
                out.push('e');
            }
            proof {
                assert(out@ =~= old(out)@ + ser(value_model(*v)));
            }
        },
        Value::Number(lx) => {
            push_all(lx, out);
        },
        Value::Text(sc) => {
            out.push('"');
            ser_str_into(sc, out);
            out.push('"');
            proof {
                assert(out@ =~= old(out)@ + ser(value_model(*v)));
            }
        },
        Value::Array(a) => {
            out.push('[');
            if a.len() > 0 {
                ser_elems_into(a, 0, out);
            }
            out.push(']');
            proof {
                lemma_values_model(a@, 0);
                assert(out@ =~= old(out)@ + ser(value_model(*v)));
            }
        },
        Value::Object(ms) => {
            out.push('{');
            if ms.len() > 0 {
                ser_members_into(ms, 0, out);
            }
            out.push('}');
            proof {
                lemma_members_model(ms@, 0);
                assert(out@ =~= old(out)@ + ser(value_model(*v)));
            }
        },
    }
}

/// Appends the renderings of the elements from `k` on, joined with
/// commas.
fn ser_elems_into(a: &Vec<Value>, k: usize, out: &mut Vec<char>)
    requires
        k < a@.len(),
    ensures
        final(out)@ == old(out)@ + ser_elems(values_model(a@, 0), k as int),
    decreases a@, a@.len() - k, 1int,
{
    proof {
        lemma_values_model(a@, 0);
    }
    ser_into(&a[k], out);
    if k < a.len() - 1 {
        out.push(',');
        ser_elems_into(a, k + 1, out);
        proof {
            assert(out@ =~= old(out)@ + ser_elems(values_model(a@, 0), k as int));
        }
    }
}

/// Appends the renderings of the members from `k` on — `"key":value` —
/// joined with commas.
fn ser_members_into(ms: &Vec<Member>, k: usize, out: &mut Vec<char>)
    requires
        k < ms@.len(),
    ensures
        final(out)@ == old(out)@ + ser_members(members_model(ms@, 0), k as int),
    decreases ms@, ms@.len() - k, 1int,
{
    proof {
        lemma_members_model(ms@, 0);
    }
    out.push('"');
    ser_str_into(&ms[k].key, out);
    out.push('"');
    out.push(':');
    ser_into(&ms[k].value, out);
    if k < ms.len() - 1 {
        out.push(',');
        ser_members_into(ms, k + 1, out);
    }
    proof {
        assert(out@ =~= old(out)@ + ser_members(members_model(ms@, 0), k as int));
    }
}

/// Renders a value tree to canonical minified JSON text: no inserted
/// whitespace, elements and members in insertion order, strings
/// re-escaped exactly as [`esc_char`] says.  Total — it never fails on
/// any tree.
pub fn stringify(v: &Value) -> (r: String)
    ensures
        r@ == ser(v@),
{
    let mut out: Vec<char> = Vec::new();
    ser_into(v, &mut out);
    chars_to_string(&out)
}

} // verus!
