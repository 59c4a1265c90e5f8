use vstd::prelude::*;
use crate::lexer::{is_string_text, string_text_check};
use crate::text::{chars_of, push_char};

verus! {

/// The value of a hexadecimal digit.
pub open spec fn hex_digit(c: char) -> Option<int> {
    if '0' <= c && c <= '9' {
        Some(c as int - '0' as int)
    } else if 'a' <= c && c <= 'f' {
        Some(c as int - 'a' as int + 10)
    } else if 'A' <= c && c <= 'F' {
        Some(c as int - 'A' as int + 10)
    } else {
        None
    }
}

/// The number that the four hexadecimal digits at `i` spell.
pub open spec fn hex4(w: Seq<char>, i: int) -> Option<int> {
    if 0 <= i && i + 4 <= w.len() && hex_digit(w[i]) is Some && hex_digit(w[i + 1]) is Some
        && hex_digit(w[i + 2]) is Some && hex_digit(w[i + 3]) is Some {
        Some(
            hex_digit(w[i])->0 * 4096 + hex_digit(w[i + 1])->0 * 256 + hex_digit(w[i + 2])->0 * 16
                + hex_digit(w[i + 3])->0,
        )
    } else {
        None
    }
}

/// The character that a one-letter escape `\e` stands for.
pub open spec fn simple_escape(e: char) -> Option<u32> {
    if e == '"' {
        Some(0x22)
    } else if e == '\\' {
        Some(0x5c)
    } else if e == '/' {
        Some(0x2f)
    } else if e == 'b' {
        Some(0x08)
    } else if e == 'f' {
        Some(0x0c)
    } else if e == 'n' {
        Some(0x0a)
    } else if e == 'r' {
        Some(0x0d)
    } else if e == 't' {
        Some(0x09)
    } else {
        None
    }
}

/// `x` in front of what `rest` holds, if it holds anything.
pub open spec fn cons(x: u32, rest: Option<Seq<u32>>) -> Option<Seq<u32>> {
    match rest {
        Some(s) => Some(seq![x] + s),
        None => None,
    }
}

/// The code points that the string body `w` stands for from `i` on, or `None`
/// where it holds an unescaped quote, an unknown escape, or a `\u` escape
/// that is not four hex digits or leaves a surrogate unpaired.
pub open spec fn decode_body(w: Seq<char>, i: int) -> Option<Seq<u32>>
    decreases w.len() - i,
{
    if i < 0 || i >= w.len() {
        Some(Seq::empty())
    } else if w[i] == '"' {
        None
    } else if w[i] != '\\' {
        cons(w[i] as u32, decode_body(w, i + 1))
    } else if i + 1 >= w.len() {
        None
    } else if simple_escape(w[i + 1]) is Some {
        cons(simple_escape(w[i + 1])->0, decode_body(w, i + 2))
    } else if w[i + 1] != 'u' || hex4(w, i + 2) is None {
        None
    } else {
        let u = hex4(w, i + 2)->0;
        if 0xD800 <= u < 0xDC00 {
            if i + 12 <= w.len() && w[i + 6] == '\\' && w[i + 7] == 'u' && hex4(w, i + 8) is Some
                && 0xDC00 <= hex4(w, i + 8)->0 < 0xE000 {
                let lo = hex4(w, i + 8)->0;
                cons((0x10000 + (u - 0xD800) * 1024 + (lo - 0xDC00)) as u32, decode_body(w, i + 12))
            } else {
                None
            }
        } else if 0xDC00 <= u < 0xE000 {
            None
        } else {
            cons(u as u32, decode_body(w, i + 6))
        }
    }
}

/// The code points of the string literal `w` with its escapes decoded, or
/// `None` where `w` is no string literal or holds a bad escape.
pub open spec fn decode_literal(w: Seq<char>) -> Option<Seq<u32>> {
    if is_string_text(w) {
        decode_body(w.subrange(1, w.len() - 1), 0)
    } else {
        None
    }
}

/// The code point of each character.
pub open spec fn codes_of(s: Seq<char>) -> Seq<u32> {
    s.map_values(|c: char| c as u32)
}

pub open spec fn prepend(p: Seq<u32>, rest: Option<Seq<u32>>) -> Option<Seq<u32>> {
    match rest {
        Some(s) => Some(p + s),
        None => None,
    }
}

/// Relies on std's `char::from_u32`: it returns the char with code `n`
/// exactly when `n` is a Unicode scalar value.
#[verifier::external_body]
fn char_from_code(n: u32) -> (r: Option<char>)
    ensures
        (n < 0xD800 || (0xE000 <= n && n <= 0x10FFFF)) <==> r is Some,
        r matches Some(c) ==> c as u32 == n,
{
    char::from_u32(n)
}

fn hex_digit_value(c: char) -> (r: Option<u32>)
    ensures
        r matches Some(d) ==> hex_digit(c) == Some(d as int),
        r is None ==> hex_digit(c) is None,
{
    if '0' <= c && c <= '9' {
        Some(c as u32 - '0' as u32)
    } else if 'a' <= c && c <= 'f' {
        Some(c as u32 - 'a' as u32 + 10)
    } else if 'A' <= c && c <= 'F' {
        Some(c as u32 - 'A' as u32 + 10)
    } else {
        None
    }
}

fn hex4_value(w: &Vec<char>, i: usize) -> (r: Option<u32>)
    ensures
        r matches Some(d) ==> hex4(w@, i as int) == Some(d as int) && d < 0x10000,
        r is None ==> hex4(w@, i as int) is None,
{
    if i > w.len() || w.len() - i < 4 {
        return None;
    }
    let a = hex_digit_value(w[i]);
    let b = hex_digit_value(w[i + 1]);
    let c = hex_digit_value(w[i + 2]);
    let d = hex_digit_value(w[i + 3]);
    match (a, b, c, d) {
        (Some(a), Some(b), Some(c), Some(d)) => {
            assert(a < 16 && b < 16 && c < 16 && d < 16);
            Some(a * 4096 + b * 256 + c * 16 + d)
        },
        _ => None,
    }
}

fn escape_value(e: char) -> (r: Option<u32>)
    ensures
        r == simple_escape(e),
{
    if e == '"' {
        Some(0x22)
    } else if e == '\\' {
        Some(0x5c)
    } else if e == '/' {
        Some(0x2f)
    } else if e == 'b' {
        Some(0x08)
    } else if e == 'f' {
        Some(0x0c)
    } else if e == 'n' {
        Some(0x0a)
    } else if e == 'r' {
        Some(0x0d)
    } else if e == 't' {
        Some(0x09)
    } else {
        None
    }
}

proof fn lemma_prepend_cons(p: Seq<u32>, x: u32, d: Option<Seq<u32>>)
    ensures
        prepend(p, cons(x, d)) == prepend(p.push(x), d),
{
    if let Some(s) = d {
        assert(p + (seq![x] + s) =~= p.push(x) + s);
    }
}

/// Appends `c` to `out`, with what that does to the code points.
fn push_coded(out: &mut String, c: char)
    ensures
        final(out)@ == old(out)@.push(c),
        codes_of(final(out)@) == codes_of(old(out)@).push(c as u32),
{
    push_char(out, c);
    assert(codes_of(out@) =~= codes_of(old(out)@).push(c as u32));
}

/// Decodes the escapes of a string body.
fn decode_chars(w: &Vec<char>) -> (r: Option<String>)
    ensures
        match decode_body(w@, 0) {
            Some(codes) => r matches Some(s) && codes_of(s@) == codes,
            None => r is None,
        },
{
    let mut out = String::new();
    let mut i: usize = 0;
    assert(codes_of(out@) =~= Seq::<u32>::empty());
    assert(prepend(Seq::<u32>::empty(), decode_body(w@, 0)) == decode_body(w@, 0)) by {
        if let Some(s) = decode_body(w@, 0) {
            assert(Seq::<u32>::empty() + s =~= s);
        }
    }
    while i < w.len()
        invariant
            i <= w@.len(),
            decode_body(w@, 0) == prepend(codes_of(out@), decode_body(w@, i as int)),
        decreases w@.len() - i,
    {
        let ghost before = codes_of(out@);
        let c = w[i];
        if c == '"' {
            return None;
        } else if c != '\\' {
            push_coded(&mut out, c);
            proof {
                lemma_prepend_cons(before, c as u32, decode_body(w@, i + 1));
            }
            i = i + 1;
        } else if i + 1 >= w.len() {
            return None;
        } else {
            match escape_value(w[i + 1]) {
                Some(x) => {
                    let ch = match char_from_code(x) {
                        Some(ch) => ch,
                        None => {
                            return None;
                        },
                    };
                    push_coded(&mut out, ch);
                    proof {
                        lemma_prepend_cons(before, x, decode_body(w@, i + 2));
                    }
                    i = i + 2;
                },
                None => {
                    if w[i + 1] != 'u' {
                        return None;
                    }
                    let u = match hex4_value(w, i + 2) {
                        Some(u) => u,
                        None => {
                            return None;
                        },
                    };
                    if 0xD800 <= u && u < 0xDC00 {
                        if w.len() - i < 12 || w[i + 6] != '\\' || w[i + 7] != 'u' {
                            return None;
                        }
                        let lo = match hex4_value(w, i + 8) {
                            Some(lo) => lo,
                            None => {
                                return None;
                            },
                        };
                        if lo < 0xDC00 || lo >= 0xE000 {
                            return None;
                        }
                        let x = 0x10000 + (u - 0xD800) * 1024 + (lo - 0xDC00);
                        let ch = match char_from_code(x) {
                            Some(ch) => ch,
                            None => {
                                return None;
                            },
                        };
                        push_coded(&mut out, ch);
                        proof {
                            lemma_prepend_cons(before, x, decode_body(w@, i + 12));
                        }
                        i = i + 12;
                    } else if 0xDC00 <= u && u < 0xE000 {
                        return None;
                    } else {
                        let ch = match char_from_code(u) {
                            Some(ch) => ch,
                            None => {
                                return None;
                            },
                        };
                        push_coded(&mut out, ch);
                        proof {
                            lemma_prepend_cons(before, u, decode_body(w@, i + 6));
                        }
                        i = i + 6;
                    }
                },
            }
        }
    }
    proof {
        assert(codes_of(out@) + Seq::<u32>::empty() =~= codes_of(out@));
    }
    Some(out)
}

/// Decodes the escapes of the string literal `raw` (quotes included): `None`
/// where `raw` is no string literal or holds an escape that JSON does not
/// define.
pub fn decode_string(raw: &str) -> (r: Option<String>)
    ensures
        match decode_literal(raw@) {
            Some(codes) => r matches Some(s) && codes_of(s@) == codes,
            None => r is None,
        },
{
    let w = chars_of(raw);
    if !string_text_check(&w) {
        return None;
    }
    let body = crate::text::span_chars(&w, 1, w.len() - 1);
    decode_chars(&body)
}

} // verus!
