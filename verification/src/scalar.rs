//! The scalar encoding of leaf values: JSON strings, and JSON arrays of
//! strings (an ordered sequence is stored as a single array leaf, never
//! exploded into per-element keys).
//!
//! The encoder produces canonical JSON: `"` and `\` are escaped with a
//! backslash and control characters as `\u00XX`, with lowercase hex. The
//! decoder accepts exactly that form plus the standard one-character escapes
//! (`\/ \n \t \r \b \f`); its contract is stated by the spec-level parsers
//! below, and decoding anything the encoder produced is proved to give the
//! original value back.

use vstd::prelude::*;
use crate::error::Error;
use crate::strings::{chars_of, chars_to_string};

verus! {

broadcast use vstd::utf8::char_is_scalar, vstd::utf8::char_u32_cast;

pub open spec fn hex_digit(n: int) -> char {
    if n == 0 { '0' } else if n == 1 { '1' } else if n == 2 { '2' } else if n == 3 { '3' }
    else if n == 4 { '4' } else if n == 5 { '5' } else if n == 6 { '6' } else if n == 7 { '7' }
    else if n == 8 { '8' } else if n == 9 { '9' } else if n == 10 { 'a' } else if n == 11 { 'b' }
    else if n == 12 { 'c' } else if n == 13 { 'd' } else if n == 14 { 'e' } else { 'f' }
}

pub open spec fn is_hex_digit(c: char) -> bool {
    ('0' <= c && c <= '9') || ('a' <= c && c <= 'f') || ('A' <= c && c <= 'F')
}

pub open spec fn hex_val(c: char) -> int {
    if '0' <= c && c <= '9' {
        c as int - '0' as int
    } else if 'a' <= c && c <= 'f' {
        c as int - 'a' as int + 10
    } else {
        c as int - 'A' as int + 10
    }
}

/// The encoding of one character inside a JSON string.
pub open spec fn escape_char(c: char) -> Seq<char> {
    if c == '"' {
        seq!['\\', '"']
    } else if c == '\\' {
        seq!['\\', '\\']
    } else if (c as u32) < 32 {
        seq!['\\', 'u', '0', '0', hex_digit((c as u32) as int / 16), hex_digit((c as u32) as int % 16)]
    } else {
        seq![c]
    }
}

/// The encoded body of a JSON string (without the surrounding quotes).
pub open spec fn json_escape(s: Seq<char>) -> Seq<char>
    decreases s.len(),
{
    if s.len() == 0 {
        Seq::empty()
    } else {
        escape_char(s[0]) + json_escape(s.drop_first())
    }
}

/// The canonical JSON encoding of a string value.
pub open spec fn json_string_of(s: Seq<char>) -> Seq<char> {
    seq!['"'] + json_escape(s) + seq!['"']
}

/// The decoded character for a one-character escape, if accepted.
pub open spec fn unescape_simple(e: char) -> Option<char> {
    if e == '"' { Some('"') } else if e == '\\' { Some('\\') } else if e == '/' { Some('/') }
    else if e == 'n' { Some('\n') } else if e == 't' { Some('\t') } else if e == 'r' { Some('\r') }
    else if e == 'b' { Some('\u{0008}') } else if e == 'f' { Some('\u{000C}') } else { None }
}

/// Scans the body of a JSON string after its opening quote. On success,
/// returns the decoded characters and how many input characters were
/// consumed, including the closing quote.
pub open spec fn scan_string_body(s: Seq<char>) -> Option<(Seq<char>, int)>
    decreases s.len(),
{
    if s.len() == 0 {
        None
    } else if s[0] == '"' {
        Some((Seq::empty(), 1))
    } else if s[0] == '\\' {
        if s.len() < 2 {
            None
        } else if s[1] == 'u' {
            if s.len() >= 6 && s[2] == '0' && s[3] == '0' && is_hex_digit(s[4]) && is_hex_digit(
                s[5],
            ) {
                match scan_string_body(s.skip(6)) {
                    Some(p) => Some(
                        (seq![((hex_val(s[4]) * 16 + hex_val(s[5])) as u8) as char] + p.0, p.1 + 6),
                    ),
                    None => None,
                }
            } else {
                None
            }
        } else {
            match unescape_simple(s[1]) {
                Some(c) => match scan_string_body(s.skip(2)) {
                    Some(p) => Some((seq![c] + p.0, p.1 + 2)),
                    None => None,
                },
                None => None,
            }
        }
    } else if (s[0] as u32) < 32 {
        None
    } else {
        match scan_string_body(s.skip(1)) {
            Some(p) => Some((seq![s[0]] + p.0, p.1 + 1)),
            None => None,
        }
    }
}

/// The accepted grammar of a whole JSON string value.
pub open spec fn parse_json_string(s: Seq<char>) -> Option<Seq<char>> {
    if s.len() >= 1 && s[0] == '"' {
        match scan_string_body(s.skip(1)) {
            Some(p) => if p.1 == s.len() - 1 {
                Some(p.0)
            } else {
                None
            },
            None => None,
        }
    } else {
        None
    }
}

/// The encoded elements of a JSON array of strings, joined by commas.
pub open spec fn join_encoded(elems: Seq<Seq<char>>) -> Seq<char>
    decreases elems.len(),
{
    if elems.len() == 0 {
        Seq::empty()
    } else if elems.len() == 1 {
        json_string_of(elems[0])
    } else {
        json_string_of(elems[0]) + seq![','] + join_encoded(elems.drop_first())
    }
}

/// The canonical JSON encoding of an array of string values.
pub open spec fn json_array_of(elems: Seq<Seq<char>>) -> Seq<char> {
    seq!['['] + join_encoded(elems) + seq![']']
}

/// Scans one or more comma-separated string elements after the opening
/// bracket, up to and including the closing bracket.
pub open spec fn scan_elements(s: Seq<char>) -> Option<(Seq<Seq<char>>, int)>
    decreases s.len(),
{
    if s.len() == 0 || s[0] != '"' {
        None
    } else {
        match scan_string_body(s.skip(1)) {
            None => None,
            Some(p) => {
                let used = 1 + p.1;
                if 1 <= used && used < s.len() && s[used] == ',' {
                    match scan_elements(s.skip(used + 1)) {
                        None => None,
                        Some(q) => Some((seq![p.0] + q.0, used + 1 + q.1)),
                    }
                } else if 1 <= used && used < s.len() && s[used] == ']' {
                    Some((seq![p.0], used + 1))
                } else {
                    None
                }
            },
        }
    }
}

/// The accepted grammar of a whole JSON array of strings.
pub open spec fn parse_json_array(s: Seq<char>) -> Option<Seq<Seq<char>>> {
    if s.len() >= 2 && s[0] == '[' {
        if s.len() == 2 && s[1] == ']' {
            Some(Seq::empty())
        } else {
            match scan_elements(s.skip(1)) {
                Some(p) => if p.1 == s.len() - 1 {
                    Some(p.0)
                } else {
                    None
                },
                None => None,
            }
        }
    } else {
        None
    }
}

fn hex_digit_exec(n: u8) -> (c: char)
    requires
        n < 16,
    ensures
        c == hex_digit(n as int),
{
    if n == 0 { '0' } else if n == 1 { '1' } else if n == 2 { '2' } else if n == 3 { '3' }
    else if n == 4 { '4' } else if n == 5 { '5' } else if n == 6 { '6' } else if n == 7 { '7' }
    else if n == 8 { '8' } else if n == 9 { '9' } else if n == 10 { 'a' } else if n == 11 { 'b' }
    else if n == 12 { 'c' } else if n == 13 { 'd' } else if n == 14 { 'e' } else { 'f' }
}

fn is_hex_digit_exec(c: char) -> (r: bool)
    ensures
        r == is_hex_digit(c),
{
    ('0' <= c && c <= '9') || ('a' <= c && c <= 'f') || ('A' <= c && c <= 'F')
}

fn hex_val_exec(c: char) -> (r: u8)
    requires
        is_hex_digit(c),
    ensures
        r == hex_val(c),
        r < 16,
{
    if '0' <= c && c <= '9' {
        (c as u8) - ('0' as u8)
    } else if 'a' <= c && c <= 'f' {
        (c as u8) - ('a' as u8) + 10
    } else {
        (c as u8) - ('A' as u8) + 10
    }
}

/// Appends the encoding of one character to `out`.
fn escape_push(out: &mut Vec<char>, c: char)
    ensures
        final(out)@ == old(out)@ + escape_char(c),
{
    if c == '"' {
        out.push('\\');
        out.push('"');
    } else if c == '\\' {
        out.push('\\');
        out.push('\\');
    } else {
        let u: u32 = c as u32;
        if u < 32 {
            out.push('\\');
            out.push('u');
            out.push('0');
            out.push('0');
            out.push(hex_digit_exec((u / 16) as u8));
            out.push(hex_digit_exec((u % 16) as u8));
        } else {
            out.push(c);
        }
    }
    proof {
        assert(out@ =~= old(out)@ + escape_char(c));
    }
}

pub proof fn lemma_escape_append(a: Seq<char>, c: char)
    ensures
        json_escape(a.push(c)) == json_escape(a) + escape_char(c),
    decreases a.len(),
{
    if a.len() == 0 {
        assert(a.push(c)[0] == c);
        assert(a.push(c).drop_first() =~= a);
        assert(json_escape(a.push(c)) =~= json_escape(a) + escape_char(c));
    } else {
        assert(a.push(c)[0] == a[0]);
        assert(a.push(c).drop_first() =~= a.drop_first().push(c));
        lemma_escape_append(a.drop_first(), c);
        assert(json_escape(a.push(c)) =~= json_escape(a) + escape_char(c));
    }
}

/// Encodes a string value as a canonical JSON string.
#[verifier::loop_isolation(false)]
pub fn serialize_scalar(s: &str) -> (r: String)
    ensures
        r@ == json_string_of(s@),
{
    let cs = chars_of(s);
    let mut out: Vec<char> = Vec::new();
    out.push('"');
    let mut i: usize = 0;
    while i < cs.len()
        invariant
            i <= cs@.len(),
            cs@ == s@,
            out@ == seq!['"'] + json_escape(s@.subrange(0, i as int)),
        decreases cs@.len() - i,
    {
        let ghost pre = s@.subrange(0, i as int);
        escape_push(&mut out, cs[i]);
        proof {
            lemma_escape_append(pre, s@[i as int]);
            assert(pre.push(s@[i as int]) =~= s@.subrange(0, i as int + 1));
        }
        i = i + 1;
    }
    out.push('"');
    proof {
        assert(s@.subrange(0, s@.len() as int) =~= s@);
        assert(out@ =~= json_string_of(s@));
    }
    chars_to_string(&out)
}

/// Scans the body of a JSON string inside `cs`, starting at `start` (just
/// after the opening quote); on success returns the decoded characters and
/// the index just after the closing quote.
#[verifier::loop_isolation(false)]
fn scan_body_exec(cs: &Vec<char>, start: usize) -> (r: Option<(Vec<char>, usize)>)
    requires
        start <= cs@.len(),
    ensures
        match r {
            Some(p) => start < p.1 <= cs@.len() && scan_string_body(cs@.skip(start as int))
                == Some((p.0@, p.1 - start as int)),
            None => scan_string_body(cs@.skip(start as int)) is None,
        },
{
    let n: usize = cs.len();
    let mut i: usize = start;
    let mut out: Vec<char> = Vec::new();
    loop
        invariant
            start <= i <= n,
            n == cs@.len(),
            match scan_string_body(cs@.skip(i as int)) {
                Some(p) => scan_string_body(cs@.skip(start as int)) == Some(
                    (out@ + p.0, i - start + p.1),
                ),
                None => scan_string_body(cs@.skip(start as int)) is None,
            },
        decreases n - i,
    {
        let ghost s_i = cs@.skip(i as int);
        if i >= n {
            proof {
                assert(s_i.len() == 0);
            }
            return None;
        }
        let c = cs[i];
        proof {
            assert(s_i[0] == c);
        }
        if c == '"' {
            proof {
                assert(scan_string_body(s_i) == Some((Seq::<char>::empty(), 1int)));
                assert(out@ + Seq::<char>::empty() =~= out@);
            }
            return Some((out, i + 1));
        } else if c == '\\' {
            if i + 1 >= n {
                proof {
                    assert(s_i.len() < 2);
                    assert(scan_string_body(s_i) is None);
                }
                return None;
            }
            let e = cs[i + 1];
            proof {
                assert(s_i[1] == e);
            }
            if e == 'u' {
                if n - i < 6 {
                    proof {
                        assert(s_i.len() < 6);
                        assert(scan_string_body(s_i) is None);
                    }
                    return None;
                }
                let d2 = cs[i + 2];
                let d3 = cs[i + 3];
                let h1 = cs[i + 4];
                let h2 = cs[i + 5];
                proof {
                    assert(s_i[2] == d2 && s_i[3] == d3 && s_i[4] == h1 && s_i[5] == h2);
                }
                if d2 == '0' && d3 == '0' && is_hex_digit_exec(h1) && is_hex_digit_exec(h2) {
                    let code: u8 = hex_val_exec(h1) * 16 + hex_val_exec(h2);
                    let ghost out_pre = out@;
                    out.push(code as char);
                    proof {
                        assert(s_i.skip(6) =~= cs@.skip(i as int + 6));
                        assert(out@ =~= out_pre.push((code) as char));
                        assert((code) as char == ((hex_val(s_i[4]) * 16 + hex_val(s_i[5])) as u8)
                            as char);
                        match scan_string_body(cs@.skip(i as int + 6)) {
                            Some(p) => {
                                assert(scan_string_body(s_i) == Some(
                                    (seq![(code) as char] + p.0, p.1 + 6),
                                ));
                                assert(out_pre + (seq![(code) as char] + p.0) =~= out@ + p.0);
                            },
                            None => {
                                assert(scan_string_body(s_i) is None);
                            },
                        }
                    }
                    i = i + 6;
                } else {
                    proof {
                        assert(scan_string_body(s_i) is None);
                    }
                    return None;
                }
            } else {
                let dec: Option<char> = if e == '"' { Some('"') } else if e == '\\' {
                    Some('\\')
                } else if e == '/' { Some('/') } else if e == 'n' { Some('\n') } else if e
                    == 't' { Some('\t') } else if e == 'r' { Some('\r') } else if e == 'b' {
                    Some('\u{0008}')
                } else if e == 'f' { Some('\u{000C}') } else { None };
                proof {
                    assert(dec == unescape_simple(e));
                }
                match dec {
                    Some(c2) => {
                        let ghost out_pre = out@;
                        out.push(c2);
                        proof {
                            assert(s_i.skip(2) =~= cs@.skip(i as int + 2));
                            match scan_string_body(cs@.skip(i as int + 2)) {
                                Some(p) => {
                                    assert(scan_string_body(s_i) == Some(
                                        (seq![c2] + p.0, p.1 + 2),
                                    ));
                                    assert(out_pre + (seq![c2] + p.0) =~= out@ + p.0);
                                },
                                None => {
                                    assert(scan_string_body(s_i) is None);
                                },
                            }
                        }
                        i = i + 2;
                    },
                    None => {
                        proof {
                            assert(scan_string_body(s_i) is None);
                        }
                        return None;
                    },
                }
            }
        } else if (c as u32) < 32 {
            proof {
                assert(scan_string_body(s_i) is None);
            }
            return None;
        } else {
            let ghost out_pre = out@;
            out.push(c);
            proof {
                assert(s_i.skip(1) =~= cs@.skip(i as int + 1));
                match scan_string_body(cs@.skip(i as int + 1)) {
                    Some(p) => {
                        assert(scan_string_body(s_i) == Some((seq![c] + p.0, p.1 + 1)));
                        assert(out_pre + (seq![c] + p.0) =~= out@ + p.0);
                    },
                    None => {
                        assert(scan_string_body(s_i) is None);
                    },
                }
            }
            i = i + 1;
        }
    }
}

/// Decodes a JSON string value.
pub fn deserialize_scalar(s: &str) -> (r: Result<String, Error>)
    ensures
        r matches Ok(d) ==> parse_json_string(s@) == Some(d@),
        r is Err <==> parse_json_string(s@) is None,
        r matches Err(e) ==> e matches Error::ScalarSerialization { given } && given@ == s@,
{
    let cs = chars_of(s);
    if cs.len() == 0 || cs[0] != '"' {
        return Err(Error::ScalarSerialization { given: s.to_owned() });
    }
    match scan_body_exec(&cs, 1) {
        None => Err(Error::ScalarSerialization { given: s.to_owned() }),
        Some((d, j)) => {
            if j == cs.len() {
                Ok(chars_to_string(&d))
            } else {
                Err(Error::ScalarSerialization { given: s.to_owned() })
            }
        },
    }
}

/// Encodes a sequence of string values as a canonical JSON array.
#[verifier::loop_isolation(false)]
pub fn serialize_scalar_list(v: &Vec<String>) -> (r: String)
    ensures
        r@ == json_array_of(v.deep_view()),
{
    let mut out: Vec<char> = Vec::new();
    out.push('[');
    let mut i: usize = 0;
    while i < v.len()
        invariant
            i <= v@.len(),
            out@ == seq!['['] + join_encoded(v.deep_view().subrange(0, i as int)),
        decreases v@.len() - i,
    {
        let ghost pre = v.deep_view().subrange(0, i as int);
        if i > 0 {
            out.push(',');
        }
        let enc = serialize_scalar(v[i].as_str());
        let mut ecs = chars_of(enc.as_str());
        out.append(&mut ecs);
        proof {
            lemma_join_append(pre, v.deep_view()[i as int]);
            assert(pre.push(v.deep_view()[i as int]) =~= v.deep_view().subrange(0, i as int + 1));
            assert(out@ =~= seq!['['] + join_encoded(v.deep_view().subrange(0, i as int + 1)));
        }
        i = i + 1;
    }
    out.push(']');
    proof {
        assert(v.deep_view().subrange(0, v.deep_view().len() as int) =~= v.deep_view());
        assert(out@ =~= json_array_of(v.deep_view()));
    }
    chars_to_string(&out)
}

pub proof fn lemma_join_append(a: Seq<Seq<char>>, x: Seq<char>)
    ensures
        join_encoded(a.push(x)) == if a.len() == 0 {
            json_string_of(x)
        } else {
            join_encoded(a) + seq![','] + json_string_of(x)
        },
    decreases a.len(),
{
    if a.len() == 0 {
        assert(a.push(x).len() == 1);
        assert(a.push(x)[0] == x);
    } else {
        assert(a.push(x)[0] == a[0]);
        assert(a.push(x).drop_first() =~= a.drop_first().push(x));
        lemma_join_append(a.drop_first(), x);
        if a.len() == 1 {
            assert(a.drop_first().len() == 0);
            assert(join_encoded(a.push(x).drop_first()) == json_string_of(x));
            assert(join_encoded(a.push(x)) == json_string_of(a[0]) + seq![','] + json_string_of(
                x,
            ));
            assert(join_encoded(a) == json_string_of(a[0]));
            assert(join_encoded(a.push(x)) =~= join_encoded(a) + seq![','] + json_string_of(x));
        } else {
            assert(join_encoded(a.push(x)) =~= join_encoded(a) + seq![','] + json_string_of(x));
        }
    }
}

/// Scans comma-separated JSON string elements inside `cs` starting at
/// `start` (just after the opening bracket), through the closing bracket.
#[verifier::loop_isolation(false)]
fn scan_elements_exec(cs: &Vec<char>, start: usize) -> (r: Option<(Vec<String>, usize)>)
    requires
        start <= cs@.len(),
    ensures
        match r {
            Some(p) => start < p.1 <= cs@.len() && scan_elements(cs@.skip(start as int)) == Some(
                (p.0.deep_view(), p.1 - start as int),
            ),
            None => scan_elements(cs@.skip(start as int)) is None,
        },
{
    let n: usize = cs.len();
    let mut i: usize = start;
    let mut out: Vec<String> = Vec::new();
    loop
        invariant
            start <= i <= n,
            n == cs@.len(),
            match scan_elements(cs@.skip(i as int)) {
                Some(p) => scan_elements(cs@.skip(start as int)) == Some(
                    (out.deep_view() + p.0, i - start + p.1),
                ),
                None => scan_elements(cs@.skip(start as int)) is None,
            },
        decreases n - i,
    {
        let ghost s_i = cs@.skip(i as int);
        if i >= n {
            proof {
                assert(s_i.len() == 0);
            }
            return None;
        }
        if cs[i] != '"' {
            proof {
                assert(s_i[0] != '"');
            }
            return None;
        }
        proof {
            assert(s_i[0] == '"');
            assert(s_i.skip(1) =~= cs@.skip(i as int + 1));
        }
        match scan_body_exec(cs, i + 1) {
            None => {
                proof {
                    assert(scan_elements(s_i) is None);
                }
                return None;
            },
            Some((d, j)) => {
                // relative to s_i, the element consumed j - i characters
                proof {
                    assert(scan_string_body(s_i.skip(1)) == Some((d@, j - (i as int + 1))));
                }
                let ghost used = j - i as int;
                let ghost out_pre = out.deep_view();
                if j < n && cs[j] == ',' {
                    out.push(chars_to_string(&d));
                    proof {
                        assert(s_i[used] == ',');
                        assert(s_i.skip(used + 1) =~= cs@.skip(j as int + 1));
                        assert(out.deep_view() =~= out_pre.push(d@));
                        match scan_elements(cs@.skip(j as int + 1)) {
                            Some(q) => {
                                assert(scan_elements(s_i) == Some(
                                    (seq![d@] + q.0, used + 1 + q.1),
                                ));
                                assert(out_pre + (seq![d@] + q.0) =~= out.deep_view() + q.0);
                            },
                            None => {
                                assert(scan_elements(s_i) is None);
                            },
                        }
                    }
                    i = j + 1;
                } else if j < n && cs[j] == ']' {
                    out.push(chars_to_string(&d));
                    proof {
                        assert(s_i[used] == ']');
                        assert(s_i[used] != ',');
                        assert(scan_elements(s_i) == Some((seq![d@], used + 1)));
                        assert(out.deep_view() =~= out_pre.push(d@));
                        assert(out_pre + seq![d@] =~= out.deep_view());
                        assert(out.deep_view() + Seq::<Seq<char>>::empty() =~= out.deep_view());
                    }
                    return Some((out, j + 1));
                } else {
                    proof {
                        if used < s_i.len() {
                            assert(s_i[used] != ',' && s_i[used] != ']');
                        }
                        assert(scan_elements(s_i) is None);
                    }
                    return None;
                }
            },
        }
    }
}

/// Decodes a JSON array of string values.
pub fn deserialize_scalar_list(s: &str) -> (r: Result<Vec<String>, Error>)
    ensures
        r matches Ok(v) ==> parse_json_array(s@) == Some(v.deep_view()),
        r is Err <==> parse_json_array(s@) is None,
        r matches Err(e) ==> e matches Error::ScalarSerialization { given } && given@ == s@,
{
    let cs = chars_of(s);
    if cs.len() < 2 || cs[0] != '[' {
        return Err(Error::ScalarSerialization { given: s.to_owned() });
    }
    if cs.len() == 2 {
        if cs[1] == ']' {
            let empty_out: Vec<String> = Vec::new();
            proof {
                assert(empty_out.deep_view() =~= Seq::<Seq<char>>::empty());
            }
            return Ok(empty_out);
        } else {
            proof {
                assert(cs@.skip(1)[0] == cs@[1]);
                assert(cs@.skip(1).len() == 1);
                if cs@[1] == '"' {
                    assert(scan_string_body(cs@.skip(1).skip(1)) is None);
                }
                assert(scan_elements(cs@.skip(1)) is None);
            }
            return Err(Error::ScalarSerialization { given: s.to_owned() });
        }
    }
    match scan_elements_exec(&cs, 1) {
        None => Err(Error::ScalarSerialization { given: s.to_owned() }),
        Some((v, j)) => {
            if j == cs.len() {
                Ok(v)
            } else {
                Err(Error::ScalarSerialization { given: s.to_owned() })
            }
        },
    }
}

/// What the encoder produces, the string decoder accepts, and it decodes to
/// the original value. Stated over the spec-level codec; the executable
/// codec is bound to it by the contracts above.
pub proof fn lemma_scan_escaped(s: Seq<char>, t: Seq<char>)
    ensures
        scan_string_body(json_escape(s) + seq!['"'] + t) == Some(
            (s, json_escape(s).len() + 1 as int),
        ),
    decreases s.len(),
{
    let input = json_escape(s) + seq!['"'] + t;
    if s.len() == 0 {
        assert(input[0] == '"');
        assert(scan_string_body(input) == Some((Seq::<char>::empty(), 1int)));
        assert(s =~= Seq::<char>::empty());
    } else {
        let c = s[0];
        let rest = s.drop_first();
        lemma_scan_escaped(rest, t);
        let rest_input = json_escape(rest) + seq!['"'] + t;
        assert(json_escape(s) == escape_char(c) + json_escape(rest));
        if c == '"' || c == '\\' {
            assert(input[0] == '\\');
            assert(input[1] == c);
            assert(unescape_simple(c) == Some(c));
            assert(input.skip(2) =~= rest_input);
            assert(seq![c] + rest =~= s);
            assert(scan_string_body(input) == Some((s, json_escape(s).len() + 1 as int)));
        } else if (c as u32) < 32 {
            let v = (c as u32) as int;
            let hi = v / 16;
            let lo = v % 16;
            assert(0 <= hi < 16 && 0 <= lo < 16);
            assert(input[0] == '\\');
            assert(input[1] == 'u');
            assert(input[2] == '0');
            assert(input[3] == '0');
            assert(input[4] == hex_digit(hi));
            assert(input[5] == hex_digit(lo));
            lemma_hex_digit_props(hi);
            lemma_hex_digit_props(lo);
            assert(input.skip(6) =~= rest_input);
            assert(hex_val(input[4]) * 16 + hex_val(input[5]) == v);
            assert((v as u8) as u32 == c as u32);
            vstd::utf8::char_is_scalar(c);
            vstd::utf8::char_u32_cast(c, c as u32);
            assert(((c as u32) as char) == c);
            assert(((v as u8) as char) == ((c as u32) as char));
            assert(((v as u8) as char) == c);
            assert(seq![c] + rest =~= s);
            assert(scan_string_body(input) == Some((s, json_escape(s).len() + 1 as int)));
        } else {
            assert(input[0] == c);
            assert(input.skip(1) =~= rest_input);
            assert(seq![c] + rest =~= s);
            assert(scan_string_body(input) == Some((s, json_escape(s).len() + 1 as int)));
        }
    }
}

proof fn lemma_hex_digit_props(n: int)
    requires
        0 <= n < 16,
    ensures
        is_hex_digit(hex_digit(n)),
        hex_val(hex_digit(n)) == n,
{
}

/// Round trip for string scalars: decoding an encoded string gives the
/// original value back.
pub proof fn lemma_parse_serialize(s: Seq<char>)
    ensures
        parse_json_string(json_string_of(s)) == Some(s),
{
    lemma_scan_escaped(s, Seq::empty());
    let enc = json_string_of(s);
    assert(enc[0] == '"');
    assert(enc.skip(1) =~= json_escape(s) + seq!['"'] + Seq::<char>::empty());
    assert(scan_string_body(enc.skip(1)) == Some((s, json_escape(s).len() + 1 as int)));
    assert(enc.len() - 1 == json_escape(s).len() + 1);
}

proof fn lemma_scan_elements_encoded(elems: Seq<Seq<char>>, t: Seq<char>)
    requires
        elems.len() >= 1,
    ensures
        scan_elements(join_encoded(elems) + seq![']'] + t) == Some(
            (elems, join_encoded(elems).len() + 1 as int),
        ),
    decreases elems.len(),
{
    let input = join_encoded(elems) + seq![']'] + t;
    let e0 = elems[0];
    if elems.len() == 1 {
        assert(join_encoded(elems) == json_string_of(e0));
        assert(input[0] == '"');
        lemma_scan_escaped(e0, seq![']'] + t);
        assert(input.skip(1) =~= json_escape(e0) + seq!['"'] + (seq![']'] + t));
        assert(scan_string_body(input.skip(1)) == Some((e0, json_escape(e0).len() + 1 as int)));
        let used = 1 + json_escape(e0).len() + 1 as int;
        assert(used == json_string_of(e0).len());
        assert(input[used] == ']');
        assert(input[used] != ',');
        assert(seq![e0] =~= elems);
        assert(scan_elements(input) == Some((elems, join_encoded(elems).len() + 1 as int)));
    } else {
        let rest = elems.drop_first();
        assert(join_encoded(elems) == json_string_of(e0) + seq![','] + join_encoded(rest));
        assert(input[0] == '"');
        lemma_scan_escaped(e0, seq![','] + join_encoded(rest) + seq![']'] + t);
        assert(input.skip(1) =~= json_escape(e0) + seq!['"'] + (seq![','] + join_encoded(rest)
            + seq![']'] + t));
        assert(scan_string_body(input.skip(1)) == Some((e0, json_escape(e0).len() + 1 as int)));
        let used = 1 + json_escape(e0).len() + 1 as int;
        assert(used == json_string_of(e0).len());
        assert(input[used] == ',');
        lemma_scan_elements_encoded(rest, t);
        assert(input.skip(used + 1) =~= join_encoded(rest) + seq![']'] + t);
        assert(scan_elements(input.skip(used + 1)) == Some(
            (rest, join_encoded(rest).len() + 1 as int),
        ));
        assert(seq![e0] + rest =~= elems);
        assert(used + 1 + join_encoded(rest).len() + 1 == join_encoded(elems).len() + 1);
        assert(scan_elements(input) == Some((elems, join_encoded(elems).len() + 1 as int)));
    }
}

/// Round trip for array scalars: decoding an encoded array gives the
/// original elements back, in order.
pub proof fn lemma_parse_serialize_list(elems: Seq<Seq<char>>)
    ensures
        parse_json_array(json_array_of(elems)) == Some(elems),
{
    let enc = json_array_of(elems);
    if elems.len() == 0 {
        assert(join_encoded(elems) =~= Seq::<char>::empty());
        assert(enc.len() == 2);
        assert(enc[0] == '[');
        assert(enc[1] == ']');
    } else {
        lemma_scan_elements_encoded(elems, Seq::empty());
        assert(enc[0] == '[');
        assert(enc.skip(1) =~= join_encoded(elems) + seq![']'] + Seq::<char>::empty());
        assert(scan_elements(enc.skip(1)) == Some(
            (elems, join_encoded(elems).len() + 1 as int),
        ));
        assert(enc.len() - 1 == join_encoded(elems).len() + 1);
        assert(json_string_of(elems[0]).len() >= 2);
        assert(join_encoded(elems).len() >= 2);
        assert(enc.len() > 2);
    }
}

} // verus!
