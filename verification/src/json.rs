//! A JSON value type with a verified printer and a parser, for the history
//! file codec and the compositor's window-query output.
//!
//! Numbers are kept only when they are integers that fit in `i64` (the only
//! numbers the rest of the system reads); any other number parses as
//! [`Json::NumOther`], whose integer reading is absent.

use vstd::prelude::*;

use crate::text::{char_from_u32, chars_of, digit_val, digits_val, is_digit};

verus! {

broadcast use vstd::seq::axiom_seq_index_decreases, vstd::seq::axiom_seq_subrange_decreases, vstd::std_specs::vec::axiom_vec_decreases_to_view;

/// Mathematical model of a [`Json`] document.
pub enum JsonV {
    Null,
    Bool(bool),
    Int(i64),
    NumOther,
    Str(Seq<char>),
    Arr(Seq<JsonV>),
    Obj(Seq<(Seq<char>, JsonV)>),
}

/// A JSON document: object members keep their order.
pub enum Json {
    Null,
    Bool(bool),
    Int(i64),
    NumOther,
    Str(Vec<char>),
    Arr(Vec<Json>),
    Obj(Vec<(Vec<char>, Json)>),
}

pub open spec fn jview(j: Json) -> JsonV
    decreases j,
{
    match j {
        Json::Null => JsonV::Null,
        Json::Bool(b) => JsonV::Bool(b),
        Json::Int(i) => JsonV::Int(i),
        Json::NumOther => JsonV::NumOther,
        Json::Str(s) => JsonV::Str(s@),
        Json::Arr(items) => JsonV::Arr(jview_seq(items@)),
        Json::Obj(fields) => JsonV::Obj(jview_fields(fields@)),
    }
}

pub open spec fn jview_seq(s: Seq<Json>) -> Seq<JsonV>
    decreases s,
{
    if s.len() == 0 {
        Seq::empty()
    } else {
        seq![jview(s[0])] + jview_seq(s.subrange(1, s.len() as int))
    }
}

pub open spec fn jview_fields(s: Seq<(Vec<char>, Json)>) -> Seq<(Seq<char>, JsonV)>
    decreases s,
{
    if s.len() == 0 {
        Seq::empty()
    } else {
        seq![(s[0].0@, jview(s[0].1))] + jview_fields(s.subrange(1, s.len() as int))
    }
}

pub proof fn lemma_jview_seq_props(s: Seq<Json>)
    ensures
        jview_seq(s).len() == s.len(),
        forall|i: int| 0 <= i < s.len() ==> jview_seq(s)[i] == jview(#[trigger] s[i]),
    decreases s,
{
    if s.len() > 0 {
        let t = s.subrange(1, s.len() as int);
        lemma_jview_seq_props(t);
        assert forall|i: int| 0 <= i < s.len() implies jview_seq(s)[i] == jview(
            #[trigger] s[i],
        ) by {
            if i > 0 {
                assert(t[i - 1] == s[i]);
                assert(jview_seq(t)[i - 1] == jview(t[i - 1]));
            }
        }
    }
}

pub proof fn lemma_jview_fields_props(s: Seq<(Vec<char>, Json)>)
    ensures
        jview_fields(s).len() == s.len(),
        forall|i: int|
            0 <= i < s.len() ==> jview_fields(s)[i] == ((#[trigger] s[i]).0@, jview(s[i].1)),
    decreases s,
{
    if s.len() > 0 {
        let t = s.subrange(1, s.len() as int);
        lemma_jview_fields_props(t);
        assert forall|i: int| 0 <= i < s.len() implies jview_fields(s)[i] == ((
        #[trigger] s[i]).0@, jview(s[i].1)) by {
            if i > 0 {
                assert(t[i - 1] == s[i]);
                assert(jview_fields(t)[i - 1] == (t[i - 1].0@, jview(t[i - 1].1)));
            }
        }
    }
}

pub proof fn lemma_jview_seq_push(s: Seq<Json>, x: Json)
    ensures
        jview_seq(s.push(x)) == jview_seq(s).push(jview(x)),
{
    lemma_jview_seq_props(s.push(x));
    lemma_jview_seq_props(s);
    let lhs = jview_seq(s.push(x));
    let rhs = jview_seq(s).push(jview(x));
    assert forall|i: int| 0 <= i < lhs.len() implies lhs[i] == rhs[i] by {
        assert(lhs[i] == jview(s.push(x)[i]));
        if i < s.len() {
            assert(s.push(x)[i] == s[i]);
            assert(jview_seq(s)[i] == jview(s[i]));
        } else {
            assert(s.push(x)[i] == x);
        }
    }
    assert(lhs =~= rhs);
}

pub proof fn lemma_jview_fields_push(s: Seq<(Vec<char>, Json)>, k: Vec<char>, x: Json)
    ensures
        jview_fields(s.push((k, x))) == jview_fields(s).push((k@, jview(x))),
{
    lemma_jview_fields_props(s.push((k, x)));
    lemma_jview_fields_props(s);
    let lhs = jview_fields(s.push((k, x)));
    let rhs = jview_fields(s).push((k@, jview(x)));
    assert forall|i: int| 0 <= i < lhs.len() implies lhs[i] == rhs[i] by {
        assert(lhs[i] == (s.push((k, x))[i].0@, jview(s.push((k, x))[i].1)));
        if i < s.len() {
            assert(s.push((k, x))[i] == s[i]);
            assert(jview_fields(s)[i] == (s[i].0@, jview(s[i].1)));
        } else {
            assert(s.push((k, x))[i] == (k, x));
        }
    }
    assert(lhs =~= rhs);
}


/// Decimal digit characters.
pub open spec fn digit_char(d: int) -> char {
    if d == 0 { '0' } else if d == 1 { '1' } else if d == 2 { '2' } else if d == 3 { '3' }
    else if d == 4 { '4' } else if d == 5 { '5' } else if d == 6 { '6' } else if d == 7 { '7' }
    else if d == 8 { '8' } else { '9' }
}

/// Lower-case hexadecimal digit characters.
pub open spec fn hex_char(d: int) -> char {
    if d < 10 { digit_char(d) }
    else if d == 10 { 'a' } else if d == 11 { 'b' } else if d == 12 { 'c' }
    else if d == 13 { 'd' } else if d == 14 { 'e' } else { 'f' }
}

/// Decimal rendering of a non-negative integer, no leading zeros.
pub open spec fn dec_digits(n: int) -> Seq<char>
    decreases n,
{
    if n < 10 {
        seq![digit_char(n)]
    } else {
        dec_digits(n / 10).push(digit_char(n % 10))
    }
}

/// Decimal rendering of an integer, `-` first when negative.
pub open spec fn int_dec(i: int) -> Seq<char> {
    if i < 0 {
        seq!['-'] + dec_digits(-i)
    } else {
        dec_digits(i)
    }
}

/// How one character appears inside a JSON string: quote and backslash are
/// escaped, control characters use their short escapes or `\u00XX`, and
/// everything else stands as itself.
pub open spec fn escape_char(c: char) -> Seq<char> {
    if c == '"' { seq!['\\', '"'] }
    else if c == '\\' { seq!['\\', '\\'] }
    else if c == '\u{8}' { seq!['\\', 'b'] }
    else if c == '\t' { seq!['\\', 't'] }
    else if c == '\n' { seq!['\\', 'n'] }
    else if c == '\u{c}' { seq!['\\', 'f'] }
    else if c == '\r' { seq!['\\', 'r'] }
    else if (c as u32) < 0x20 {
        seq!['\\', 'u', '0', '0', hex_char((c as u32) as int / 16), hex_char((c as u32) as int % 16)]
    } else {
        seq![c]
    }
}

pub open spec fn escape_str(s: Seq<char>) -> Seq<char>
    decreases s.len(),
{
    if s.len() == 0 {
        Seq::empty()
    } else {
        escape_str(s.drop_last()) + escape_char(s.last())
    }
}

/// The document printed compactly: no added white space, object members in
/// order.  A number that was not an integer prints as `null` (the codec
/// never produces one).
pub open spec fn print_json(v: JsonV) -> Seq<char>
    decreases v,
{
    match v {
        JsonV::Null => seq!['n', 'u', 'l', 'l'],
        JsonV::Bool(b) => if b {
            seq!['t', 'r', 'u', 'e']
        } else {
            seq!['f', 'a', 'l', 's', 'e']
        },
        JsonV::Int(i) => int_dec(i as int),
        JsonV::NumOther => seq!['n', 'u', 'l', 'l'],
        JsonV::Str(s) => seq!['"'] + escape_str(s) + seq!['"'],
        JsonV::Arr(items) => seq!['['] + print_items(items) + seq![']'],
        JsonV::Obj(fields) => seq!['{'] + print_members(fields) + seq!['}'],
    }
}

pub open spec fn print_items(s: Seq<JsonV>) -> Seq<char>
    decreases s,
{
    if s.len() == 0 {
        Seq::empty()
    } else if s.len() == 1 {
        print_json(s[0])
    } else {
        print_items(s.drop_last()) + seq![','] + print_json(s.last())
    }
}

pub open spec fn print_member(kv: (Seq<char>, JsonV)) -> Seq<char> {
    seq!['"'] + escape_str(kv.0) + seq!['"', ':'] + print_json(kv.1)
}

pub open spec fn print_members(s: Seq<(Seq<char>, JsonV)>) -> Seq<char>
    decreases s,
{
    if s.len() == 0 {
        Seq::empty()
    } else if s.len() == 1 {
        seq!['"'] + escape_str(s[0].0) + seq!['"', ':'] + print_json(s[0].1)
    } else {
        print_members(s.drop_last()) + seq![','] + (seq!['"'] + escape_str(s.last().0) + seq![
            '"',
            ':',
        ] + print_json(s.last().1))
    }
}

fn digit_char_exec(d: u64) -> (r: char)
    requires
        d < 10,
    ensures
        r == digit_char(d as int),
{
    if d == 0 { '0' } else if d == 1 { '1' } else if d == 2 { '2' } else if d == 3 { '3' }
    else if d == 4 { '4' } else if d == 5 { '5' } else if d == 6 { '6' } else if d == 7 { '7' }
    else if d == 8 { '8' } else { '9' }
}

fn hex_char_exec(d: u32) -> (r: char)
    requires
        d < 16,
    ensures
        r == hex_char(d as int),
{
    if d < 10 {
        digit_char_exec(d as u64)
    } else if d == 10 { 'a' } else if d == 11 { 'b' } else if d == 12 { 'c' }
    else if d == 13 { 'd' } else if d == 14 { 'e' } else { 'f' }
}

fn write_u64_dec(m: u64, out: &mut Vec<char>)
    ensures
        final(out)@ == old(out)@ + dec_digits(m as int),
    decreases m,
{
    if m < 10 {
        out.push(digit_char_exec(m));
        assert(final(out)@ =~= old(out)@ + dec_digits(m as int));
    } else {
        write_u64_dec(m / 10, out);
        out.push(digit_char_exec(m % 10));
        assert(final(out)@ =~= old(out)@ + dec_digits(m as int));
    }
}

fn write_i64_dec(i: i64, out: &mut Vec<char>)
    ensures
        final(out)@ == old(out)@ + int_dec(i as int),
{
    if i < 0 {
        out.push('-');
        let m: u64 = ((-(i + 1)) as u64) + 1;
        assert(m == -(i as int));
        let ghost mid = out@;
        write_u64_dec(m, out);
        assert(final(out)@ =~= old(out)@ + int_dec(i as int));
    } else {
        write_u64_dec(i as u64, out);
    }
}

fn write_escaped(s: &Vec<char>, out: &mut Vec<char>)
    ensures
        final(out)@ == old(out)@ + escape_str(s@),
{
    let n = s.len();
    let mut i: usize = 0;
    proof {
        assert(escape_str(s@.take(0)) =~= Seq::<char>::empty());
        assert(out@ =~= out@ + escape_str(s@.take(0)));
    }
    while i < n
        invariant
            n == s.len(),
            0 <= i <= n,
            out@ == old(out)@ + escape_str(s@.take(i as int)),
        decreases n - i,
    {
        let ghost pre = out@;
        let c = s[i];
        if c == '"' {
            out.push('\\');
            out.push('"');
        } else if c == '\\' {
            out.push('\\');
            out.push('\\');
        } else if c == '\u{8}' {
            out.push('\\');
            out.push('b');
        } else if c == '\t' {
            out.push('\\');
            out.push('t');
        } else if c == '\n' {
            out.push('\\');
            out.push('n');
        } else if c == '\u{c}' {
            out.push('\\');
            out.push('f');
        } else if c == '\r' {
            out.push('\\');
            out.push('r');
        } else if (c as u32) < 0x20 {
            out.push('\\');
            out.push('u');
            out.push('0');
            out.push('0');
            out.push(hex_char_exec((c as u32) / 16));
            out.push(hex_char_exec((c as u32) % 16));
        } else {
            out.push(c);
        }
        proof {
            assert(out@ =~= pre + escape_char(c));
            assert(s@.take(i + 1).drop_last() =~= s@.take(i as int));
            assert(s@.take(i + 1).last() == c);
            assert(out@ =~= old(out)@ + escape_str(s@.take(i + 1)));
        }
        i = i + 1;
    }
    proof {
        assert(s@.take(n as int) =~= s@);
    }
}

fn write_json(j: &Json, out: &mut Vec<char>)
    ensures
        final(out)@ == old(out)@ + print_json(jview(*j)),
    decreases *j,
{
    match j {
        Json::Null => {
            out.push('n');
            out.push('u');
            out.push('l');
            out.push('l');
            assert(final(out)@ =~= old(out)@ + print_json(jview(*j)));
        },
        Json::Bool(b) => {
            if *b {
                out.push('t');
                out.push('r');
                out.push('u');
                out.push('e');
            } else {
                out.push('f');
                out.push('a');
                out.push('l');
                out.push('s');
                out.push('e');
            }
            assert(final(out)@ =~= old(out)@ + print_json(jview(*j)));
        },
        Json::Int(i) => {
            write_i64_dec(*i, out);
        },
        Json::NumOther => {
            out.push('n');
            out.push('u');
            out.push('l');
            out.push('l');
            assert(final(out)@ =~= old(out)@ + print_json(jview(*j)));
        },
        Json::Str(s) => {
            out.push('"');
            write_escaped(s, out);
            out.push('"');
            assert(final(out)@ =~= old(out)@ + print_json(jview(*j)));
        },
        Json::Arr(items) => {
            out.push('[');
            write_items(items, out);
            out.push(']');
            assert(final(out)@ =~= old(out)@ + print_json(jview(*j)));
        },
        Json::Obj(fields) => {
            out.push('{');
            write_members(fields, out);
            out.push('}');
            assert(final(out)@ =~= old(out)@ + print_json(jview(*j)));
        },
    }
}

fn write_items(items: &Vec<Json>, out: &mut Vec<char>)
    ensures
        final(out)@ == old(out)@ + print_items(jview_seq(items@)),
    decreases items@,
{
    let ghost vs = jview_seq(items@);
    proof {
        lemma_jview_seq_props(items@);
    }
    let n = items.len();
    let mut i: usize = 0;
    proof {
        assert(out@ =~= out@ + print_items(vs.take(0)));
    }
    while i < n
        invariant
            n == items.len(),
            vs == jview_seq(items@),
            vs.len() == n,
            forall|k: int| 0 <= k < n ==> vs[k] == jview(#[trigger] items@[k]),
            0 <= i <= n,
            out@ == old(out)@ + print_items(vs.take(i as int)),
        decreases n - i,
    {
        let ghost pre = out@;
        if i > 0 {
            out.push(',');
        }
        write_json(&items[i], out);
        proof {
            assert(vs.take(i + 1).drop_last() =~= vs.take(i as int));
            assert(vs.take(i + 1).last() == vs[i as int]);
            if i == 0 {
                assert(print_items(vs.take(1)) == print_json(vs[0]));
                assert(out@ =~= old(out)@ + print_items(vs.take(i + 1)));
            } else {
                assert(out@ =~= old(out)@ + print_items(vs.take(i + 1)));
            }
        }
        i = i + 1;
    }
    proof {
        assert(vs.take(n as int) =~= vs);
    }
}

fn write_members(fields: &Vec<(Vec<char>, Json)>, out: &mut Vec<char>)
    ensures
        final(out)@ == old(out)@ + print_members(jview_fields(fields@)),
    decreases fields@,
{
    let ghost vs = jview_fields(fields@);
    proof {
        lemma_jview_fields_props(fields@);
    }
    let n = fields.len();
    let mut i: usize = 0;
    proof {
        assert(out@ =~= out@ + print_members(vs.take(0)));
    }
    while i < n
        invariant
            n == fields.len(),
            vs == jview_fields(fields@),
            vs.len() == n,
            forall|k: int|
                0 <= k < n ==> vs[k] == ((#[trigger] fields@[k]).0@, jview(fields@[k].1)),
            0 <= i <= n,
            out@ == old(out)@ + print_members(vs.take(i as int)),
        decreases n - i,
    {
        let ghost pre = out@;
        if i > 0 {
            out.push(',');
        }
        out.push('"');
        write_escaped(&fields[i].0, out);
        out.push('"');
        out.push(':');
        write_json(&fields[i].1, out);
        proof {
            assert(vs.take(i + 1).drop_last() =~= vs.take(i as int));
            assert(vs.take(i + 1).last() == vs[i as int]);
            if i == 0 {
                assert(out@ =~= old(out)@ + print_members(vs.take(i + 1)));
            } else {
                assert(out@ =~= old(out)@ + print_members(vs.take(i + 1)));
            }
        }
        i = i + 1;
    }
    proof {
        assert(vs.take(n as int) =~= vs);
    }
}

impl Json {
    /// The document printed compactly, exactly as [`print_json`] lays it
    /// out.
    pub fn print(&self) -> (r: Vec<char>)
        ensures
            r@ == print_json(jview(*self)),
    {
        let mut out: Vec<char> = Vec::new();
        write_json(self, &mut out);
        assert(out@ =~= print_json(jview(*self)));
        out
    }
}


/// JSON inter-token white space.
pub open spec fn json_ws(c: char) -> bool {
    c == ' ' || c == '\t' || c == '\n' || c == '\r'
}

fn json_ws_exec(c: char) -> (r: bool)
    ensures
        r == json_ws(c),
{
    c == ' ' || c == '\t' || c == '\n' || c == '\r'
}

fn skip_ws(s: &Vec<char>, pos: usize) -> (r: usize)
    requires
        pos <= s@.len(),
    ensures
        pos <= r <= s@.len(),
        r == sp_skip_ws(s@, pos as int),
{
    let n = s.len();
    let mut p = pos;
    while p < n && json_ws_exec(s[p])
        invariant
            n == s@.len(),
            pos <= p <= n,
            sp_skip_ws(s@, pos as int) == sp_skip_ws(s@, p as int),
        decreases n - p,
    {
        p = p + 1;
    }
    p
}

fn hex_digit_val(c: char) -> (r: Option<u32>)
    ensures
        r matches Some(v) ==> v < 16,
        r == sp_hex_val(c),
{
    let x = c as u32;
    if 0x30 <= x && x <= 0x39 {
        Some(x - 0x30)
    } else if 0x61 <= x && x <= 0x66 {
        Some(x - 0x61 + 10)
    } else if 0x41 <= x && x <= 0x46 {
        Some(x - 0x41 + 10)
    } else {
        None
    }
}

/// Four hex digits starting at `pos`.
fn parse_hex4(s: &Vec<char>, pos: usize) -> (r: Option<(u32, usize)>)
    requires
        pos <= s@.len(),
    ensures
        r matches Some((v, p)) ==> p == pos + 4 && pos + 4 <= s@.len() && v < 0x10000,
        match r {
            Some((v, p)) => sp_hex4(s@, pos as int) == Some((v, p as int)),
            None => sp_hex4(s@, pos as int) is None,
        },
{
    if s.len() - pos < 4 {
        return None;
    }
    let d0 = match hex_digit_val(s[pos]) {
        Some(d) => d,
        None => {
            return None;
        },
    };
    let d1 = match hex_digit_val(s[pos + 1]) {
        Some(d) => d,
        None => {
            return None;
        },
    };
    let d2 = match hex_digit_val(s[pos + 2]) {
        Some(d) => d,
        None => {
            return None;
        },
    };
    let d3 = match hex_digit_val(s[pos + 3]) {
        Some(d) => d,
        None => {
            return None;
        },
    };
    Some((((d0 * 16 + d1) * 16 + d2) * 16 + d3, pos + 4))
}

/// A JSON string body, after the opening quote: the decoded characters and
/// the position after the closing quote.  Escapes are decoded, surrogate
/// pairs combined; raw control characters and malformed escapes fail.
fn parse_string_body(s: &Vec<char>, pos: usize) -> (r: Option<(Vec<char>, usize)>)
    requires
        pos <= s@.len(),
    ensures
        r matches Some((_, p)) ==> pos < p <= s@.len(),
        match r {
            Some((cs, p)) => sp_string_body(s@, pos as int, Seq::empty()) == Some(
                (cs@, p as int),
            ),
            None => sp_string_body(s@, pos as int, Seq::empty()) is None,
        },
    decreases s@.len() - pos,
{
    let n = s.len();
    let mut out: Vec<char> = Vec::new();
    let mut p = pos;
    proof {
        assert(out@ =~= Seq::<char>::empty());
    }
    while p < n
        invariant
            n == s@.len(),
            pos <= p <= n,
            sp_string_body(s@, pos as int, Seq::empty()) == sp_string_body(s@, p as int, out@),
        decreases n - p,
    {
        let c = s[p];
        if c == '"' {
            return Some((out, p + 1));
        } else if c == '\\' {
            if n - p < 2 {
                return None;
            }
            let e = s[p + 1];
            if e == '"' || e == '\\' || e == '/' {
                out.push(e);
                p = p + 2;
            } else if e == 'b' {
                out.push('\u{8}');
                p = p + 2;
            } else if e == 'f' {
                out.push('\u{c}');
                p = p + 2;
            } else if e == 'n' {
                out.push('\n');
                p = p + 2;
            } else if e == 'r' {
                out.push('\r');
                p = p + 2;
            } else if e == 't' {
                out.push('\t');
                p = p + 2;
            } else if e == 'u' {
                let (hi, p2) = match parse_hex4(s, p + 2) {
                    Some(x) => x,
                    None => {
                        return None;
                    },
                };
                if 0xD800 <= hi && hi < 0xDC00 {
                    // a high surrogate must be followed by an escaped low one
                    if n - p2 < 2 || s[p2] != '\\' || s[p2 + 1] != 'u' {
                        return None;
                    }
                    let (lo, p3) = match parse_hex4(s, p2 + 2) {
                        Some(x) => x,
                        None => {
                            return None;
                        },
                    };
                    if !(0xDC00 <= lo && lo < 0xE000) {
                        return None;
                    }
                    let code: u32 = 0x10000 + (hi - 0xD800) * 0x400 + (lo - 0xDC00);
                    match char_from_u32(code) {
                        Some(ch) => {
                            proof {
                                vstd::utf8::char_u32_cast(ch, code);
                            }
                            out.push(ch);
                            p = p3;
                        },
                        None => {
                            // the code is in the supplementary range, so a
                            // character always exists for it
                            assert(false);
                            return None;
                        },
                    }
                } else {
                    match char_from_u32(hi) {
                        Some(ch) => {
                            proof {
                                vstd::utf8::char_u32_cast(ch, hi);
                            }
                            out.push(ch);
                            p = p2;
                        },
                        None => {
                            proof {
                                assert(0xDC00 <= hi && hi < 0xE000);
                            }
                            return None;
                        },
                    }
                }
            } else {
                return None;
            }
        } else if (c as u32) < 0x20 {
            return None;
        } else {
            out.push(c);
            p = p + 1;
        }
    }
    None
}

fn is_dec_digit(c: char) -> (r: bool)
    ensures
        r == (0x30 <= c as u32 && c as u32 <= 0x39),
{
    0x30 <= c as u32 && c as u32 <= 0x39
}

/// A JSON number.  Integers in the `i64` range come back as [`Json::Int`];
/// any other well-formed number (fraction, exponent, out of range) comes
/// back as [`Json::NumOther`].
#[verifier::loop_isolation(false)]
#[verifier::rlimit(100)]
fn parse_number(s: &Vec<char>, pos: usize) -> (r: Option<(Json, usize)>)
    requires
        pos < s@.len(),
    ensures
        r matches Some((_, p)) ==> pos < p <= s@.len(),
        match r {
            Some((j, p)) => sp_number(s@, pos as int) == Some((jview(j), p as int)),
            None => sp_number(s@, pos as int) is None,
        },
{
    let n = s.len();
    let mut p = pos;
    let neg = s[p] == '-';
    if neg {
        p = p + 1;
    }
    let ghost d0 = p as int;
    if p >= n || !is_dec_digit(s[p]) {
        return None;
    }
    let ghost dend = sp_scan_digits(s@, d0);
    let first_digit_zero = s[p] == '0';
    let mut mag: u64 = (s[p] as u32 - 0x30) as u64;
    let mut big = false;
    let mut more_digits = false;
    proof {
        assert(s@.subrange(d0, d0 + 1).drop_last() =~= Seq::<char>::empty());
        assert(s@.subrange(d0, d0 + 1).last() == s@[d0]);
        assert(digits_val(Seq::<char>::empty()) == 0);
        assert(digits_val(s@.subrange(d0, d0 + 1)) == digit_val(s@[d0]));
        assert(mag == digits_val(s@.subrange(d0, d0 + 1)));
    }
    p = p + 1;
    while p < n && is_dec_digit(s[p])
        invariant
            d0 < p <= n,
            more_digits == (p > d0 + 1),
            sp_scan_digits(s@, p as int) == dend,
            !big ==> mag == digits_val(s@.subrange(d0, p as int)),
            big ==> digits_val(s@.subrange(d0, p as int)) > 0x8000_0000_0000_0000,
        decreases n - p,
    {
        let d: u64 = (s[p] as u32 - 0x30) as u64;
        let ghost prev = s@.subrange(d0, p as int);
        let ghost cur = s@.subrange(d0, p + 1);
        proof {
            assert(cur.drop_last() =~= prev);
            assert(cur.last() == s@[p as int]);
            assert(digits_val(cur) == digits_val(prev) * 10 + d);
        }
        if mag > 0x1999_9999_9999_9998 {
            // another digit cannot fit in 64 bits
            proof {
                if !big {
                    assert(digits_val(cur) > 0x8000_0000_0000_0000) by (nonlinear_arith)
                        requires
                            digits_val(cur) == digits_val(prev) * 10 + d,
                            digits_val(prev) >= 0x1999_9999_9999_9999,
                            d >= 0,
                    ;
                } else {
                    assert(digits_val(cur) > 0x8000_0000_0000_0000) by (nonlinear_arith)
                        requires
                            digits_val(cur) == digits_val(prev) * 10 + d,
                            digits_val(prev) > 0x8000_0000_0000_0000,
                            d >= 0,
                    ;
                }
            }
            big = true;
        } else {
            proof {
                if big {
                    assert(digits_val(cur) > 0x8000_0000_0000_0000) by (nonlinear_arith)
                        requires
                            digits_val(cur) == digits_val(prev) * 10 + d,
                            digits_val(prev) > 0x8000_0000_0000_0000,
                            d >= 0,
                    ;
                }
            }
            let next = mag * 10;
            assert(next <= 0xFFFF_FFFF_FFFF_FFF0) by (nonlinear_arith)
                requires
                    mag <= 0x1999_9999_9999_9998,
                    next == mag * 10,
            ;
            mag = next + d;
        }
        more_digits = true;
        p = p + 1;
    }
    proof {
        assert(sp_scan_digits(s@, p as int) == p as int);
        assert(p == dend);
    }
    if first_digit_zero && more_digits {
        // leading zeros are not JSON
        return None;
    }
    let mut other = big;
    let ghost intpart = s@.subrange(d0, dend);
    if p < n && s[p] == '.' {
        p = p + 1;
        if p >= n || !is_dec_digit(s[p]) {
            return None;
        }
        while p < n && is_dec_digit(s[p])
            invariant
                dend < p <= n,
                sp_scan_digits(s@, p as int) == sp_scan_digits(s@, dend + 1),
            decreases n - p,
        {
            p = p + 1;
        }
        proof {
            assert(sp_scan_digits(s@, p as int) == p as int);
        }
        other = true;
    }
    let ghost p_after_frac = p as int;
    if p < n && (s[p] == 'e' || s[p] == 'E') {
        p = p + 1;
        if p < n && (s[p] == '+' || s[p] == '-') {
            p = p + 1;
        }
        let ghost q = p as int;
        if p >= n || !is_dec_digit(s[p]) {
            return None;
        }
        while p < n && is_dec_digit(s[p])
            invariant
                q <= p <= n,
                sp_scan_digits(s@, p as int) == sp_scan_digits(s@, q),
            decreases n - p,
        {
            p = p + 1;
        }
        proof {
            assert(sp_scan_digits(s@, p as int) == p as int);
        }
        other = true;
    }
    if other {
        return Some((Json::NumOther, p));
    }
    if neg {
        if mag > 0x8000_0000_0000_0000 {
            return Some((Json::NumOther, p));
        }
        if mag == 0x8000_0000_0000_0000 {
            return Some((Json::Int(i64::MIN), p));
        }
        return Some((Json::Int(-(mag as i64)), p));
    }
    if mag > 0x7FFF_FFFF_FFFF_FFFF {
        return Some((Json::NumOther, p));
    }
    Some((Json::Int(mag as i64), p))
}

/// Matches the exact characters of `word` at `pos`.
fn match_lit(s: &Vec<char>, pos: usize, a: char, b: char, c: char) -> (r: Option<usize>)
    requires
        pos <= s@.len(),
    ensures
        r matches Some(p) ==> pos < p <= s@.len(),
        match r {
            Some(p) => p == pos + 3 && s@.len() - pos >= 3 && s@[pos as int] == a && s@[pos + 1]
                == b && s@[pos + 2] == c,
            None => !(s@.len() - pos >= 3 && s@[pos as int] == a && s@[pos + 1] == b && s@[pos
                + 2] == c),
        },
{
    if s.len() - pos >= 3 && s[pos] == a && s[pos + 1] == b && s[pos + 2] == c {
        Some(pos + 3)
    } else {
        None
    }
}

/// One JSON value, leading white space allowed.  On success the returned
/// position sits right after the value.
pub fn parse_value(s: &Vec<char>, pos: usize) -> (r: Option<(Json, usize)>)
    requires
        pos <= s@.len(),
    ensures
        r matches Some((_, p)) ==> pos < p <= s@.len(),
        r matches Some((_, p)) ==> sp_skip_ws(s@, pos as int) < p,
        match r {
            Some((j, p)) => sp_value(s@, pos as int) == Some((jview(j), p as int)),
            None => sp_value(s@, pos as int) is None,
        },
    decreases s@.len() - pos, 0int,
{
    let n = s.len();
    let p = skip_ws(s, pos);
    proof {
        assert(sp_value(s@, pos as int) == sp_value_at(s@, p as int));
    }
    if p >= n {
        return None;
    }
    let c = s[p];
    if c == 'n' {
        match match_lit(s, p + 1, 'u', 'l', 'l') {
            Some(p2) => Some((Json::Null, p2)),
            None => None,
        }
    } else if c == 't' {
        match match_lit(s, p + 1, 'r', 'u', 'e') {
            Some(p2) => Some((Json::Bool(true), p2)),
            None => None,
        }
    } else if c == 'f' {
        if n - p >= 5 && s[p + 1] == 'a' && s[p + 2] == 'l' && s[p + 3] == 's' && s[p + 4]
            == 'e' {
            Some((Json::Bool(false), p + 5))
        } else {
            None
        }
    } else if c == '"' {
        match parse_string_body(s, p + 1) {
            Some((content, p2)) => Some((Json::Str(content), p2)),
            None => None,
        }
    } else if c == '-' || is_dec_digit(c) {
        parse_number(s, p)
    } else if c == '[' {
        match parse_array_items(s, p + 1) {
            Some((items, p2)) => Some((Json::Arr(items), p2)),
            None => None,
        }
    } else if c == '{' {
        match parse_object_members(s, p + 1) {
            Some((fields, p2)) => Some((Json::Obj(fields), p2)),
            None => None,
        }
    } else {
        None
    }
}

/// Array items after the opening bracket, up to and past the closing one.
#[verifier::loop_isolation(false)]
fn parse_array_items(s: &Vec<char>, pos: usize) -> (r: Option<(Vec<Json>, usize)>)
    requires
        pos <= s@.len(),
    ensures
        r matches Some((_, p)) ==> pos <= p <= s@.len(),
        match r {
            Some((items, p)) => sp_arr_from(s@, pos as int) == Some(
                (jview_seq(items@), p as int),
            ),
            None => sp_arr_from(s@, pos as int) is None,
        },
    decreases s@.len() - pos, 1int,
{
    let n = s.len();
    let mut items: Vec<Json> = Vec::new();
    let mut p = skip_ws(s, pos);
    if p < n && s[p] == ']' {
        proof {
            assert(jview_seq(items@) =~= Seq::<JsonV>::empty());
        }
        return Some((items, p + 1));
    }
    proof {
        assert(jview_seq(items@) =~= Seq::<JsonV>::empty());
        assert(sp_arr_from(s@, pos as int) == sp_arr_items(s@, p as int, jview_seq(items@)));
    }
    loop
        invariant
            pos <= p <= n,
            sp_arr_from(s@, pos as int) == sp_arr_items(s@, p as int, jview_seq(items@)),
        decreases n - p,
    {
        let ghost accv = jview_seq(items@);
        proof {
            lemma_sp_skip_ws_bounds(s@, p as int);
            assert(sp_value(s@, p as int) == sp_value_at(
                s@,
                pin(sp_skip_ws(s@, p as int), p as int, s@.len() as int),
            ));
        }
        let (v, p2) = match parse_value(s, p) {
            Some(x) => x,
            None => {
                proof {
                    assert(sp_arr_items(s@, p as int, accv) is None);
                }
                return None;
            },
        };
        let ghost pre = items@;
        items.push(v);
        proof {
            lemma_jview_seq_push(pre, v);
            assert(jview_seq(items@) == accv.push(jview(v)));
            lemma_sp_skip_ws_bounds(s@, p2 as int);
        }
        let p3 = skip_ws(s, p2);
        proof {
            assert(pin(p2 as int, p + 1, s@.len() as int) == p2 as int);
            assert(pin(sp_skip_ws(s@, p2 as int), p2 as int, s@.len() as int) == p3 as int);
        }
        if p3 < n && s[p3] == ',' {
            proof {
                assert(sp_arr_items(s@, p as int, accv) == sp_arr_items(
                    s@,
                    p3 + 1,
                    accv.push(jview(v)),
                ));
            }
            p = p3 + 1;
        } else if p3 < n && s[p3] == ']' {
            proof {
                assert(sp_arr_items(s@, p as int, accv) == Some(
                    (accv.push(jview(v)), p3 + 1),
                ));
            }
            return Some((items, p3 + 1));
        } else {
            proof {
                assert(sp_arr_items(s@, p as int, accv) is None);
            }
            return None;
        }
    }
}

/// Object members after the opening brace, up to and past the closing one.
#[verifier::loop_isolation(false)]
fn parse_object_members(s: &Vec<char>, pos: usize) -> (r: Option<(Vec<(Vec<char>, Json)>, usize)>)
    requires
        pos <= s@.len(),
    ensures
        r matches Some((_, p)) ==> pos <= p <= s@.len(),
        match r {
            Some((fields, p)) => sp_obj_from(s@, pos as int) == Some(
                (jview_fields(fields@), p as int),
            ),
            None => sp_obj_from(s@, pos as int) is None,
        },
    decreases s@.len() - pos, 1int,
{
    let n = s.len();
    let mut fields: Vec<(Vec<char>, Json)> = Vec::new();
    let mut p = skip_ws(s, pos);
    if p < n && s[p] == '}' {
        proof {
            assert(jview_fields(fields@) =~= Seq::<(Seq<char>, JsonV)>::empty());
        }
        return Some((fields, p + 1));
    }
    proof {
        assert(jview_fields(fields@) =~= Seq::<(Seq<char>, JsonV)>::empty());
        assert(sp_obj_from(s@, pos as int) == sp_obj_members(
            s@,
            p as int,
            jview_fields(fields@),
        ));
    }
    loop
        invariant
            pos <= p <= n,
            sp_obj_from(s@, pos as int) == sp_obj_members(s@, p as int, jview_fields(fields@)),
        decreases n - p,
    {
        let ghost accv = jview_fields(fields@);
        proof {
            lemma_sp_skip_ws_bounds(s@, p as int);
        }
        let pk = skip_ws(s, p);
        proof {
            assert(pin(sp_skip_ws(s@, p as int), p as int, s@.len() as int) == pk as int);
        }
        if pk >= n || s[pk] != '"' {
            proof {
                assert(sp_obj_members(s@, p as int, accv) is None);
            }
            return None;
        }
        let (key, p2) = match parse_string_body(s, pk + 1) {
            Some(x) => x,
            None => {
                proof {
                    assert(sp_obj_members(s@, p as int, accv) is None);
                }
                return None;
            },
        };
        proof {
            assert(pin(p2 as int, pk + 2, s@.len() as int) == p2 as int);
            lemma_sp_skip_ws_bounds(s@, p2 as int);
        }
        let p3 = skip_ws(s, p2);
        proof {
            assert(pin(sp_skip_ws(s@, p2 as int), p2 as int, s@.len() as int) == p3 as int);
        }
        if p3 >= n || s[p3] != ':' {
            proof {
                assert(sp_obj_members(s@, p as int, accv) is None);
            }
            return None;
        }
        proof {
            lemma_sp_skip_ws_bounds(s@, p3 + 1);
            assert(sp_value(s@, p3 + 1) == sp_value_at(
                s@,
                pin(sp_skip_ws(s@, p3 + 1), p3 + 1, s@.len() as int),
            ));
        }
        let (v, p4) = match parse_value(s, p3 + 1) {
            Some(x) => x,
            None => {
                proof {
                    assert(sp_obj_members(s@, p as int, accv) is None);
                }
                return None;
            },
        };
        let ghost qv = pin(sp_skip_ws(s@, p3 + 1), p3 + 1, s@.len() as int);
        proof {
            assert(pin(p4 as int, qv + 1, s@.len() as int) == p4 as int);
            lemma_sp_skip_ws_bounds(s@, p4 as int);
        }
        let ghost pre = fields@;
        fields.push((key, v));
        proof {
            lemma_jview_fields_push(pre, key, v);
            assert(jview_fields(fields@) == accv.push((key@, jview(v))));
        }
        let p5 = skip_ws(s, p4);
        proof {
            assert(pin(sp_skip_ws(s@, p4 as int), p4 as int, s@.len() as int) == p5 as int);
        }
        if p5 < n && s[p5] == ',' {
            proof {
                assert(sp_obj_members(s@, p as int, accv) == sp_obj_members(
                    s@,
                    p5 + 1,
                    accv.push((key@, jview(v))),
                ));
            }
            p = p5 + 1;
        } else if p5 < n && s[p5] == '}' {
            proof {
                assert(sp_obj_members(s@, p as int, accv) == Some(
                    (accv.push((key@, jview(v))), p5 + 1),
                ));
            }
            return Some((fields, p5 + 1));
        } else {
            proof {
                assert(sp_obj_members(s@, p as int, accv) is None);
            }
            return None;
        }
    }
}

/// Parses a complete JSON document: one value with nothing but white space
/// around it; [`sp_parse_json`] says exactly which texts are accepted and
/// what they yield.
pub fn parse_json(text: &str) -> (r: Option<Json>)
    ensures
        match r {
            Some(j) => sp_parse_json(text@) == Some(jview(j)),
            None => sp_parse_json(text@) is None,
        },
{
    let s = chars_of(text);
    match parse_value(&s, 0) {
        Some((v, p)) => {
            let p2 = skip_ws(&s, p);
            if p2 == s.len() {
                Some(v)
            } else {
                None
            }
        },
        None => None,
    }
}

/// First binding of `key` among an object's members.  On documents with a
/// repeated key this differs from a map-backed reader, which would keep the
/// last binding; the codec never writes a repeated key.
pub open spec fn obj_lookup(fields: Seq<(Seq<char>, JsonV)>, key: Seq<char>) -> Option<JsonV>
    decreases fields.len(),
{
    if fields.len() == 0 {
        None
    } else if fields[0].0 == key {
        Some(fields[0].1)
    } else {
        obj_lookup(fields.subrange(1, fields.len() as int), key)
    }
}

pub open spec fn jlookup(v: JsonV, key: Seq<char>) -> Option<JsonV> {
    match v {
        JsonV::Obj(fields) => obj_lookup(fields, key),
        _ => None,
    }
}

pub proof fn lemma_obj_lookup_at(fields: Seq<(Seq<char>, JsonV)>, key: Seq<char>, i: int)
    requires
        0 <= i < fields.len(),
        fields[i].0 == key,
        forall|j: int| 0 <= j < i ==> (#[trigger] fields[j]).0 != key,
    ensures
        obj_lookup(fields, key) == Some(fields[i].1),
    decreases i,
{
    if i > 0 {
        let t = fields.subrange(1, fields.len() as int);
        assert(forall|j: int| 0 <= j < i - 1 ==> (#[trigger] t[j]) == fields[j + 1]);
        assert(t[i - 1] == fields[i]);
        lemma_obj_lookup_at(t, key, i - 1);
    }
}

pub proof fn lemma_obj_lookup_absent(fields: Seq<(Seq<char>, JsonV)>, key: Seq<char>)
    requires
        forall|j: int| 0 <= j < fields.len() ==> (#[trigger] fields[j]).0 != key,
    ensures
        obj_lookup(fields, key) is None,
    decreases fields.len(),
{
    if fields.len() > 0 {
        let t = fields.subrange(1, fields.len() as int);
        assert(forall|j: int| 0 <= j < t.len() ==> (#[trigger] t[j]) == fields[j + 1]);
        lemma_obj_lookup_absent(t, key);
    }
}


/// The member named `name` (first binding, as [`obj_lookup`] says), or
/// nothing when this is not an object or has no such member.
#[verifier::loop_isolation(false)]
pub fn json_get<'a>(j: &'a Json, name: &str) -> (r: Option<&'a Json>)
    ensures
        match r {
            Some(c) => jlookup(jview(*j), name@) == Some(jview(*c)),
            None => jlookup(jview(*j), name@) is None,
        },
{
    match j {
        Json::Obj(fields) => {
            let ghost fs = jview_fields(fields@);
            proof {
                lemma_jview_fields_props(fields@);
            }
            let n = fields.len();
            let mut i: usize = 0;
            while i < n
                invariant
                    n == fields.len(),
                    fs == jview_fields(fields@),
                    fs.len() == n,
                    forall|k: int|
                        0 <= k < n ==> #[trigger] fs[k] == (fields@[k].0@, jview(fields@[k].1)),
                    0 <= i <= n,
                    forall|k: int| 0 <= k < i ==> (#[trigger] fs[k]).0 != name@,
                decreases n - i,
            {
                if crate::text::str_eq_chars(name, &fields[i].0) {
                    proof {
                        assert(fs[i as int] == (fields@[i as int].0@, jview(
                            fields@[i as int].1,
                        )));
                        assert(fs[i as int].0 == name@);
                        lemma_obj_lookup_at(fs, name@, i as int);
                        assert(jview(*j) == JsonV::Obj(fs));
                        assert(fs[i as int].1 == jview(fields@[i as int].1));
                    }
                    return Some(&fields[i].1);
                }
                i = i + 1;
            }
            proof {
                lemma_obj_lookup_absent(fs, name@);
            }
            None
        },
        _ => None,
    }
}

impl Json {
    /// The integer reading of this value, when it is one.
    pub fn as_i64(&self) -> (r: Option<i64>)
        ensures
            r == (match jview(*self) {
                JsonV::Int(i) => Some(i),
                _ => None,
            }),
    {
        match self {
            Json::Int(i) => Some(*i),
            _ => None,
        }
    }

    /// The boolean reading of this value, when it is one.
    pub fn as_bool(&self) -> (r: Option<bool>)
        ensures
            r == (match jview(*self) {
                JsonV::Bool(b) => Some(b),
                _ => None,
            }),
    {
        match self {
            Json::Bool(b) => Some(*b),
            _ => None,
        }
    }

    pub fn is_null(&self) -> (r: bool)
        ensures
            r == (jview(*self) is Null),
    {
        match self {
            Json::Null => true,
            _ => false,
        }
    }

    /// The characters of this value, when it is a string.
    pub fn as_chars(&self) -> (r: Option<&Vec<char>>)
        ensures
            match r {
                Some(v) => jview(*self) == JsonV::Str(v@),
                None => !(jview(*self) is Str),
            },
    {
        match self {
            Json::Str(s) => Some(s),
            _ => None,
        }
    }

    /// The elements of this value, when it is an array.
    pub fn as_items(&self) -> (r: Option<&Vec<Json>>)
        ensures
            match r {
                Some(v) => jview(*self) == JsonV::Arr(jview_seq(v@)),
                None => !(jview(*self) is Arr),
            },
    {
        match self {
            Json::Arr(items) => Some(items),
            _ => None,
        }
    }
}


/// `p`, but never below `lo`: the parser's positions only move forward, and
/// phrasing that bound into the definitions keeps every recursion visibly
/// decreasing.  On the positions the functions actually produce the bound
/// never bites.
pub open spec fn fwd(p: int, lo: int) -> int {
    if p < lo {
        lo
    } else {
        p
    }
}

/// `p` pinned into `[lo, hi]`; as with [`fwd`], the parser's own positions
/// already sit in that range, so this only serves the termination measure.
pub open spec fn pin(p: int, lo: int, hi: int) -> int {
    if p < lo {
        lo
    } else if p > hi {
        hi
    } else {
        p
    }
}

/// First position at or after `pos` that does not hold JSON white space.
pub open spec fn sp_skip_ws(s: Seq<char>, pos: int) -> int
    decreases s.len() - pos,
{
    if pos < s.len() && json_ws(s[pos]) {
        sp_skip_ws(s, pos + 1)
    } else {
        pos
    }
}

pub open spec fn sp_hex_val(c: char) -> Option<u32> {
    let x = c as u32;
    if 0x30 <= x <= 0x39 {
        Some((x - 0x30) as u32)
    } else if 0x61 <= x <= 0x66 {
        Some((x - 0x61 + 10) as u32)
    } else if 0x41 <= x <= 0x46 {
        Some((x - 0x41 + 10) as u32)
    } else {
        None
    }
}

/// Four hex digits starting at `pos`, and the position after them.
pub open spec fn sp_hex4(s: Seq<char>, pos: int) -> Option<(u32, int)> {
    if s.len() - pos < 4 {
        None
    } else {
        match (sp_hex_val(s[pos]), sp_hex_val(s[pos + 1]), sp_hex_val(s[pos + 2]), sp_hex_val(
            s[pos + 3],
        )) {
            (Some(d0), Some(d1), Some(d2), Some(d3)) => Some(
                ((((d0 * 16 + d1) * 16 + d2) * 16 + d3) as u32, pos + 4),
            ),
            _ => None,
        }
    }
}

/// A string body from `pos` (just after the opening quote): the decoded
/// characters appended to `acc`, and the position after the closing quote.
/// Escapes decode, surrogate pairs combine; a raw control character, a lone
/// surrogate, a malformed escape or a missing closing quote refuses.
pub open spec fn sp_string_body(s: Seq<char>, pos: int, acc: Seq<char>) -> Option<
    (Seq<char>, int),
>
    decreases s.len() - pos,
{
    if pos >= s.len() {
        None
    } else {
        let c = s[pos];
        if c == '"' {
            Some((acc, pos + 1))
        } else if c == '\\' {
            if s.len() - pos < 2 {
                None
            } else {
                let e = s[pos + 1];
                if e == '"' || e == '\\' || e == '/' {
                    sp_string_body(s, pos + 2, acc.push(e))
                } else if e == 'b' {
                    sp_string_body(s, pos + 2, acc.push('\u{8}'))
                } else if e == 'f' {
                    sp_string_body(s, pos + 2, acc.push('\u{c}'))
                } else if e == 'n' {
                    sp_string_body(s, pos + 2, acc.push('\n'))
                } else if e == 'r' {
                    sp_string_body(s, pos + 2, acc.push('\r'))
                } else if e == 't' {
                    sp_string_body(s, pos + 2, acc.push('\t'))
                } else if e == 'u' {
                    match sp_hex4(s, pos + 2) {
                        Some((hi, p2)) => if 0xD800 <= hi < 0xDC00 {
                            if s.len() - p2 < 2 || s[p2] != '\\' || s[p2 + 1] != 'u' {
                                None
                            } else {
                                match sp_hex4(s, p2 + 2) {
                                    Some((lo, p3)) => if 0xDC00 <= lo < 0xE000 {
                                        let code = 0x10000 + (hi - 0xD800) * 0x400 + (lo
                                            - 0xDC00);
                                        sp_string_body(s, p3, acc.push((code as u32) as char))
                                    } else {
                                        None
                                    },
                                    None => None,
                                }
                            }
                        } else if 0xDC00 <= hi < 0xE000 {
                            None
                        } else {
                            sp_string_body(s, p2, acc.push(hi as char))
                        },
                        None => None,
                    }
                } else {
                    None
                }
            }
        } else if (c as u32) < 0x20 {
            None
        } else {
            sp_string_body(s, pos + 1, acc.push(c))
        }
    }
}

/// End of the run of decimal digits starting at `pos`.
pub open spec fn sp_scan_digits(s: Seq<char>, pos: int) -> int
    decreases s.len() - pos,
{
    if pos < s.len() && is_digit(s[pos]) {
        sp_scan_digits(s, pos + 1)
    } else {
        pos
    }
}

/// The value phase of a number: `NumOther` when a fraction or exponent was
/// seen, else the integer value of the digit run when it fits in `i64`.
pub open spec fn sp_number_value(
    s: Seq<char>,
    pend: int,
    other: bool,
    neg: bool,
    d0: int,
    dend: int,
) -> Option<(JsonV, int)> {
    if other {
        Some((JsonV::NumOther, pend))
    } else {
        let m = digits_val(s.subrange(d0, dend));
        if neg {
            if m > 0x8000_0000_0000_0000 {
                Some((JsonV::NumOther, pend))
            } else if m == 0x8000_0000_0000_0000 {
                Some((JsonV::Int(i64::MIN), pend))
            } else {
                Some((JsonV::Int((-m) as i64), pend))
            }
        } else {
            if m > 0x7FFF_FFFF_FFFF_FFFF {
                Some((JsonV::NumOther, pend))
            } else {
                Some((JsonV::Int(m as i64), pend))
            }
        }
    }
}

/// The optional exponent after position `p`.
pub open spec fn sp_number_exp(
    s: Seq<char>,
    p: int,
    other: bool,
    neg: bool,
    d0: int,
    dend: int,
) -> Option<(JsonV, int)> {
    if p < s.len() && (s[p] == 'e' || s[p] == 'E') {
        let q = if p + 1 < s.len() && (s[p + 1] == '+' || s[p + 1] == '-') {
            p + 2
        } else {
            p + 1
        };
        if !(q < s.len() && is_digit(s[q])) {
            None
        } else {
            sp_number_value(s, sp_scan_digits(s, q), true, neg, d0, dend)
        }
    } else {
        sp_number_value(s, p, other, neg, d0, dend)
    }
}

/// The optional fraction after the integer digits.
pub open spec fn sp_number_frac(
    s: Seq<char>,
    neg: bool,
    d0: int,
    dend: int,
) -> Option<(JsonV, int)> {
    if dend < s.len() && s[dend] == '.' {
        if !(dend + 1 < s.len() && is_digit(s[dend + 1])) {
            None
        } else {
            sp_number_exp(s, sp_scan_digits(s, dend + 1), true, neg, d0, dend)
        }
    } else {
        sp_number_exp(s, dend, false, neg, d0, dend)
    }
}

/// A JSON number at `pos`: grammar as RFC JSON (optional minus, no leading
/// zeros, optional fraction and exponent); integers in the `i64` range read
/// as `Int`, every other well-formed number as `NumOther`.
pub open spec fn sp_number(s: Seq<char>, pos: int) -> Option<(JsonV, int)> {
    let neg = pos < s.len() && s[pos] == '-';
    let d0 = if neg {
        pos + 1
    } else {
        pos
    };
    if !(d0 < s.len() && is_digit(s[d0])) {
        None
    } else {
        let dend = sp_scan_digits(s, d0);
        if s[d0] == '0' && dend > d0 + 1 {
            None
        } else {
            sp_number_frac(s, neg, d0, dend)
        }
    }
}

/// One JSON value whose first character stands at `p` (white space already
/// skipped), and the position after it.
pub open spec fn sp_value_at(s: Seq<char>, p: int) -> Option<(JsonV, int)>
    decreases s.len() - p, 0int,
{
    if p >= s.len() {
        None
    } else {
        let c = s[p];
        if c == 'n' {
            if s.len() - (p + 1) >= 3 && s[p + 1] == 'u' && s[p + 2] == 'l' && s[p + 3] == 'l' {
                Some((JsonV::Null, p + 4))
            } else {
                None
            }
        } else if c == 't' {
            if s.len() - (p + 1) >= 3 && s[p + 1] == 'r' && s[p + 2] == 'u' && s[p + 3] == 'e' {
                Some((JsonV::Bool(true), p + 4))
            } else {
                None
            }
        } else if c == 'f' {
            if s.len() - p >= 5 && s[p + 1] == 'a' && s[p + 2] == 'l' && s[p + 3] == 's' && s[p
                + 4] == 'e' {
                Some((JsonV::Bool(false), p + 5))
            } else {
                None
            }
        } else if c == '"' {
            match sp_string_body(s, p + 1, Seq::empty()) {
                Some((cs, p2)) => Some((JsonV::Str(cs), p2)),
                None => None,
            }
        } else if c == '-' || is_digit(c) {
            sp_number(s, p)
        } else if c == '[' {
            match sp_arr_from(s, p + 1) {
                Some((items, p2)) => Some((JsonV::Arr(items), p2)),
                None => None,
            }
        } else if c == '{' {
            match sp_obj_from(s, p + 1) {
                Some((fields, p2)) => Some((JsonV::Obj(fields), p2)),
                None => None,
            }
        } else {
            None
        }
    }
}

/// An array tail from `pos` (just after the opening bracket): empty when
/// the closing bracket comes first, else the comma-separated items.
pub open spec fn sp_arr_from(s: Seq<char>, pos: int) -> Option<(Seq<JsonV>, int)>
    decreases s.len() - pos, 2int,
{
    if pos > s.len() {
        None
    } else {
        let q = pin(sp_skip_ws(s, pos), pos, s.len() as int);
        if q < s.len() && s[q] == ']' {
            Some((Seq::empty(), q + 1))
        } else {
            sp_arr_items(s, q, Seq::empty())
        }
    }
}

/// An object tail from `pos` (just after the opening brace).
pub open spec fn sp_obj_from(s: Seq<char>, pos: int) -> Option<(Seq<(Seq<char>, JsonV)>, int)>
    decreases s.len() - pos, 2int,
{
    if pos > s.len() {
        None
    } else {
        let q = pin(sp_skip_ws(s, pos), pos, s.len() as int);
        if q < s.len() && s[q] == '}' {
            Some((Seq::empty(), q + 1))
        } else {
            sp_obj_members(s, q, Seq::empty())
        }
    }
}

/// Array elements from `pos` on: values separated by commas, closed by the
/// bracket, each appended to `acc`.
pub open spec fn sp_arr_items(s: Seq<char>, pos: int, acc: Seq<JsonV>) -> Option<
    (Seq<JsonV>, int),
>
    decreases s.len() - pos, 1int,
{
    if pos > s.len() {
        None
    } else {
        let q = pin(sp_skip_ws(s, pos), pos, s.len() as int);
        match sp_value_at(s, q) {
            None => None,
            Some((v, p2raw)) => {
                let p2 = pin(p2raw, pos + 1, s.len() as int);
                let p3 = pin(sp_skip_ws(s, p2), p2, s.len() as int);
                if p3 < s.len() && s[p3] == ',' {
                    sp_arr_items(s, p3 + 1, acc.push(v))
                } else if p3 < s.len() && s[p3] == ']' {
                    Some((acc.push(v), p3 + 1))
                } else {
                    None
                }
            },
        }
    }
}

/// Object members from `pos` on: quoted keys, colons and values separated
/// by commas, closed by the brace, each pair appended to `acc`.
pub open spec fn sp_obj_members(s: Seq<char>, pos: int, acc: Seq<(Seq<char>, JsonV)>) -> Option<
    (Seq<(Seq<char>, JsonV)>, int),
>
    decreases s.len() - pos, 1int,
{
    if pos > s.len() {
        None
    } else {
        let pk = pin(sp_skip_ws(s, pos), pos, s.len() as int);
        if !(pk < s.len() && s[pk] == '"') {
            None
        } else {
            match sp_string_body(s, pk + 1, Seq::empty()) {
                None => None,
                Some((key, p2raw)) => {
                    let p2 = pin(p2raw, pk + 2, s.len() as int);
                    let p3 = pin(sp_skip_ws(s, p2), p2, s.len() as int);
                    if !(p3 < s.len() && s[p3] == ':') {
                        None
                    } else {
                        let q = pin(sp_skip_ws(s, p3 + 1), p3 + 1, s.len() as int);
                        match sp_value_at(s, q) {
                            None => None,
                            Some((v, p4raw)) => {
                                let p4 = pin(p4raw, q + 1, s.len() as int);
                                let p5 = pin(sp_skip_ws(s, p4), p4, s.len() as int);
                                if p5 < s.len() && s[p5] == ',' {
                                    sp_obj_members(s, p5 + 1, acc.push((key, v)))
                                } else if p5 < s.len() && s[p5] == '}' {
                                    Some((acc.push((key, v)), p5 + 1))
                                } else {
                                    None
                                }
                            },
                        }
                    }
                },
            }
        }
    }
}

/// One JSON value, leading white space allowed.
pub open spec fn sp_value(s: Seq<char>, pos: int) -> Option<(JsonV, int)> {
    sp_value_at(s, fwd(sp_skip_ws(s, pos), pos))
}

/// A complete document: one value with nothing but white space around it.
/// This is the whole grammar [`parse_json`] accepts, and the document it
/// yields.
pub open spec fn sp_parse_json(t: Seq<char>) -> Option<JsonV> {
    match sp_value(t, 0) {
        Some((v, p)) => if sp_skip_ws(t, p) == t.len() {
            Some(v)
        } else {
            None
        },
        None => None,
    }
}

pub proof fn lemma_sp_skip_ws_bounds(s: Seq<char>, pos: int)
    requires
        0 <= pos <= s.len(),
    ensures
        pos <= sp_skip_ws(s, pos) <= s.len(),
    decreases s.len() - pos,
{
    if pos < s.len() && json_ws(s[pos]) {
        lemma_sp_skip_ws_bounds(s, pos + 1);
    }
}

pub proof fn lemma_sp_scan_digits_bounds(s: Seq<char>, pos: int)
    requires
        0 <= pos <= s.len(),
    ensures
        pos <= sp_scan_digits(s, pos) <= s.len(),
    decreases s.len() - pos,
{
    if pos < s.len() && is_digit(s[pos]) {
        lemma_sp_scan_digits_bounds(s, pos + 1);
    }
}


/// Documents the printer renders faithfully: every number is an integer
/// (the codec never produces another kind).
pub open spec fn printable(v: JsonV) -> bool
    decreases v,
{
    match v {
        JsonV::Null => true,
        JsonV::Bool(_) => true,
        JsonV::Int(_) => true,
        JsonV::NumOther => false,
        JsonV::Str(_) => true,
        JsonV::Arr(items) => printable_seq(items),
        JsonV::Obj(fields) => printable_fields(fields),
    }
}

pub open spec fn printable_seq(s: Seq<JsonV>) -> bool
    decreases s,
{
    if s.len() == 0 {
        true
    } else {
        printable(s[0]) && printable_seq(s.subrange(1, s.len() as int))
    }
}

pub open spec fn printable_fields(s: Seq<(Seq<char>, JsonV)>) -> bool
    decreases s,
{
    if s.len() == 0 {
        true
    } else {
        printable(s[0].1) && printable_fields(s.subrange(1, s.len() as int))
    }
}

/// The characters that may follow a printed value inside a document: a
/// separator, a closer, or the end of the text.  None of them extends a
/// number token.
pub open spec fn sep_ok(s: Seq<char>, p: int) -> bool {
    p == s.len() || s[p] == ',' || s[p] == ']' || s[p] == '}'
}

proof fn lemma_dec_digits_props(n: int)
    requires
        n >= 0,
    ensures
        dec_digits(n).len() >= 1,
        forall|k: int| 0 <= k < dec_digits(n).len() ==> is_digit(#[trigger] dec_digits(n)[k]),
        digits_val(dec_digits(n)) == n,
        (dec_digits(n)[0] == '0') == (n == 0),
        n < 10 ==> dec_digits(n).len() == 1,
    decreases n,
{
    if n < 10 {
        assert(is_digit(digit_char(n)) && digit_val(digit_char(n)) == n);
        assert(dec_digits(n) == seq![digit_char(n)]);
        assert(seq![digit_char(n)].drop_last() =~= Seq::<char>::empty());
        assert(digits_val(Seq::<char>::empty()) == 0);
        assert(digits_val(dec_digits(n)) == digit_val(digit_char(n)));
        assert((digit_char(n) == '0') == (n == 0));
    } else {
        lemma_dec_digits_props(n / 10);
        let t = dec_digits(n / 10);
        let c = digit_char(n % 10);
        assert(is_digit(c) && digit_val(c) == n % 10);
        assert(t.push(c).drop_last() =~= t);
        assert(t.push(c).last() == c);
        assert(digits_val(t.push(c)) == digits_val(t) * 10 + (n % 10));
        assert(digits_val(dec_digits(n)) == n);
        assert(dec_digits(n)[0] == t[0]);
        assert(n / 10 >= 1);
        assert forall|k: int|
            0 <= k < dec_digits(n).len() implies is_digit(#[trigger] dec_digits(n)[k]) by {
            if k < t.len() {
                assert(dec_digits(n)[k] == t[k]);
            } else {
                assert(dec_digits(n)[k] == c);
            }
        }
    }
}

proof fn lemma_scan_digit_run(s: Seq<char>, pos: int, dend: int)
    requires
        0 <= pos <= dend <= s.len(),
        forall|k: int| pos <= k < dend ==> is_digit(#[trigger] s[k]),
        dend == s.len() || !is_digit(s[dend]),
    ensures
        sp_scan_digits(s, pos) == dend,
    decreases dend - pos,
{
    if pos < dend {
        lemma_scan_digit_run(s, pos + 1, dend);
    }
}

/// A printed integer at `pos`, followed by a separator, reads back as
/// itself.
proof fn lemma_pp_number(s: Seq<char>, pos: int, i: i64)
    requires
        0 <= pos,
        pos + int_dec(i as int).len() <= s.len(),
        s.subrange(pos, pos + int_dec(i as int).len() as int) == int_dec(i as int),
        sep_ok(s, pos + int_dec(i as int).len()),
    ensures
        sp_number(s, pos) == Some((JsonV::Int(i), pos + int_dec(i as int).len())),
{
    let text = int_dec(i as int);
    let len = text.len() as int;
    let neg = i < 0;
    let m = if neg {
        -(i as int)
    } else {
        i as int
    };
    lemma_dec_digits_props(m);
    let digits = dec_digits(m);
    let d0 = if neg {
        pos + 1
    } else {
        pos
    };
    assert forall|k: int| d0 <= k < pos + len implies is_digit(#[trigger] s[k]) by {
        assert(s[k] == text[k - pos]);
        if neg {
            assert(text[k - pos] == digits[k - pos - 1]);
        } else {
            assert(text[k - pos] == digits[k - pos]);
        }
    }
    if neg {
        assert(s[pos] == text[0]);
        assert(text[0] == '-');
    } else {
        assert(s[pos] == text[0] && text[0] == digits[0]);
        assert(s[pos] != '-');
    }
    assert(s[d0] == text[d0 - pos]);
    if neg {
        assert(text[1] == digits[0]);
    }
    assert(s[d0] == digits[0]);
    // the separator after the token neither extends the digit run nor opens
    // a fraction or exponent
    if pos + len < s.len() {
        let c = s[pos + len];
        assert(c == ',' || c == ']' || c == '}');
        assert(!is_digit(c) && c != '.' && c != 'e' && c != 'E');
    }
    lemma_scan_digit_run(s, d0, pos + len);
    assert(sp_scan_digits(s, d0) == pos + len);
    // no leading zero unless the value is the single digit zero
    if s[d0] == '0' {
        assert(digits[0] == '0');
        assert(m == 0);
        assert(pos + len == d0 + 1);
    }
    // the digit run spells exactly the magnitude
    assert(s.subrange(d0, pos + len) =~= digits) by {
        assert forall|k: int| 0 <= k < digits.len() implies s.subrange(d0, pos + len)[k]
            == digits[k] by {
            assert(s.subrange(d0, pos + len)[k] == s[d0 + k]);
            assert(s[d0 + k] == text[d0 + k - pos]);
        }
    }
    assert(digits_val(s.subrange(d0, pos + len)) == m);
    if neg {
        if m == 0x8000_0000_0000_0000 {
            assert(i == i64::MIN);
        }
    }
}


proof fn lemma_escape_str_first(str: Seq<char>)
    requires
        str.len() > 0,
    ensures
        escape_str(str) == escape_char(str[0]) + escape_str(str.subrange(1, str.len() as int)),
    decreases str.len(),
{
    if str.len() == 1 {
        assert(str.drop_last() =~= Seq::<char>::empty());
        assert(str.subrange(1, str.len() as int) =~= Seq::<char>::empty());
        assert(escape_str(Seq::<char>::empty()) == Seq::<char>::empty());
        assert(escape_str(str) =~= escape_char(str[0]) + escape_str(
            str.subrange(1, str.len() as int),
        ));
    } else {
        let head = str.drop_last();
        lemma_escape_str_first(head);
        let tail = str.subrange(1, str.len() as int);
        assert(head.subrange(1, head.len() as int) =~= tail.drop_last());
        assert(tail.last() == str.last());
        assert(head[0] == str[0]);
        assert(escape_str(tail) == escape_str(tail.drop_last()) + escape_char(tail.last()));
        assert(escape_str(str) == (escape_char(str[0]) + escape_str(tail.drop_last()))
            + escape_char(str.last()));
        assert((escape_char(str[0]) + escape_str(tail.drop_last())) + escape_char(str.last())
            =~= escape_char(str[0]) + escape_str(tail));
    }
}

proof fn lemma_hex_val_of_hex_char(d: int)
    requires
        0 <= d < 16,
    ensures
        sp_hex_val(hex_char(d)) == Some(d as u32),
{
}

/// A printed (escaped) string body at `pos`, followed by its closing
/// quote, reads back as the original characters appended to `acc`.
#[verifier::rlimit(100)]
proof fn lemma_pp_string_body(s: Seq<char>, pos: int, str: Seq<char>, acc: Seq<char>)
    requires
        0 <= pos,
        pos + escape_str(str).len() + 1 <= s.len(),
        s.subrange(pos, pos + escape_str(str).len() as int) == escape_str(str),
        s[pos + escape_str(str).len()] == '"',
    ensures
        sp_string_body(s, pos, acc) == Some((acc + str, pos + escape_str(str).len() + 1)),
    decreases str.len(),
{
    let total = escape_str(str).len() as int;
    if str.len() == 0 {
        assert(s[pos] == '"');
        assert(acc + str =~= acc);
    } else {
        let c = str[0];
        let rest = str.subrange(1, str.len() as int);
        lemma_escape_str_first(str);
        let ec = escape_char(c);
        let e = ec.len() as int;
        assert forall|k: int| 0 <= k < total implies s[pos + k] == escape_str(str)[k] by {
            assert(s.subrange(pos, pos + total)[k] == s[pos + k]);
        }
        assert forall|k: int| 0 <= k < e implies s[pos + k] == ec[k] by {
            assert(escape_str(str)[k] == ec[k]);
        }
        assert(s.subrange(pos + e, pos + total) =~= escape_str(rest)) by {
            assert forall|k: int| 0 <= k < total - e implies s.subrange(pos + e, pos + total)[k]
                == escape_str(rest)[k] by {
                assert(s.subrange(pos + e, pos + total)[k] == s[pos + e + k]);
                assert(escape_str(str)[e + k] == escape_str(rest)[k]);
            }
        }
        lemma_pp_string_body(s, pos + e, rest, acc.push(c));
        assert(acc.push(c) + rest =~= acc + str);
        if c == '"' {
            assert(s[pos] == '\\' && s[pos + 1] == '"');
        } else if c == '\\' {
            assert(s[pos] == '\\' && s[pos + 1] == '\\');
        } else if c == '\u{8}' {
            assert(s[pos] == '\\' && s[pos + 1] == 'b');
        } else if c == '\t' {
            assert(s[pos] == '\\' && s[pos + 1] == 't');
        } else if c == '\n' {
            assert(s[pos] == '\\' && s[pos + 1] == 'n');
        } else if c == '\u{c}' {
            assert(s[pos] == '\\' && s[pos + 1] == 'f');
        } else if c == '\r' {
            assert(s[pos] == '\\' && s[pos + 1] == 'r');
        } else if (c as u32) < 0x20 {
            let hi = (c as u32) as int / 16;
            let lo = (c as u32) as int % 16;
            assert(s[pos] == '\\' && s[pos + 1] == 'u' && s[pos + 2] == '0' && s[pos + 3]
                == '0' && s[pos + 4] == hex_char(hi) && s[pos + 5] == hex_char(lo));
            lemma_hex_val_of_hex_char(hi);
            lemma_hex_val_of_hex_char(lo);
            assert(sp_hex_val('0') == Some(0u32));
            let code = ((((0u32 * 16 + 0) * 16 + hi) * 16 + lo)) as u32;
            assert(sp_hex4(s, pos + 2) == Some((code, pos + 6)));
            assert(code == c as u32);
            assert(code < 0x20);
            vstd::utf8::char_u32_cast(c, code);
            assert((code as char) == c);
            assert(sp_string_body(s, pos, acc) == sp_string_body(s, pos + 6, acc.push(c)));
        } else {
            assert(escape_char(c) =~= seq![c]);
            assert(s[pos + 0] == ec[0]);
            assert(ec[0] == c);
            assert(s[pos] == c);
        }
    }
}


proof fn lemma_print_items_first(vs: Seq<JsonV>)
    requires
        vs.len() > 0,
    ensures
        print_items(vs) == print_json(vs[0]) + (if vs.len() == 1 {
            Seq::<char>::empty()
        } else {
            seq![','] + print_items(vs.subrange(1, vs.len() as int))
        }),
    decreases vs.len(),
{
    if vs.len() == 1 {
        assert(print_items(vs) =~= print_json(vs[0]) + Seq::<char>::empty());
    } else {
        let head = vs.drop_last();
        lemma_print_items_first(head);
        let tail = vs.subrange(1, vs.len() as int);
        assert(head[0] == vs[0]);
        assert(head.subrange(1, head.len() as int) =~= tail.drop_last());
        assert(tail.last() == vs.last());
        if vs.len() == 2 {
            assert(tail.len() == 1);
            assert(print_items(tail) == print_json(tail[0]));
            assert(print_items(head) == print_json(vs[0]) + Seq::<char>::empty());
            assert(print_items(vs) == print_items(head) + seq![','] + print_json(vs.last()));
            assert(print_items(head) + seq![','] + print_json(vs.last()) =~= print_json(vs[0])
                + (seq![','] + print_items(tail)));
        } else {
            assert(print_items(head) == print_json(vs[0]) + (seq![','] + print_items(
                tail.drop_last(),
            )));
            assert(print_items(tail) == print_items(tail.drop_last()) + seq![','] + print_json(
                tail.last(),
            ));
            assert(print_items(vs) == print_items(head) + seq![','] + print_json(vs.last()));
            assert(print_items(head) + seq![','] + print_json(vs.last()) =~= print_json(vs[0])
                + (seq![','] + print_items(tail)));
        }
    }
}

/// The text of one printed object member.
pub open spec fn print_one_member(kv: (Seq<char>, JsonV)) -> Seq<char> {
    seq!['"'] + escape_str(kv.0) + seq!['"', ':'] + print_json(kv.1)
}

proof fn lemma_print_members_first(fs: Seq<(Seq<char>, JsonV)>)
    requires
        fs.len() > 0,
    ensures
        print_members(fs) == print_one_member(fs[0]) + (if fs.len() == 1 {
            Seq::<char>::empty()
        } else {
            seq![','] + print_members(fs.subrange(1, fs.len() as int))
        }),
    decreases fs.len(),
{
    if fs.len() == 1 {
        assert(print_members(fs) =~= print_one_member(fs[0]) + Seq::<char>::empty());
    } else {
        let head = fs.drop_last();
        lemma_print_members_first(head);
        let tail = fs.subrange(1, fs.len() as int);
        assert(head[0] == fs[0]);
        assert(head.subrange(1, head.len() as int) =~= tail.drop_last());
        assert(tail.last() == fs.last());
        if fs.len() == 2 {
            assert(tail.len() == 1);
            assert(print_members(tail) =~= print_one_member(tail[0]));
            assert(print_members(head) == print_one_member(fs[0]) + Seq::<char>::empty());
            assert(print_members(fs) == print_members(head) + seq![','] + (seq!['"']
                + escape_str(fs.last().0) + seq!['"', ':'] + print_json(fs.last().1)));
            assert(print_members(head) + seq![','] + print_one_member(fs.last())
                =~= print_one_member(fs[0]) + (seq![','] + print_members(tail)));
        } else {
            assert(print_members(head) == print_one_member(fs[0]) + (seq![','] + print_members(
                tail.drop_last(),
            )));
            assert(print_members(tail) == print_members(tail.drop_last()) + seq![','] + (seq![
                '"',
            ] + escape_str(tail.last().0) + seq!['"', ':'] + print_json(tail.last().1)));
            assert(print_members(fs) == print_members(head) + seq![','] + (seq!['"']
                + escape_str(fs.last().0) + seq!['"', ':'] + print_json(fs.last().1)));
            assert(print_members(head) + seq![','] + print_one_member(fs.last())
                =~= print_one_member(fs[0]) + (seq![','] + print_members(tail)));
        }
    }
}

/// A printed value starts with one visible character that is neither white
/// space nor a separator or closer.
proof fn lemma_print_first_char(v: JsonV)
    requires
        printable(v),
    ensures
        print_json(v).len() > 0,
        !json_ws(print_json(v)[0]),
        print_json(v)[0] != ']',
        print_json(v)[0] != '}',
        print_json(v)[0] != ',',
{
    match v {
        JsonV::Int(i) => {
            if i < 0 {
                assert(print_json(v)[0] == '-');
            } else {
                lemma_dec_digits_props(i as int);
                assert(print_json(v)[0] == dec_digits(i as int)[0]);
                assert(is_digit(print_json(v)[0]));
            }
        },
        _ => {},
    }
}


/// A printed value at `pos`, followed by a separator or the end, reads
/// back as exactly that value.
#[verifier::rlimit(100)]
proof fn lemma_pp_value(v: JsonV, s: Seq<char>, pos: int)
    requires
        printable(v),
        0 <= pos,
        pos + print_json(v).len() <= s.len(),
        s.subrange(pos, pos + print_json(v).len() as int) == print_json(v),
        sep_ok(s, pos + print_json(v).len()),
    ensures
        sp_value_at(s, pos) == Some((v, pos + print_json(v).len())),
    decreases v,
{
    let text = print_json(v);
    let len = text.len() as int;
    assert forall|k: int| 0 <= k < len implies s[pos + k] == text[k] by {
        assert(s.subrange(pos, pos + len)[k] == s[pos + k]);
    }
    lemma_print_first_char(v);
    match v {
        JsonV::Null => {
            assert(s[pos] == 'n' && s[pos + 1] == 'u' && s[pos + 2] == 'l' && s[pos + 3] == 'l');
        },
        JsonV::Bool(b) => {
            if b {
                assert(s[pos] == 't' && s[pos + 1] == 'r' && s[pos + 2] == 'u' && s[pos + 3]
                    == 'e');
            } else {
                assert(s[pos] == 'f' && s[pos + 1] == 'a' && s[pos + 2] == 'l' && s[pos + 3]
                    == 's' && s[pos + 4] == 'e');
            }
        },
        JsonV::Int(i) => {
            lemma_pp_number(s, pos, i);
            assert(s[pos] == text[0]);
            if i < 0 {
                assert(s[pos] == '-');
            } else {
                lemma_dec_digits_props(i as int);
                assert(is_digit(s[pos]));
            }
        },
        JsonV::NumOther => {
            assert(false);
        },
        JsonV::Str(strv) => {
            assert(s[pos] == '"');
            let esc = escape_str(strv);
            assert(s.subrange(pos + 1, pos + 1 + esc.len() as int) =~= esc) by {
                assert forall|k: int| 0 <= k < esc.len() implies s.subrange(
                    pos + 1,
                    pos + 1 + esc.len() as int,
                )[k] == esc[k] by {
                    assert(s.subrange(pos + 1, pos + 1 + esc.len() as int)[k] == s[pos + 1 + k]);
                    assert(text[1 + k] == esc[k]);
                }
            }
            assert(s[pos + 1 + esc.len()] == text[len - 1]);
            assert(text[len - 1] == '"');
            lemma_pp_string_body(s, pos + 1, strv, Seq::empty());
            assert(Seq::<char>::empty() + strv =~= strv);
        },
        JsonV::Arr(items) => {
            assert(s[pos] == '[');
            let body = print_items(items);
            assert(s[pos + len - 1] == text[len - 1]);
            assert(text[len - 1] == ']');
            if items.len() == 0 {
                assert(body == Seq::<char>::empty());
                assert(len == 2);
                assert(s[pos + 1] == ']');
                assert(sp_skip_ws(s, pos + 1) == pos + 1);
                assert(pin(pos + 1, pos + 1, s.len() as int) == pos + 1);
                assert(items =~= Seq::<JsonV>::empty());
            } else {
                lemma_print_items_first(items);
                lemma_print_first_char(items[0]);
                assert(s[pos + 1] == text[1]);
                assert(text[1] == body[0]);
                assert(body[0] == print_json(items[0])[0]);
                assert(!json_ws(s[pos + 1]) && s[pos + 1] != ']');
                assert(sp_skip_ws(s, pos + 1) == pos + 1);
                assert(pin(pos + 1, pos + 1, s.len() as int) == pos + 1);
                assert(s.subrange(pos + 1, pos + 1 + body.len() as int) =~= body) by {
                    assert forall|k: int| 0 <= k < body.len() implies s.subrange(
                        pos + 1,
                        pos + 1 + body.len() as int,
                    )[k] == body[k] by {
                        assert(s.subrange(pos + 1, pos + 1 + body.len() as int)[k] == s[pos + 1
                            + k]);
                        assert(text[1 + k] == body[k]);
                    }
                }
                assert(s[pos + 1 + body.len()] == ']');
                lemma_pp_items(items, s, pos + 1, Seq::empty());
                assert(Seq::<JsonV>::empty() + items =~= items);
            }
        },
        JsonV::Obj(fields) => {
            assert(s[pos] == '{');
            let body = print_members(fields);
            assert(s[pos + len - 1] == text[len - 1]);
            assert(text[len - 1] == '}');
            if fields.len() == 0 {
                assert(body == Seq::<char>::empty());
                assert(len == 2);
                assert(s[pos + 1] == '}');
                assert(sp_skip_ws(s, pos + 1) == pos + 1);
                assert(pin(pos + 1, pos + 1, s.len() as int) == pos + 1);
                assert(fields =~= Seq::<(Seq<char>, JsonV)>::empty());
            } else {
                lemma_print_members_first(fields);
                assert(s[pos + 1] == text[1]);
                assert(text[1] == body[0]);
                assert(body[0] == print_one_member(fields[0])[0]);
                assert(print_one_member(fields[0])[0] == '"');
                assert(!json_ws(s[pos + 1]) && s[pos + 1] != '}');
                assert(sp_skip_ws(s, pos + 1) == pos + 1);
                assert(pin(pos + 1, pos + 1, s.len() as int) == pos + 1);
                assert(s.subrange(pos + 1, pos + 1 + body.len() as int) =~= body) by {
                    assert forall|k: int| 0 <= k < body.len() implies s.subrange(
                        pos + 1,
                        pos + 1 + body.len() as int,
                    )[k] == body[k] by {
                        assert(s.subrange(pos + 1, pos + 1 + body.len() as int)[k] == s[pos + 1
                            + k]);
                        assert(text[1 + k] == body[k]);
                    }
                }
                assert(s[pos + 1 + body.len()] == '}');
                lemma_pp_members(fields, s, pos + 1, Seq::empty());
                assert(Seq::<(Seq<char>, JsonV)>::empty() + fields =~= fields);
            }
        },
    }
}

/// Printed array items at `pos`, followed by the closing bracket, read
/// back as themselves appended to `acc`.
#[verifier::rlimit(100)]
proof fn lemma_pp_items(vs: Seq<JsonV>, s: Seq<char>, pos: int, acc: Seq<JsonV>)
    requires
        vs.len() > 0,
        printable_seq(vs),
        0 <= pos,
        pos + print_items(vs).len() + 1 <= s.len(),
        s.subrange(pos, pos + print_items(vs).len() as int) == print_items(vs),
        s[pos + print_items(vs).len()] == ']',
    ensures
        sp_arr_items(s, pos, acc) == Some((acc + vs, pos + print_items(vs).len() + 1)),
    decreases vs,
{
    let body = print_items(vs);
    let blen = body.len() as int;
    lemma_print_items_first(vs);
    let first = print_json(vs[0]);
    let flen = first.len() as int;
    lemma_print_first_char(vs[0]);
    assert forall|k: int| 0 <= k < blen implies s[pos + k] == body[k] by {
        assert(s.subrange(pos, pos + blen)[k] == s[pos + k]);
    }
    assert forall|k: int| 0 <= k < flen implies s[pos + k] == first[k] by {
        assert(body[k] == first[k]);
    }
    // one unfold of the item grammar: the first element, then a comma or
    // the closing bracket
    assert(s[pos] == first[0]);
    assert(!json_ws(s[pos]));
    assert(sp_skip_ws(s, pos) == pos);
    assert(pin(pos, pos, s.len() as int) == pos);
    assert(s.subrange(pos, pos + flen) =~= first) by {
        assert forall|k: int| 0 <= k < flen implies s.subrange(pos, pos + flen)[k]
            == first[k] by {
            assert(s.subrange(pos, pos + flen)[k] == s[pos + k]);
        }
    }
    if vs.len() == 1 {
        assert(blen == flen);
        assert(s[pos + flen] == ']');
        lemma_pp_value(vs[0], s, pos);
        assert(pin(pos + flen, pos + 1, s.len() as int) == pos + flen);
        assert(sp_skip_ws(s, pos + flen) == pos + flen);
        assert(pin(pos + flen, pos + flen, s.len() as int) == pos + flen);
        assert(acc.push(vs[0]) =~= acc + vs);
    } else {
        let rest = vs.subrange(1, vs.len() as int);
        assert(body == first + (seq![','] + print_items(rest)));
        assert(s[pos + flen] == body[flen]);
        assert(body[flen] == ',');
        lemma_pp_value(vs[0], s, pos);
        assert(pin(pos + flen, pos + 1, s.len() as int) == pos + flen);
        assert(sp_skip_ws(s, pos + flen) == pos + flen);
        assert(pin(pos + flen, pos + flen, s.len() as int) == pos + flen);
        let rbody = print_items(rest);
        assert(s.subrange(pos + flen + 1, pos + flen + 1 + rbody.len() as int) =~= rbody) by {
            assert forall|k: int| 0 <= k < rbody.len() implies s.subrange(
                pos + flen + 1,
                pos + flen + 1 + rbody.len() as int,
            )[k] == rbody[k] by {
                assert(s.subrange(pos + flen + 1, pos + flen + 1 + rbody.len() as int)[k] == s[
                    pos + flen + 1 + k]);
                assert(body[flen + 1 + k] == rbody[k]);
            }
        }
        assert(blen == flen + 1 + rbody.len());
        assert(s[pos + flen + 1 + rbody.len()] == ']');
        lemma_pp_items(rest, s, pos + flen + 1, acc.push(vs[0]));
        assert(acc.push(vs[0]) + rest =~= acc + vs);
    }
}

/// Printed object members at `pos`, followed by the closing brace, read
/// back as themselves appended to `acc`.
#[verifier::rlimit(100)]
proof fn lemma_pp_members(
    fs: Seq<(Seq<char>, JsonV)>,
    s: Seq<char>,
    pos: int,
    acc: Seq<(Seq<char>, JsonV)>,
)
    requires
        fs.len() > 0,
        printable_fields(fs),
        0 <= pos,
        pos + print_members(fs).len() + 1 <= s.len(),
        s.subrange(pos, pos + print_members(fs).len() as int) == print_members(fs),
        s[pos + print_members(fs).len()] == '}',
    ensures
        sp_obj_members(s, pos, acc) == Some((acc + fs, pos + print_members(fs).len() + 1)),
    decreases fs,
{
    let body = print_members(fs);
    let blen = body.len() as int;
    lemma_print_members_first(fs);
    let key = fs[0].0;
    let v0 = fs[0].1;
    let esc = escape_str(key);
    let elen = esc.len() as int;
    let first = print_one_member(fs[0]);
    let flen = first.len() as int;
    let vtext = print_json(v0);
    let vlen = vtext.len() as int;
    lemma_print_first_char(v0);
    assert forall|k: int| 0 <= k < blen implies s[pos + k] == body[k] by {
        assert(s.subrange(pos, pos + blen)[k] == s[pos + k]);
    }
    assert forall|k: int| 0 <= k < flen implies s[pos + k] == first[k] by {
        assert(body[k] == first[k]);
    }
    assert(flen == elen + 3 + vlen);
    // the member grammar, one unfold: quoted key, colon, value, then a
    // comma or the closing brace
    assert(s[pos] == first[0] && first[0] == '"');
    assert(sp_skip_ws(s, pos) == pos);
    assert(pin(pos, pos, s.len() as int) == pos);
    assert(s.subrange(pos + 1, pos + 1 + elen) =~= esc) by {
        assert forall|k: int| 0 <= k < elen implies s.subrange(pos + 1, pos + 1 + elen)[k]
            == esc[k] by {
            assert(s.subrange(pos + 1, pos + 1 + elen)[k] == s[pos + 1 + k]);
            assert(first[1 + k] == esc[k]);
        }
    }
    assert(s[pos + 1 + elen] == first[1 + elen]);
    assert(first[1 + elen] == '"');
    lemma_pp_string_body(s, pos + 1, key, Seq::empty());
    assert(Seq::<char>::empty() + key =~= key);
    let pafter = pos + elen + 2;
    assert(pin(pafter, pos + 2, s.len() as int) == pafter);
    assert(s[pafter] == first[elen + 2]);
    assert(first[elen + 2] == ':');
    assert(sp_skip_ws(s, pafter) == pafter);
    assert(pin(pafter, pafter, s.len() as int) == pafter);
    let vstart = pafter + 1;
    assert forall|k: int| 0 <= k < vlen implies s[vstart + k] == vtext[k] by {
        assert(first[elen + 3 + k] == vtext[k]);
    }
    assert(s[vstart] == vtext[0]);
    assert(!json_ws(s[vstart]));
    assert(sp_skip_ws(s, vstart) == vstart);
    assert(pin(vstart, vstart, s.len() as int) == vstart);
    assert(s.subrange(vstart, vstart + vlen) =~= vtext) by {
        assert forall|k: int| 0 <= k < vlen implies s.subrange(vstart, vstart + vlen)[k]
            == vtext[k] by {
            assert(s.subrange(vstart, vstart + vlen)[k] == s[vstart + k]);
        }
    }
    if fs.len() == 1 {
        assert(blen == flen);
        assert(s[vstart + vlen] == '}');
        lemma_pp_value(v0, s, vstart);
        assert(pin(vstart + vlen, vstart + 1, s.len() as int) == vstart + vlen);
        assert(sp_skip_ws(s, vstart + vlen) == vstart + vlen);
        assert(pin(vstart + vlen, vstart + vlen, s.len() as int) == vstart + vlen);
        assert((key, v0) == fs[0]);
        assert(acc.push(fs[0]) =~= acc + fs);
    } else {
        let rest = fs.subrange(1, fs.len() as int);
        assert(body == first + (seq![','] + print_members(rest)));
        assert(s[vstart + vlen] == body[flen]);
        assert(body[flen] == ',');
        lemma_pp_value(v0, s, vstart);
        assert(pin(vstart + vlen, vstart + 1, s.len() as int) == vstart + vlen);
        assert(sp_skip_ws(s, vstart + vlen) == vstart + vlen);
        assert(pin(vstart + vlen, vstart + vlen, s.len() as int) == vstart + vlen);
        let rbody = print_members(rest);
        let rstart = pos + flen + 1;
        assert(s.subrange(rstart, rstart + rbody.len() as int) =~= rbody) by {
            assert forall|k: int| 0 <= k < rbody.len() implies s.subrange(
                rstart,
                rstart + rbody.len() as int,
            )[k] == rbody[k] by {
                assert(s.subrange(rstart, rstart + rbody.len() as int)[k] == s[rstart + k]);
                assert(body[flen + 1 + k] == rbody[k]);
            }
        }
        assert(blen == flen + 1 + rbody.len());
        assert(s[rstart + rbody.len()] == '}');
        lemma_pp_members(rest, s, rstart, acc.push(fs[0]));
        assert((key, v0) == fs[0]);
        assert(acc.push(fs[0]) + rest =~= acc + fs);
    }
}


pub proof fn lemma_printable_seq_all(s: Seq<JsonV>)
    requires
        forall|k: int| 0 <= k < s.len() ==> printable(#[trigger] s[k]),
    ensures
        printable_seq(s),
    decreases s.len(),
{
    if s.len() > 0 {
        let t = s.subrange(1, s.len() as int);
        assert(forall|k: int| 0 <= k < t.len() ==> #[trigger] t[k] == s[k + 1]);
        lemma_printable_seq_all(t);
    }
}

pub proof fn lemma_printable_fields_all(s: Seq<(Seq<char>, JsonV)>)
    requires
        forall|k: int| 0 <= k < s.len() ==> printable((#[trigger] s[k]).1),
    ensures
        printable_fields(s),
    decreases s.len(),
{
    if s.len() > 0 {
        let t = s.subrange(1, s.len() as int);
        assert(forall|k: int| 0 <= k < t.len() ==> #[trigger] t[k] == s[k + 1]);
        lemma_printable_fields_all(t);
    }
}

/// The printer and the parser are inverse on every printable document: the
/// printed text parses back as exactly that document.
pub proof fn lemma_parse_print(v: JsonV)
    requires
        printable(v),
    ensures
        sp_parse_json(print_json(v)) == Some(v),
{
    let t = print_json(v);
    lemma_print_first_char(v);
    assert(sp_skip_ws(t, 0) == 0);
    assert(fwd(sp_skip_ws(t, 0), 0) == 0);
    assert(t.subrange(0, t.len() as int) =~= t);
    lemma_pp_value(v, t, 0);
    assert(sp_skip_ws(t, t.len() as int) == t.len());
}

} // verus!
