//! A small JSON document model with a canonical text form.
//!
//! The wire protocol exchanges JSON objects; the printer emits them without
//! any unnecessary whitespace and with object keys in ascending order. The
//! parser is tolerant: it also accepts whitespace between tokens, object
//! keys in any order (kept sorted, a later duplicate winning), the common
//! string escapes, and fractional digits beyond the stored resolution.
//! Numbers are fixed-point values counted in milli-units
//! ([`crate::math::SCALE`] to one), printed as plain decimals with at most
//! three fractional digits.

use vstd::prelude::*;
use vstd::arithmetic::div_mod::{lemma_fundamental_div_mod, lemma_mod_breakdown};

verus! {

/// Largest integer part (in whole units) a JSON number may carry.
pub const IP_MAX: i64 = 4_999_999_999;

/// Largest magnitude, in milli-units, of a JSON number: `IP_MAX` whole units
/// plus the largest fractional part.
pub const NUM_ABS_MAX: i64 = 4_999_999_999_999;

/// A JSON document. Numbers hold milli-units; object members are kept in the
/// order they were parsed or built.
#[derive(Debug, PartialEq)]
pub enum Json {
    Null,
    Num(i64),
    Str(String),
    Arr(Vec<Json>),
    Obj(Vec<(String, Json)>),
}

/// The mathematical shape of a JSON document: strings are character
/// sequences, numbers unbounded integers (still in milli-units).
pub enum JsonV {
    Null,
    Num(int),
    Str(Seq<char>),
    Arr(Seq<JsonV>),
    Obj(Seq<(Seq<char>, JsonV)>),
}

/// The abstraction of a document tree.
pub open spec fn jv(j: Json) -> JsonV
    decreases j,
{
    match j {
        Json::Null => JsonV::Null,
        Json::Num(v) => JsonV::Num(v as int),
        Json::Str(s) => JsonV::Str(s@),
        Json::Arr(v) => JsonV::Arr(jv_list(v@)),
        Json::Obj(v) => JsonV::Obj(jv_members(v@)),
    }
}

/// The abstractions of a sequence of documents.
pub open spec fn jv_list(v: Seq<Json>) -> Seq<JsonV>
    decreases v,
{
    if v.len() == 0 {
        seq![]
    } else {
        seq![jv(v[0])] + jv_list(v.subrange(1, v.len() as int))
    }
}

/// The abstractions of a sequence of object members.
pub open spec fn jv_members(v: Seq<(String, Json)>) -> Seq<(Seq<char>, JsonV)>
    decreases v,
{
    if v.len() == 0 {
        seq![]
    } else {
        seq![(v[0].0@, jv(v[0].1))] + jv_members(v.subrange(1, v.len() as int))
    }
}

/// `jv_list` maps `jv` over the sequence, index by index.
pub proof fn lemma_jv_list(v: Seq<Json>)
    ensures
        jv_list(v).len() == v.len(),
        forall|i: int| 0 <= i < v.len() ==> #[trigger] jv_list(v)[i] == jv(v[i]),
    decreases v.len(),
{
    if v.len() > 0 {
        lemma_jv_list(v.subrange(1, v.len() as int));
    }
}

/// `jv_members` abstracts every member, index by index.
pub proof fn lemma_jv_members(v: Seq<(String, Json)>)
    ensures
        jv_members(v).len() == v.len(),
        forall|i: int|
            0 <= i < v.len() ==> #[trigger] jv_members(v)[i] == (v[i].0@, jv(v[i].1)),
    decreases v.len(),
{
    if v.len() > 0 {
        lemma_jv_members(v.subrange(1, v.len() as int));
    }
}

/// Strict lexicographic order on character sequences, by code point.
pub open spec fn seq_lt(a: Seq<char>, b: Seq<char>) -> bool
    decreases a.len(),
{
    if b.len() == 0 {
        false
    } else if a.len() == 0 {
        true
    } else if (a[0] as u32) < (b[0] as u32) {
        true
    } else if (a[0] as u32) > (b[0] as u32) {
        false
    } else {
        seq_lt(a.subrange(1, a.len() as int), b.subrange(1, b.len() as int))
    }
}

/// Object members sorted strictly ascending by key.
pub open spec fn members_ascending(ms: Seq<(Seq<char>, JsonV)>) -> bool {
    forall|i: int| 0 <= i < ms.len() - 1 ==> seq_lt(#[trigger] ms[i].0, ms[i + 1].0)
}

/// A document the canonical printer and parser agree on: numbers within
/// range, object keys strictly ascending.
pub open spec fn wf_jv(j: JsonV) -> bool
    decreases j,
{
    match j {
        JsonV::Null => true,
        JsonV::Num(v) => -NUM_ABS_MAX <= v <= NUM_ABS_MAX,
        JsonV::Str(_) => true,
        JsonV::Arr(es) => forall|i: int| 0 <= i < es.len() ==> wf_jv(#[trigger] es[i]),
        JsonV::Obj(ms) => members_ascending(ms) && forall|i: int|
            0 <= i < ms.len() ==> wf_jv(#[trigger] ms[i].1),
    }
}

/// The decimal digit character for `d`.
pub open spec fn dc(d: int) -> char {
    if d == 0 {
        '0'
    } else if d == 1 {
        '1'
    } else if d == 2 {
        '2'
    } else if d == 3 {
        '3'
    } else if d == 4 {
        '4'
    } else if d == 5 {
        '5'
    } else if d == 6 {
        '6'
    } else if d == 7 {
        '7'
    } else if d == 8 {
        '8'
    } else {
        '9'
    }
}

pub open spec fn is_digit(c: char) -> bool {
    48 <= c as u32 <= 57
}

/// The value of a digit character.
pub open spec fn dval(c: char) -> int {
    c as u32 - 48
}

/// The lowercase hexadecimal digit character for `d`.
pub open spec fn hexc(d: int) -> char {
    if d < 10 {
        dc(d)
    } else if d == 10 {
        'a'
    } else if d == 11 {
        'b'
    } else if d == 12 {
        'c'
    } else if d == 13 {
        'd'
    } else if d == 14 {
        'e'
    } else {
        'f'
    }
}

/// The decimal digits of `n`, most significant first.
pub open spec fn digits(n: int) -> Seq<char>
    decreases n,
{
    if n < 10 {
        seq![dc(n)]
    } else {
        digits(n / 10).push(dc(n % 10))
    }
}

pub open spec fn pow10(k: nat) -> int
    decreases k,
{
    if k == 0 {
        1
    } else {
        10 * pow10((k - 1) as nat)
    }
}

/// The number denoted by a digit sequence, most significant digit first.
pub open spec fn seqval(d: Seq<char>) -> int
    decreases d.len(),
{
    if d.len() == 0 {
        0
    } else {
        dval(d[0]) * pow10((d.len() - 1) as nat) + seqval(d.subrange(1, d.len() as int))
    }
}

/// The canonical digits of a fractional part `1 <= f <= 999`: three digits
/// with trailing zeros removed.
pub open spec fn frac_digits(f: int) -> Seq<char> {
    if f % 10 != 0 {
        seq![dc(f / 100), dc((f / 10) % 10), dc(f % 10)]
    } else if f % 100 != 0 {
        seq![dc(f / 100), dc((f / 10) % 10)]
    } else {
        seq![dc(f / 100)]
    }
}

/// The canonical text of the number `v` milli-units: an optional sign, the
/// whole part, and a fractional part only when it is non-zero.
pub open spec fn num_chars(v: int) -> Seq<char> {
    let m = if v < 0 {
        -v
    } else {
        v
    };
    let sign: Seq<char> = if v < 0 {
        seq!['-']
    } else {
        seq![]
    };
    if m % 1000 == 0 {
        sign + digits(m / 1000)
    } else {
        sign + digits(m / 1000) + seq!['.'] + frac_digits(m % 1000)
    }
}

/// The escape of one string character: quotes and backslashes get a
/// backslash, control characters a `\u00xx` form, everything else stands as
/// itself.
pub open spec fn esc_char(c: char) -> Seq<char> {
    if c == '"' {
        seq!['\\', '"']
    } else if c == '\\' {
        seq!['\\', '\\']
    } else if (c as u32) < 32 {
        seq!['\\', 'u', '0', '0', hexc((c as u32 / 16) as int), hexc((c as u32 % 16) as int)]
    } else {
        seq![c]
    }
}

/// The escaped body of a string.
pub open spec fn esc(t: Seq<char>) -> Seq<char>
    decreases t.len(),
{
    if t.len() == 0 {
        seq![]
    } else {
        esc_char(t[0]) + esc(t.subrange(1, t.len() as int))
    }
}

/// A string in its quoted, escaped text form.
pub open spec fn str_chars(t: Seq<char>) -> Seq<char> {
    seq!['"'] + esc(t) + seq!['"']
}

/// The canonical text of a document.
pub open spec fn pv(j: JsonV) -> Seq<char>
    decreases j,
{
    match j {
        JsonV::Null => seq!['n', 'u', 'l', 'l'],
        JsonV::Num(v) => num_chars(v),
        JsonV::Str(t) => str_chars(t),
        JsonV::Arr(es) => seq!['['] + (if es.len() == 0 {
            seq![]
        } else {
            arr_items(es)
        }) + seq![']'],
        JsonV::Obj(ms) => seq!['{'] + (if ms.len() == 0 {
            seq![]
        } else {
            obj_items(ms)
        }) + seq!['}'],
    }
}

/// The comma-separated texts of a non-empty run of array elements.
pub open spec fn arr_items(es: Seq<JsonV>) -> Seq<char>
    decreases es,
    via arr_items_decreases
{
    if es.len() == 0 {
        seq![]
    } else if es.len() == 1 {
        pv(es[0])
    } else {
        pv(es[0]) + seq![','] + arr_items(es.subrange(1, es.len() as int))
    }
}

#[via_fn]
proof fn arr_items_decreases(es: Seq<JsonV>) {
    if es.len() > 0 {
        assert(decreases_to!(es => es[0]));
    }
}

/// The comma-separated texts of a non-empty run of object members, each a
/// quoted key, a colon, and the member's value.
pub open spec fn obj_items(ms: Seq<(Seq<char>, JsonV)>) -> Seq<char>
    decreases ms,
    via obj_items_decreases
{
    if ms.len() == 0 {
        seq![]
    } else if ms.len() == 1 {
        str_chars(ms[0].0) + seq![':'] + pv(ms[0].1)
    } else {
        str_chars(ms[0].0) + seq![':'] + pv(ms[0].1) + seq![','] + obj_items(
            ms.subrange(1, ms.len() as int),
        )
    }
}

#[via_fn]
proof fn obj_items_decreases(ms: Seq<(Seq<char>, JsonV)>) {
    if ms.len() > 0 {
        assert(decreases_to!(ms => ms[0]));
        assert(decreases_to!(ms[0] => ms[0].1));
    }
}

/// Relies on `String: FromIterator<char>`: collecting characters yields the
/// string made of exactly those characters, in order.
#[verifier::external_body]
fn chars_to_string(v: &Vec<char>) -> (r: String)
    ensures
        r@ == v@,
{
    v.iter().collect()
}

/// The decimal digit character for `d`.
fn digit_char(d: u64) -> (r: char)
    requires
        d < 10,
    ensures
        r == dc(d as int),
{
    match d {
        0 => '0',
        1 => '1',
        2 => '2',
        3 => '3',
        4 => '4',
        5 => '5',
        6 => '6',
        7 => '7',
        8 => '8',
        _ => '9',
    }
}

/// The lowercase hexadecimal digit character for `d`.
fn hex_char(d: u32) -> (r: char)
    requires
        d < 16,
    ensures
        r == hexc(d as int),
{
    if d < 10 {
        digit_char(d as u64)
    } else {
        match d {
            10 => 'a',
            11 => 'b',
            12 => 'c',
            13 => 'd',
            14 => 'e',
            _ => 'f',
        }
    }
}

/// Append the decimal digits of `n`, most significant first.
fn push_digits(n: u64, out: &mut Vec<char>)
    ensures
        final(out)@ == old(out)@ + digits(n as int),
    decreases n,
{
    if n < 10 {
        out.push(digit_char(n));
    } else {
        push_digits(n / 10, out);
        out.push(digit_char(n % 10));
    }
}

/// Append the canonical text of the number `v` milli-units.
fn push_num(v: i64, out: &mut Vec<char>)
    ensures
        final(out)@ == old(out)@ + num_chars(v as int),
{
    let m: u64 = if v < 0 {
        out.push('-');
        (-(v + 1)) as u64 + 1
    } else {
        v as u64
    };
    push_digits(m / 1000, out);
    let f = m % 1000;
    if f != 0 {
        out.push('.');
        if f % 10 != 0 {
            out.push(digit_char(f / 100));
            out.push(digit_char((f / 10) % 10));
            out.push(digit_char(f % 10));
        } else if f % 100 != 0 {
            out.push(digit_char(f / 100));
            out.push(digit_char((f / 10) % 10));
        } else {
            out.push(digit_char(f / 100));
        }
    }
}

/// Escaping one more trailing character extends the escaped text by that
/// character's escape.
proof fn lemma_esc_append(t: Seq<char>, c: char)
    ensures
        esc(t.push(c)) == esc(t) + esc_char(c),
    decreases t.len(),
{
    if t.len() == 0 {
        assert(t.push(c)[0] == c);
        assert(t.push(c).subrange(1, t.push(c).len() as int) =~= Seq::<char>::empty());
        assert(esc(t.push(c)) =~= esc_char(c) + esc(Seq::<char>::empty()));
        assert(esc(t.push(c)) =~= esc_char(c));
        assert(esc(t) + esc_char(c) =~= esc_char(c));
    } else {
        assert(t.push(c)[0] == t[0]);
        assert(t.push(c).subrange(1, t.push(c).len() as int) =~= t.subrange(
            1,
            t.len() as int,
        ).push(c));
        lemma_esc_append(t.subrange(1, t.len() as int), c);
        assert(esc(t.push(c)) =~= esc(t) + esc_char(c));
    }
}

/// Append the quoted, escaped text of `t`.
fn push_str_chars(t: &str, out: &mut Vec<char>)
    ensures
        final(out)@ == old(out)@ + str_chars(t@),
{
    out.push('"');
    let n = t.unicode_len();
    let mut i: usize = 0;
    while i < n
        invariant
            n == t@.len(),
            0 <= i <= n,
            out@ == old(out)@ + seq!['"'] + esc(t@.subrange(0, i as int)),
        decreases n - i,
    {
        let c = t.get_char(i);
        proof {
            assert(t@.subrange(0, i as int).push(c) =~= t@.subrange(0, i + 1 as int));
            lemma_esc_append(t@.subrange(0, i as int), c);
        }
        if c == '"' {
            out.push('\\');
            out.push('"');
        } else if c == '\\' {
            out.push('\\');
            out.push('\\');
        } else if (c as u32) < 32 {
            out.push('\\');
            out.push('u');
            out.push('0');
            out.push('0');
            out.push(hex_char((c as u32) / 16));
            out.push(hex_char((c as u32) % 16));
        } else {
            out.push(c);
        }
        i = i + 1;
    }
    out.push('"');
    proof {
        assert(t@.subrange(0, t@.len() as int) =~= t@);
        assert(out@ =~= old(out)@ + str_chars(t@));
    }
}

/// Append the canonical text of the document `j`.
pub fn write_json(j: &Json, out: &mut Vec<char>)
    ensures
        final(out)@ == old(out)@ + pv(jv(*j)),
    decreases *j, 0int,
{
    match j {
        Json::Null => {
            out.push('n');
            out.push('u');
            out.push('l');
            out.push('l');
            proof {
                assert(out@ =~= old(out)@ + pv(jv(*j)));
            }
        },
        Json::Num(v) => {
            push_num(*v, out);
        },
        Json::Str(s) => {
            push_str_chars(s.as_str(), out);
        },
        Json::Arr(v) => {
            out.push('[');
            if v.len() > 0 {
                proof {
                    lemma_jv_list(v@);
                }
                write_arr_items(v, 0, out);
                proof {
                    assert(jv_list(v@).subrange(0, jv_list(v@).len() as int) =~= jv_list(v@));
                }
            }
            out.push(']');
            proof {
                assert(out@ =~= old(out)@ + pv(jv(*j)));
            }
        },
        Json::Obj(v) => {
            out.push('{');
            if v.len() > 0 {
                proof {
                    lemma_jv_members(v@);
                }
                write_obj_items(v, 0, out);
                proof {
                    assert(jv_members(v@).subrange(0, jv_members(v@).len() as int) =~= jv_members(
                        v@,
                    ));
                }
            }
            out.push('}');
            proof {
                assert(out@ =~= old(out)@ + pv(jv(*j)));
            }
        },
    }
}

/// Append the texts of the array elements from `i` on, comma-separated.
fn write_arr_items(v: &Vec<Json>, i: usize, out: &mut Vec<char>)
    requires
        i < v@.len(),
    ensures
        final(out)@ == old(out)@ + arr_items(jv_list(v@).subrange(i as int, jv_list(v@).len() as int)),
    decreases v@, v@.len() - i,
{
    proof {
        lemma_jv_list(v@);
        assert(decreases_to!(v@ => v@[i as int]));
    }
    write_json(&v[i], out);
    if v.len() - i > 1 {
        out.push(',');
        write_arr_items(v, i + 1, out);
    }
    proof {
        let es = jv_list(v@);
        let tail = es.subrange(i as int, es.len() as int);
        if i + 1 < v@.len() {
            assert(tail.subrange(1, tail.len() as int) =~= es.subrange(
                i + 1 as int,
                es.len() as int,
            ));
            assert(out@ =~= old(out)@ + arr_items(tail));
        } else {
            assert(tail =~= seq![es[i as int]]);
            assert(out@ =~= old(out)@ + arr_items(tail));
        }
    }
}

/// Append the texts of the object members from `i` on, comma-separated.
fn write_obj_items(v: &Vec<(String, Json)>, i: usize, out: &mut Vec<char>)
    requires
        i < v@.len(),
    ensures
        final(out)@ == old(out)@ + obj_items(
            jv_members(v@).subrange(i as int, jv_members(v@).len() as int),
        ),
    decreases v@, v@.len() - i,
{
    proof {
        lemma_jv_members(v@);
        assert(decreases_to!(v@ => v@[i as int]));
        assert(decreases_to!(v@[i as int] => v@[i as int].1));
    }
    push_str_chars(v[i].0.as_str(), out);
    out.push(':');
    write_json(&v[i].1, out);
    if v.len() - i > 1 {
        out.push(',');
        write_obj_items(v, i + 1, out);
    }
    proof {
        let ms = jv_members(v@);
        let tail = ms.subrange(i as int, ms.len() as int);
        if i + 1 < v@.len() {
            assert(tail.subrange(1, tail.len() as int) =~= ms.subrange(
                i + 1 as int,
                ms.len() as int,
            ));
            assert(out@ =~= old(out)@ + obj_items(tail));
        } else {
            assert(tail =~= seq![ms[i as int]]);
            assert(out@ =~= old(out)@ + obj_items(tail));
        }
    }
}

/// The canonical text of the document `j`.
pub fn json_to_text(j: &Json) -> (r: String)
    ensures
        r@ == pv(jv(*j)),
{
    let mut out: Vec<char> = Vec::new();
    write_json(j, &mut out);
    chars_to_string(&out)
}

/// A character that could extend a number: the parser may take a number only
/// where the character after it, if any, is none of these.
pub open spec fn num_cont(c: char) -> bool {
    is_digit(c) || c == '.'
}

/// JSON insignificant whitespace.
pub open spec fn is_ws(c: char) -> bool {
    c == ' ' || c == '\t' || c == '\n' || c == '\r'
}

/// The first index at or after `pos` that does not hold whitespace.
pub open spec fn sp_ws(s: Seq<char>, pos: int) -> int
    decreases s.len() - pos,
{
    if pos < 0 || pos >= s.len() || !is_ws(s[pos]) {
        pos
    } else {
        sp_ws(s, pos + 1)
    }
}

/// The value of a lowercase hexadecimal digit character, `-1` for any other
/// character.
pub open spec fn hexval(c: char) -> int {
    if is_digit(c) {
        dval(c)
    } else if c == 'a' {
        10
    } else if c == 'b' {
        11
    } else if c == 'c' {
        12
    } else if c == 'd' {
        13
    } else if c == 'e' {
        14
    } else if c == 'f' {
        15
    } else {
        -1
    }
}

/// Take the longest run of digits from `pos` on, folding them onto `acc`;
/// refuse a value beyond `IP_MAX`.
pub open spec fn sp_digits(s: Seq<char>, pos: int, acc: int, fuel: nat) -> Option<(int, int)>
    decreases fuel,
{
    if fuel == 0 {
        None
    } else if pos < s.len() && is_digit(s[pos]) {
        let a2 = acc * 10 + dval(s[pos]);
        if a2 > IP_MAX {
            None
        } else {
            sp_digits(s, pos + 1, a2, (fuel - 1) as nat)
        }
    } else {
        Some((acc, pos))
    }
}

/// The first index at or after `pos` that does not hold a digit.
pub open spec fn sp_skip_digits(s: Seq<char>, pos: int) -> int
    decreases s.len() - pos,
{
    if pos < 0 || pos >= s.len() || !is_digit(s[pos]) {
        pos
    } else {
        sp_skip_digits(s, pos + 1)
    }
}

/// Take the fractional digits after the decimal point: at least one; the
/// first three give the milli-unit value, any further digits are read and
/// dropped, truncating below the milli resolution.
pub open spec fn sp_frac(s: Seq<char>, pos: int) -> Option<(int, int)> {
    if pos >= s.len() || !is_digit(s[pos]) {
        None
    } else {
        let v1 = dval(s[pos]);
        if pos + 1 < s.len() && is_digit(s[pos + 1]) {
            let v2 = dval(s[pos + 1]);
            if pos + 2 < s.len() && is_digit(s[pos + 2]) {
                let v3 = dval(s[pos + 2]);
                Some((v1 * 100 + v2 * 10 + v3, sp_skip_digits(s, pos + 3)))
            } else {
                Some((v1 * 100 + v2 * 10, pos + 2))
            }
        } else {
            Some((v1 * 100, pos + 1))
        }
    }
}

/// Take a number: optional sign, whole part without leading zeros,
/// optional fractional part. The value is in milli-units.
pub open spec fn sp_number(s: Seq<char>, pos: int, fuel: nat) -> Option<(int, int)> {
    let neg = pos < s.len() && s[pos] == '-';
    let p = if neg {
        pos + 1
    } else {
        pos
    };
    if p >= s.len() || !is_digit(s[p]) {
        None
    } else {
        let ipr = if s[p] == '0' {
            if p + 1 < s.len() && is_digit(s[p + 1]) {
                None
            } else {
                Some((0int, p + 1))
            }
        } else {
            sp_digits(s, p, 0, fuel)
        };
        match ipr {
            None => None,
            Some((ip, q)) => {
                let fr = if q < s.len() && s[q] == '.' {
                    sp_frac(s, q + 1)
                } else {
                    Some((0int, q))
                };
                match fr {
                    None => None,
                    Some((f, end)) => {
                        let m = ip * 1000 + f;
                        if neg {
                            Some((-m, end))
                        } else {
                            Some((m, end))
                        }
                    },
                }
            },
        }
    }
}

/// Take the body of a string up to and including the closing quote,
/// accepting exactly the escapes the printer emits.
pub open spec fn sp_str_body(s: Seq<char>, pos: int, fuel: nat) -> Option<(Seq<char>, int)>
    decreases fuel,
{
    if fuel == 0 || pos >= s.len() {
        None
    } else {
        let c = s[pos];
        if c == '"' {
            Some((seq![], pos + 1))
        } else if c == '\\' {
            if pos + 1 >= s.len() {
                None
            } else {
                let e = s[pos + 1];
                if e == '"' || e == '\\' || e == '/' {
                    match sp_str_body(s, pos + 2, (fuel - 1) as nat) {
                        None => None,
                        Some((t, end)) => Some((seq![e] + t, end)),
                    }
                } else if e == 'n' || e == 't' || e == 'r' || e == 'b' || e == 'f' {
                    match sp_str_body(s, pos + 2, (fuel - 1) as nat) {
                        None => None,
                        Some((t, end)) => Some(
                            (
                                seq![
                                    if e == 'n' {
                                        (10u8) as char
                                    } else if e == 't' {
                                        (9u8) as char
                                    } else if e == 'r' {
                                        (13u8) as char
                                    } else if e == 'b' {
                                        (8u8) as char
                                    } else {
                                        (12u8) as char
                                    },
                                ] + t,
                                end,
                            ),
                        ),
                    }
                } else if e == 'u' {
                    if pos + 5 >= s.len() {
                        None
                    } else if s[pos + 2] == '0' && s[pos + 3] == '0' && hexval(s[pos + 4]) >= 0
                        && hexval(s[pos + 5]) >= 0 && hexval(s[pos + 4]) * 16 + hexval(s[pos + 5])
                        < 32 {
                        let v = hexval(s[pos + 4]) * 16 + hexval(s[pos + 5]);
                        match sp_str_body(s, pos + 6, (fuel - 1) as nat) {
                            None => None,
                            Some((t, end)) => Some((seq![(v as u8) as char] + t, end)),
                        }
                    } else {
                        None
                    }
                } else {
                    None
                }
            }
        } else if (c as u32) < 32 {
            None
        } else {
            match sp_str_body(s, pos + 1, (fuel - 1) as nat) {
                None => None,
                Some((t, end)) => Some((seq![c] + t, end)),
            }
        }
    }
}

/// Take one document, tolerating whitespace between tokens.
pub open spec fn sp_value(s: Seq<char>, pos: int, fuel: nat) -> Option<(JsonV, int)>
    decreases fuel,
{
    let p = sp_ws(s, pos);
    if fuel == 0 || p >= s.len() {
        None
    } else {
        let c = s[p];
        if c == 'n' {
            if p + 4 <= s.len() && s[p + 1] == 'u' && s[p + 2] == 'l' && s[p + 3] == 'l' {
                Some((JsonV::Null, p + 4))
            } else {
                None
            }
        } else if c == '"' {
            match sp_str_body(s, p + 1, (fuel - 1) as nat) {
                None => None,
                Some((t, end)) => Some((JsonV::Str(t), end)),
            }
        } else if c == '-' || is_digit(c) {
            match sp_number(s, p, (fuel - 1) as nat) {
                None => None,
                Some((v, end)) => Some((JsonV::Num(v), end)),
            }
        } else if c == '[' {
            let q = sp_ws(s, p + 1);
            if q < s.len() && s[q] == ']' {
                Some((JsonV::Arr(seq![]), q + 1))
            } else {
                match sp_elems(s, p + 1, (fuel - 1) as nat) {
                    None => None,
                    Some((es, end)) => Some((JsonV::Arr(es), end)),
                }
            }
        } else if c == '{' {
            let q = sp_ws(s, p + 1);
            if q < s.len() && s[q] == '}' {
                Some((JsonV::Obj(seq![]), q + 1))
            } else {
                match sp_members(s, p + 1, (fuel - 1) as nat) {
                    None => None,
                    Some((ms, end)) => Some((JsonV::Obj(ms), end)),
                }
            }
        } else {
            None
        }
    }
}

/// Take a non-empty run of comma-separated array elements and the closing
/// bracket.
pub open spec fn sp_elems(s: Seq<char>, pos: int, fuel: nat) -> Option<(Seq<JsonV>, int)>
    decreases fuel,
{
    if fuel == 0 {
        None
    } else {
        match sp_value(s, pos, (fuel - 1) as nat) {
            None => None,
            Some((v, e)) => {
                let e2 = sp_ws(s, e);
                if e2 < s.len() && s[e2] == ',' {
                    match sp_elems(s, e2 + 1, (fuel - 1) as nat) {
                        None => None,
                        Some((es, end)) => Some((seq![v] + es, end)),
                    }
                } else if e2 < s.len() && s[e2] == ']' {
                    Some((seq![v], e2 + 1))
                } else {
                    None
                }
            },
        }
    }
}

/// Insert a member into a key-sorted run. Where a standing key compares
/// neither below nor above the new one — the same text — the run is kept as
/// it stands: the standing entry came later in the text and wins, as a map
/// built by inserting entries in text order would have it.
pub open spec fn map_insert(
    ms: Seq<(Seq<char>, JsonV)>,
    k: Seq<char>,
    v: JsonV,
) -> Seq<(Seq<char>, JsonV)>
    decreases ms.len(),
{
    if ms.len() == 0 {
        seq![(k, v)]
    } else if seq_lt(k, ms[0].0) {
        seq![(k, v)] + ms
    } else if seq_lt(ms[0].0, k) {
        seq![ms[0]] + map_insert(ms.subrange(1, ms.len() as int), k, v)
    } else {
        ms
    }
}

/// Take a non-empty run of comma-separated object members and the closing
/// brace.
pub open spec fn sp_members(s: Seq<char>, pos: int, fuel: nat) -> Option<
    (Seq<(Seq<char>, JsonV)>, int),
>
    decreases fuel,
{
    let p = sp_ws(s, pos);
    if fuel == 0 || p >= s.len() || s[p] != '"' {
        None
    } else {
        match sp_str_body(s, p + 1, (fuel - 1) as nat) {
            None => None,
            Some((k, e1)) => {
                let c1 = sp_ws(s, e1);
                if c1 >= s.len() || s[c1] != ':' {
                    None
                } else {
                    match sp_value(s, c1 + 1, (fuel - 1) as nat) {
                        None => None,
                        Some((v, e2)) => {
                            let e3 = sp_ws(s, e2);
                            if e3 < s.len() && s[e3] == ',' {
                                match sp_members(s, e3 + 1, (fuel - 1) as nat) {
                                    None => None,
                                    Some((ms, end)) => Some((map_insert(ms, k, v), end)),
                                }
                            } else if e3 < s.len() && s[e3] == '}' {
                                Some((seq![(k, v)], e3 + 1))
                            } else {
                                None
                            }
                        },
                    }
                }
            },
        }
    }
}

fn is_dig(c: char) -> (r: bool)
    ensures
        r == is_digit(c),
{
    let u = c as u32;
    48 <= u && u <= 57
}

fn dval_of(c: char) -> (r: i64)
    requires
        is_digit(c),
    ensures
        r == dval(c),
        0 <= r <= 9,
{
    ((c as u32) - 48) as i64
}

fn hexval_of(c: char) -> (r: i64)
    ensures
        r == hexval(c),
{
    if is_dig(c) {
        dval_of(c)
    } else {
        match c {
            'a' => 10,
            'b' => 11,
            'c' => 12,
            'd' => 13,
            'e' => 14,
            'f' => 15,
            _ => -1,
        }
    }
}

/// Whether two texts hold the same characters.
pub(crate) fn str_eq(a: &str, b: &str) -> (r: bool)
    ensures
        r == (a@ == b@),
{
    let an = a.unicode_len();
    let bn = b.unicode_len();
    if an != bn {
        proof {
            assert(a@ != b@);
        }
        return false;
    }
    let mut i: usize = 0;
    while i < an
        invariant
            an == a@.len(),
            bn == b@.len(),
            an == bn,
            0 <= i <= an,
            forall|k: int| 0 <= k < i ==> a@[k] == b@[k],
        decreases an - i,
    {
        if a.get_char(i) != b.get_char(i) {
            proof {
                assert(a@[i as int] != b@[i as int]);
            }
            return false;
        }
        i = i + 1;
    }
    proof {
        assert(a@ =~= b@);
    }
    true
}

/// Whether `a` comes strictly before `b` in lexicographic order.
fn str_lt(a: &str, b: &str) -> (r: bool)
    ensures
        r == seq_lt(a@, b@),
{
    let an = a.unicode_len();
    let bn = b.unicode_len();
    proof {
        assert(a@.subrange(0, an as int) =~= a@);
        assert(b@.subrange(0, bn as int) =~= b@);
    }
    let mut i: usize = 0;
    loop
        invariant
            0 <= i <= an,
            0 <= i <= bn,
            an == a@.len(),
            bn == b@.len(),
            seq_lt(a@, b@) == seq_lt(
                a@.subrange(i as int, an as int),
                b@.subrange(i as int, bn as int),
            ),
        decreases an - i,
    {
        if i >= bn {
            return false;
        }
        if i >= an {
            return true;
        }
        let ca = a.get_char(i);
        let cb = b.get_char(i);
        if (ca as u32) < (cb as u32) {
            return true;
        }
        if (ca as u32) > (cb as u32) {
            return false;
        }
        proof {
            let sa = a@.subrange(i as int, an as int);
            let sb = b@.subrange(i as int, bn as int);
            assert(sa.subrange(1, sa.len() as int) =~= a@.subrange(i + 1, an as int));
            assert(sb.subrange(1, sb.len() as int) =~= b@.subrange(i + 1, bn as int));
        }
        i = i + 1;
    }
}

fn is_ws_c(c: char) -> (r: bool)
    ensures
        r == is_ws(c),
{
    c == ' ' || c == '\t' || c == '\n' || c == '\r'
}

/// The first index at or after `pos` that does not hold whitespace.
fn skip_ws(s: &Vec<char>, pos: usize) -> (r: usize)
    requires
        pos <= s@.len(),
    ensures
        r as int == sp_ws(s@, pos as int),
        pos <= r <= s@.len(),
{
    let n = s.len();
    let mut i: usize = pos;
    while i < n
        invariant
            pos <= i <= n,
            n == s@.len(),
            sp_ws(s@, pos as int) == sp_ws(s@, i as int),
        decreases n - i,
    {
        if !is_ws_c(s[i]) {
            return i;
        }
        i = i + 1;
    }
    n
}

/// Take the longest run of digits, folding onto `acc`.
fn parse_digits(s: &Vec<char>, pos: usize, acc: i64, fuel: usize) -> (r: Option<(i64, usize)>)
    requires
        pos <= s@.len(),
        0 <= acc <= IP_MAX,
    ensures
        match r {
            Some((v, e)) => sp_digits(s@, pos as int, acc as int, fuel as nat) == Some(
                (v as int, e as int),
            ) && pos <= e <= s@.len() && 0 <= v <= IP_MAX && ((pos < s@.len() && is_digit(
                s@[pos as int],
            )) ==> pos < e),
            None => sp_digits(s@, pos as int, acc as int, fuel as nat) is None,
        },
    decreases fuel,
{
    if fuel == 0 {
        return None;
    }
    if pos < s.len() && is_dig(s[pos]) {
        let a2 = acc * 10 + dval_of(s[pos]);
        if a2 > IP_MAX {
            None
        } else {
            parse_digits(s, pos + 1, a2, fuel - 1)
        }
    } else {
        Some((acc, pos))
    }
}

/// Take a number, in milli-units.
fn parse_number(s: &Vec<char>, pos: usize, fuel: usize) -> (r: Option<(i64, usize)>)
    requires
        pos <= s@.len(),
    ensures
        match r {
            Some((v, e)) => sp_number(s@, pos as int, fuel as nat) == Some((v as int, e as int))
                && pos < e <= s@.len() && -NUM_ABS_MAX <= v <= NUM_ABS_MAX,
            None => sp_number(s@, pos as int, fuel as nat) is None,
        },
{
    let neg = pos < s.len() && s[pos] == '-';
    let p = if neg {
        pos + 1
    } else {
        pos
    };
    if p >= s.len() || !is_dig(s[p]) {
        return None;
    }
    let ipr: Option<(i64, usize)> = if s[p] == '0' {
        if p + 1 < s.len() && is_dig(s[p + 1]) {
            None
        } else {
            Some((0, p + 1))
        }
    } else {
        parse_digits(s, p, 0, fuel)
    };
    match ipr {
        None => None,
        Some((ip, q)) => {
            let fr: Option<(i64, usize)> = if q < s.len() && s[q] == '.' {
                parse_frac(s, q)
            } else {
                Some((0, q))
            };
            match fr {
                None => None,
                Some((f, end)) => {
                    let m = ip * 1000 + f;
                    if neg {
                        Some((-m, end))
                    } else {
                        Some((m, end))
                    }
                },
            }
        },
    }
}

/// The first index at or after `pos` that does not hold a digit.
fn skip_digits(s: &Vec<char>, pos: usize) -> (r: usize)
    requires
        pos <= s@.len(),
    ensures
        r as int == sp_skip_digits(s@, pos as int),
        pos <= r <= s@.len(),
{
    let n = s.len();
    let mut i: usize = pos;
    while i < n
        invariant
            pos <= i <= n,
            n == s@.len(),
            sp_skip_digits(s@, pos as int) == sp_skip_digits(s@, i as int),
        decreases n - i,
    {
        if !is_dig(s[i]) {
            return i;
        }
        i = i + 1;
    }
    n
}

/// Take the fractional digits after the decimal point at `dot`.
fn parse_frac(s: &Vec<char>, dot: usize) -> (r: Option<(i64, usize)>)
    requires
        dot < s@.len(),
    ensures
        match r {
            Some((f, e)) => sp_frac(s@, dot + 1) == Some((f as int, e as int)) && dot < e
                <= s@.len() && 0 <= f <= 999,
            None => sp_frac(s@, dot + 1) is None,
        },
{
    let n = s.len();
    let pos = dot + 1;
    if pos >= n || !is_dig(s[pos]) {
        return None;
    }
    let v1 = dval_of(s[pos]);
    if n - pos > 1 && is_dig(s[pos + 1]) {
        let v2 = dval_of(s[pos + 1]);
        if n - pos > 2 && is_dig(s[pos + 2]) {
            let v3 = dval_of(s[pos + 2]);
            let end = skip_digits(s, pos + 3);
            Some((v1 * 100 + v2 * 10 + v3, end))
        } else {
            Some((v1 * 100 + v2 * 10, pos + 2))
        }
    } else {
        Some((v1 * 100, pos + 1))
    }
}

/// Take a string body up to and including the closing quote.
fn parse_str_body(s: &Vec<char>, pos: usize, fuel: usize) -> (r: Option<(Vec<char>, usize)>)
    requires
        pos <= s@.len(),
    ensures
        match r {
            Some((t, e)) => sp_str_body(s@, pos as int, fuel as nat) == Some((t@, e as int))
                && pos < e <= s@.len(),
            None => sp_str_body(s@, pos as int, fuel as nat) is None,
        },
    decreases fuel,
{
    if fuel == 0 || pos >= s.len() {
        return None;
    }
    let c = s[pos];
    if c == '"' {
        let t: Vec<char> = Vec::new();
        proof {
            assert(t@ =~= Seq::<char>::empty());
        }
        Some((t, pos + 1))
    } else if c == '\\' {
        if s.len() - pos <= 1 {
            return None;
        }
        let e = s[pos + 1];
        if e == '"' || e == '\\' || e == '/' {
            match parse_str_body(s, pos + 2, fuel - 1) {
                None => None,
                Some((mut t, end)) => {
                    let ghost oldt = t@;
                    t.insert(0, e);
                    proof {
                        assert(t@ =~= seq![e] + oldt);
                        assert(sp_str_body(s@, pos as int, fuel as nat) == Some(
                            (t@, end as int),
                        ));
                    }
                    Some((t, end))
                },
            }
        } else if e == 'n' || e == 't' || e == 'r' || e == 'b' || e == 'f' {
            match parse_str_body(s, pos + 2, fuel - 1) {
                None => None,
                Some((mut t, end)) => {
                    let ch = if e == 'n' {
                        (10u8) as char
                    } else if e == 't' {
                        (9u8) as char
                    } else if e == 'r' {
                        (13u8) as char
                    } else if e == 'b' {
                        (8u8) as char
                    } else {
                        (12u8) as char
                    };
                    let ghost oldt = t@;
                    t.insert(0, ch);
                    proof {
                        assert(t@ =~= seq![ch] + oldt);
                        assert(sp_str_body(s@, pos as int, fuel as nat) == Some(
                            (t@, end as int),
                        ));
                    }
                    Some((t, end))
                },
            }
        } else if e == 'u' {
            if s.len() - pos <= 5 {
                return None;
            }
            if s[pos + 2] == '0' && s[pos + 3] == '0' && hexval_of(s[pos + 4]) >= 0 && hexval_of(
                s[pos + 5],
            ) >= 0 && hexval_of(s[pos + 4]) * 16 + hexval_of(s[pos + 5]) < 32 {
                let v = hexval_of(s[pos + 4]) * 16 + hexval_of(s[pos + 5]);
                match parse_str_body(s, pos + 6, fuel - 1) {
                    None => None,
                    Some((mut t, end)) => {
                        let ch = (v as u8) as char;
                        let ghost oldt = t@;
                        t.insert(0, ch);
                        proof {
                            assert(t@ =~= seq![ch] + oldt);
                            assert(sp_str_body(s@, pos as int, fuel as nat) == Some(
                                (t@, end as int),
                            ));
                        }
                        Some((t, end))
                    },
                }
            } else {
                None
            }
        } else {
            None
        }
    } else if (c as u32) < 32 {
        None
    } else {
        match parse_str_body(s, pos + 1, fuel - 1) {
            None => None,
            Some((mut t, end)) => {
                let ghost oldt = t@;
                t.insert(0, c);
                proof {
                    assert(t@ =~= seq![c] + oldt);
                    assert(c != '"' && c != '\\');
                    assert(!((c as u32) < 32));
                    assert(sp_str_body(s@, pos as int, fuel as nat) == Some((t@, end as int)));
                }
                Some((t, end))
            },
        }
    }
}

/// A text strictly below another is not also strictly above it.
proof fn lemma_seq_lt_asym(a: Seq<char>, b: Seq<char>)
    requires
        seq_lt(a, b),
    ensures
        !seq_lt(b, a),
    decreases a.len(),
{
    if b.len() == 0 {
    } else if a.len() == 0 {
    } else if (a[0] as u32) < (b[0] as u32) {
    } else if (a[0] as u32) > (b[0] as u32) {
    } else {
        lemma_seq_lt_asym(a.subrange(1, a.len() as int), b.subrange(1, b.len() as int));
    }
}

/// `map_insert` lands at the first position whose key is not below `k`:
/// on an equal key the run is unchanged, otherwise the member is inserted
/// there.
proof fn lemma_map_insert_at(ms: Seq<(Seq<char>, JsonV)>, k: Seq<char>, v: JsonV, idx: int)
    requires
        0 <= idx <= ms.len(),
        forall|t: int| 0 <= t < idx ==> seq_lt((#[trigger] ms[t]).0, k),
        idx < ms.len() ==> !seq_lt(ms[idx].0, k),
    ensures
        map_insert(ms, k, v) == (if idx < ms.len() && !seq_lt(k, ms[idx].0) {
            ms
        } else {
            ms.insert(idx, (k, v))
        }),
    decreases idx,
{
    if ms.len() == 0 {
        assert(map_insert(ms, k, v) =~= ms.insert(0, (k, v)));
    } else if idx == 0 {
        if seq_lt(k, ms[0].0) {
            assert(map_insert(ms, k, v) =~= ms.insert(0, (k, v)));
        }
    } else {
        assert(seq_lt(ms[0].0, k));
        lemma_seq_lt_asym(ms[0].0, k);
        assert(!seq_lt(k, ms[0].0));
        let tail = ms.subrange(1, ms.len() as int);
        assert forall|t: int| 0 <= t < idx - 1 implies seq_lt((#[trigger] tail[t]).0, k) by {
            assert(tail[t] == ms[t + 1]);
        }
        if idx - 1 < tail.len() {
            assert(tail[idx - 1] == ms[idx]);
        }
        lemma_map_insert_at(tail, k, v, idx - 1);
        if idx < ms.len() && !seq_lt(k, ms[idx].0) {
            assert(map_insert(ms, k, v) =~= seq![ms[0]] + tail);
            assert(seq![ms[0]] + tail =~= ms);
        } else {
            assert(map_insert(ms, k, v) =~= seq![ms[0]] + tail.insert(idx - 1, (k, v)));
            assert(seq![ms[0]] + tail.insert(idx - 1, (k, v)) =~= ms.insert(idx, (k, v)));
        }
    }
}

/// Abstracting an insertion inserts the abstracted member.
proof fn lemma_jv_members_insert(v: Seq<(String, Json)>, idx: int, p: (String, Json))
    requires
        0 <= idx <= v.len(),
    ensures
        jv_members(v.insert(idx, p)) == jv_members(v).insert(idx, (p.0@, jv(p.1))),
{
    lemma_jv_members(v);
    lemma_jv_members(v.insert(idx, p));
    v.insert_ensures(idx, p);
    jv_members(v).insert_ensures(idx, (p.0@, jv(p.1)));
    assert(jv_members(v.insert(idx, p)) =~= jv_members(v).insert(idx, (p.0@, jv(p.1))));
}

/// Take one document, tolerating whitespace between tokens.
fn parse_value(s: &Vec<char>, pos: usize, fuel: usize) -> (r: Option<(Json, usize)>)
    requires
        pos <= s@.len(),
    ensures
        match r {
            Some((j, e)) => sp_value(s@, pos as int, fuel as nat) == Some((jv(j), e as int)) && pos
                < e <= s@.len(),
            None => sp_value(s@, pos as int, fuel as nat) is None,
        },
    decreases fuel,
{
    let p = skip_ws(s, pos);
    if fuel == 0 || p >= s.len() {
        return None;
    }
    let c = s[p];
    if c == 'n' {
        if s.len() - p >= 4 && s[p + 1] == 'u' && s[p + 2] == 'l' && s[p + 3] == 'l' {
            let j = Json::Null;
            proof {
                assert(sp_value(s@, pos as int, fuel as nat) == Some((jv(j), p + 4 as int)));
            }
            Some((j, p + 4))
        } else {
            None
        }
    } else if c == '"' {
        match parse_str_body(s, p + 1, fuel - 1) {
            None => None,
            Some((t, end)) => {
                let j = Json::Str(chars_to_string(&t));
                proof {
                    assert(sp_value(s@, pos as int, fuel as nat) == Some((jv(j), end as int)));
                }
                Some((j, end))
            },
        }
    } else if c == '-' || is_dig(c) {
        match parse_number(s, p, fuel - 1) {
            None => None,
            Some((v, end)) => {
                let j = Json::Num(v);
                proof {
                    assert(sp_value(s@, pos as int, fuel as nat) == Some((jv(j), end as int)));
                }
                Some((j, end))
            },
        }
    } else if c == '[' {
        let q = skip_ws(s, p + 1);
        if q < s.len() && s[q] == ']' {
            let es: Vec<Json> = Vec::new();
            proof {
                assert(jv_list(es@) =~= Seq::<JsonV>::empty());
            }
            let j = Json::Arr(es);
            proof {
                assert(sp_value(s@, pos as int, fuel as nat) == Some((jv(j), q + 1 as int)));
            }
            Some((j, q + 1))
        } else {
            match parse_elems(s, p + 1, fuel - 1) {
                None => None,
                Some((es, end)) => {
                    let j = Json::Arr(es);
                    proof {
                        assert(sp_value(s@, pos as int, fuel as nat) == Some((jv(j), end as int)));
                    }
                    Some((j, end))
                },
            }
        }
    } else if c == '{' {
        let q = skip_ws(s, p + 1);
        if q < s.len() && s[q] == '}' {
            let ms: Vec<(String, Json)> = Vec::new();
            proof {
                assert(jv_members(ms@) =~= Seq::<(Seq<char>, JsonV)>::empty());
            }
            let j = Json::Obj(ms);
            proof {
                assert(sp_value(s@, pos as int, fuel as nat) == Some((jv(j), q + 1 as int)));
            }
            Some((j, q + 1))
        } else {
            match parse_members(s, p + 1, fuel - 1) {
                None => None,
                Some((ms, end)) => {
                    let j = Json::Obj(ms);
                    proof {
                        assert(sp_value(s@, pos as int, fuel as nat) == Some((jv(j), end as int)));
                    }
                    Some((j, end))
                },
            }
        }
    } else {
        None
    }
}

/// Take a non-empty run of array elements and the closing bracket.
fn parse_elems(s: &Vec<char>, pos: usize, fuel: usize) -> (r: Option<(Vec<Json>, usize)>)
    requires
        pos <= s@.len(),
    ensures
        match r {
            Some((es, e)) => sp_elems(s@, pos as int, fuel as nat) == Some((jv_list(es@), e as int))
                && pos < e <= s@.len(),
            None => sp_elems(s@, pos as int, fuel as nat) is None,
        },
    decreases fuel,
{
    if fuel == 0 {
        return None;
    }
    match parse_value(s, pos, fuel - 1) {
        None => None,
        Some((v, e)) => {
            let e2 = skip_ws(s, e);
            if e2 < s.len() && s[e2] == ',' {
                match parse_elems(s, e2 + 1, fuel - 1) {
                    None => None,
                    Some((mut es, end)) => {
                        let ghost olde = es@;
                        es.insert(0, v);
                        proof {
                            assert(es@.subrange(1, es@.len() as int) =~= olde);
                            assert(jv_list(es@) =~= seq![jv(es@[0])] + jv_list(olde));
                            assert(jv_list(es@) =~= seq![jv(v)] + jv_list(olde));
                        }
                        Some((es, end))
                    },
                }
            } else if e2 < s.len() && s[e2] == ']' {
                let mut es: Vec<Json> = Vec::new();
                es.push(v);
                proof {
                    assert(es@.subrange(1, es@.len() as int) =~= Seq::<Json>::empty());
                    assert(jv_list(es@.subrange(1, es@.len() as int)) =~= Seq::<JsonV>::empty());
                    assert(es@[0] == v);
                    assert(jv_list(es@) =~= seq![jv(v)]);
                }
                Some((es, e2 + 1))
            } else {
                None
            }
        },
    }
}

/// Take a non-empty run of object members and the closing brace.
#[verifier::loop_isolation(false)]
fn parse_members(s: &Vec<char>, pos: usize, fuel: usize) -> (r: Option<
    (Vec<(String, Json)>, usize),
>)
    requires
        pos <= s@.len(),
    ensures
        match r {
            Some((ms, e)) => sp_members(s@, pos as int, fuel as nat) == Some(
                (jv_members(ms@), e as int),
            ) && pos < e <= s@.len(),
            None => sp_members(s@, pos as int, fuel as nat) is None,
        },
    decreases fuel,
{
    let p = skip_ws(s, pos);
    if fuel == 0 || p >= s.len() || s[p] != '"' {
        return None;
    }
    match parse_str_body(s, p + 1, fuel - 1) {
        None => None,
        Some((k, e1)) => {
            let c1 = skip_ws(s, e1);
            if c1 >= s.len() || s[c1] != ':' {
                return None;
            }
            match parse_value(s, c1 + 1, fuel - 1) {
                None => None,
                Some((v, e2)) => {
                    let key = chars_to_string(&k);
                    let e3 = skip_ws(s, e2);
                    if e3 < s.len() && s[e3] == ',' {
                        match parse_members(s, e3 + 1, fuel - 1) {
                            None => None,
                            Some((mut ms, end)) => {
                                let ghost oldm = ms@;
                                proof {
                                    lemma_jv_members(oldm);
                                }
                                let mut idx: usize = 0;
                                while idx < ms.len() && str_lt(ms[idx].0.as_str(), key.as_str())
                                    invariant
                                        0 <= idx <= oldm.len(),
                                        ms@ == oldm,
                                        forall|t: int|
                                            0 <= t < idx ==> seq_lt(
                                                (#[trigger] jv_members(oldm)[t]).0,
                                                key@,
                                            ),
                                    decreases oldm.len() - idx,
                                {
                                    idx = idx + 1;
                                }
                                proof {
                                    lemma_map_insert_at(jv_members(oldm), key@, jv(v), idx as int);
                                }
                                if idx < ms.len() && !str_lt(key.as_str(), ms[idx].0.as_str()) {
                                    // A later entry with this key already
                                    // stands; in a map built in text order
                                    // it wins, so this one is dropped.
                                } else {
                                    proof {
                                        lemma_jv_members_insert(oldm, idx as int, (key, v));
                                    }
                                    ms.insert(idx, (key, v));
                                }
                                Some((ms, end))
                            },
                        }
                    } else if e3 < s.len() && s[e3] == '}' {
                        let mut ms: Vec<(String, Json)> = Vec::new();
                        ms.push((key, v));
                        proof {
                            assert(ms@.subrange(1, ms@.len() as int) =~= Seq::<
                                (String, Json),
                            >::empty());
                            assert(jv_members(ms@.subrange(1, ms@.len() as int)) =~= Seq::<
                                (Seq<char>, JsonV),
                            >::empty());
                            assert(ms@[0] == (key, v));
                            assert(jv_members(ms@) =~= seq![(key@, jv(v))]);
                        }
                        Some((ms, e3 + 1))
                    } else {
                        None
                    }
                },
            }
        },
    }
}

/// Parse a whole text into a document.
pub fn parse_text(t: &str) -> (r: Option<Json>)
    ensures
        match r {
            Some(j) => spec_parse_text(t@) == Some(jv(j)),
            None => spec_parse_text(t@) is None,
        },
{
    let n = t.unicode_len();
    if n >= usize::MAX / 2 - 1 {
        return None;
    }
    let mut s: Vec<char> = Vec::new();
    let mut i: usize = 0;
    while i < n
        invariant
            n == t@.len(),
            0 <= i <= n,
            s@ =~= t@.subrange(0, i as int),
        decreases n - i,
    {
        s.push(t.get_char(i));
        proof {
            assert(t@.subrange(0, i as int).push(t@[i as int]) =~= t@.subrange(0, i + 1 as int));
        }
        i = i + 1;
    }
    proof {
        assert(s@ =~= t@);
    }
    match parse_value(&s, 0, 2 * n + 2) {
        None => None,
        Some((j, e)) => if skip_ws(&s, e) == n {
            Some(j)
        } else {
            None
        },
    }
}

/// The document denoted by a whole text, if any.
pub open spec fn spec_parse_text(t: Seq<char>) -> Option<JsonV> {
    if t.len() >= usize::MAX / 2 - 1 {
        None
    } else {
        match sp_value(t, 0, (2 * t.len() + 2) as nat) {
            None => None,
            Some((j, e)) => if sp_ws(t, e) == t.len() {
                Some(j)
            } else {
                None
            },
        }
    }
}

/// Basic facts about a number's digit string: non-empty, all digits, no
/// leading zero unless the number is zero itself.
proof fn lemma_digits_shape(n: int)
    requires
        n >= 0,
    ensures
        digits(n).len() >= 1,
        forall|i: int| 0 <= i < digits(n).len() ==> is_digit(#[trigger] digits(n)[i]),
        n >= 1 ==> digits(n)[0] != '0',
        n == 0 ==> digits(n) == seq!['0'],
        n < 10 ==> digits(n) == seq![dc(n)],
    decreases n,
{
    if n >= 10 {
        lemma_digits_shape(n / 10);
    }
}

proof fn lemma_pow10_pos(k: nat)
    ensures
        pow10(k) >= 1,
    decreases k,
{
    if k > 0 {
        lemma_pow10_pos((k - 1) as nat);
    }
}

/// The value of a digit string grows by a factor of ten when a digit is
/// appended.
proof fn lemma_seqval_push(d: Seq<char>, c: char)
    ensures
        seqval(d.push(c)) == 10 * seqval(d) + dval(c),
    decreases d.len(),
{
    if d.len() == 0 {
        assert(d.push(c)[0] == c);
        let rest = d.push(c).subrange(1, d.push(c).len() as int);
        assert(rest =~= Seq::<char>::empty());
        assert(seqval(rest) == 0);
        assert(seqval(d.push(c)) == dval(c) * pow10(0) + 0);
        assert(seqval(d) == 0);
    } else {
        assert(d.push(c)[0] == d[0]);
        let tail = d.subrange(1, d.len() as int);
        assert(d.push(c).subrange(1, d.push(c).len() as int) =~= tail.push(c));
        lemma_seqval_push(tail, c);
        let k = (d.len() - 1) as nat;
        assert(pow10((k + 1) as nat) == 10 * pow10(k));
        assert(dval(d[0]) * pow10((k + 1) as nat) == 10 * (dval(d[0]) * pow10(k)))
            by (nonlinear_arith)
            requires pow10((k + 1) as nat) == 10 * pow10(k);
        let a = dval(d[0]);
        let p0 = pow10(k);
        let p1 = pow10((k + 1) as nat);
        let t = seqval(tail);
        assert(p1 == pow10(d.len() as nat));
        assert(seqval(d.push(c)) == a * pow10(
            (d.push(c).len() - 1) as nat,
        ) + seqval(tail.push(c)));
        assert(seqval(d.push(c)) == a * p1 + (10 * t + dval(c)));
        assert(seqval(d) == a * p0 + t);
        assert(10 * seqval(d) + dval(c) == 10 * (a * p0) + 10 * t + dval(c));
        assert(seqval(d.push(c)) == 10 * seqval(d) + dval(c));
    }
}

/// A number's digit string denotes the number.
proof fn lemma_digits_value(n: int)
    requires
        n >= 0,
    ensures
        seqval(digits(n)) == n,
    decreases n,
{
    if n < 10 {
        assert(digits(n).subrange(1, digits(n).len() as int) =~= Seq::<char>::empty());
        assert(seqval(Seq::<char>::empty()) == 0);
        assert(digits(n) == seq![dc(n)]);
        assert(dval(dc(n)) == n);
        assert(seqval(digits(n)) == dval(dc(n)) * pow10(0) + 0);
    } else {
        lemma_digits_value(n / 10);
        lemma_seqval_push(digits(n / 10), dc(n % 10));
        assert(dval(dc(n % 10)) == n % 10);
        assert(seqval(digits(n)) == 10 * (n / 10) + n % 10);
    }
}

/// The digit run parser folds a placed digit string onto its accumulator.
proof fn lemma_sp_digits_run(s: Seq<char>, pos: int, acc: int, d: Seq<char>, fuel: nat)
    requires
        0 <= pos,
        pos + d.len() <= s.len(),
        d.len() >= 1,
        forall|i: int| 0 <= i < d.len() ==> is_digit(#[trigger] d[i]),
        forall|i: int| 0 <= i < d.len() ==> s[pos + i] == d[i],
        pos + d.len() == s.len() || !is_digit(s[pos + d.len()]),
        0 <= acc,
        acc * pow10(d.len() as nat) + seqval(d) <= IP_MAX,
        fuel >= d.len() + 1,
    ensures
        sp_digits(s, pos, acc, fuel) == Some((acc * pow10(d.len() as nat) + seqval(d), pos + d.len())),
    decreases d.len(),
{
    let a2 = acc * 10 + dval(d[0]);
    assert(s[pos] == d[0]);
    let tail = d.subrange(1, d.len() as int);
    lemma_pow10_pos((d.len() - 1) as nat);
    assert(seqval(d) == dval(d[0]) * pow10((d.len() - 1) as nat) + seqval(tail));
    assert(seqval(tail) >= 0) by {
        lemma_seqval_nonneg(tail);
    }
    assert(acc * pow10(d.len() as nat) == (acc * 10) * pow10((d.len() - 1) as nat))
        by (nonlinear_arith)
        requires pow10(d.len() as nat) == 10 * pow10((d.len() - 1) as nat);
    assert(a2 * pow10((d.len() - 1) as nat) + seqval(tail) == acc * pow10(d.len() as nat)
        + seqval(d)) by (nonlinear_arith)
        requires
            a2 == acc * 10 + dval(d[0]),
            acc * pow10(d.len() as nat) == (acc * 10) * pow10((d.len() - 1) as nat),
            seqval(d) == dval(d[0]) * pow10((d.len() - 1) as nat) + seqval(tail);
    assert(a2 <= IP_MAX) by (nonlinear_arith)
        requires
            a2 * pow10((d.len() - 1) as nat) + seqval(tail) <= IP_MAX,
            pow10((d.len() - 1) as nat) >= 1,
            seqval(tail) >= 0,
            a2 >= 0;
    if d.len() == 1 {
        assert(seqval(tail) == 0);
        assert(sp_digits(s, pos + 1, a2, (fuel - 1) as nat) == Some((a2, pos + 1)));
    } else {
        assert forall|i: int| 0 <= i < tail.len() implies s[pos + 1 + i] == #[trigger] tail[i] by {
            assert(tail[i] == d[i + 1]);
        }
        lemma_sp_digits_run(s, pos + 1, a2, tail, (fuel - 1) as nat);
    }
}

/// A digit string's value is never negative.
proof fn lemma_seqval_nonneg(d: Seq<char>)
    requires
        forall|i: int| 0 <= i < d.len() ==> is_digit(#[trigger] d[i]),
    ensures
        seqval(d) >= 0,
    decreases d.len(),
{
    if d.len() > 0 {
        lemma_seqval_nonneg(d.subrange(1, d.len() as int));
        lemma_pow10_pos((d.len() - 1) as nat);
        assert(dval(d[0]) * pow10((d.len() - 1) as nat) >= 0) by (nonlinear_arith)
            requires dval(d[0]) >= 0, pow10((d.len() - 1) as nat) >= 1;
    }
}

/// A placed fractional part parses back to its value.
proof fn lemma_sp_frac(f: int, s: Seq<char>, dot: int)
    requires
        1 <= f <= 999,
        0 <= dot,
        dot + 1 + frac_digits(f).len() <= s.len(),
        forall|i: int| 0 <= i < frac_digits(f).len() ==> s[dot + 1 + i] == #[trigger] frac_digits(
            f,
        )[i],
        dot + 1 + frac_digits(f).len() == s.len() || !is_digit(s[dot + 1 + frac_digits(f).len()]),
    ensures
        sp_frac(s, dot + 1) == Some((f, dot + 1 + frac_digits(f).len())),
{
    lemma_fundamental_div_mod(f, 100);
    lemma_mod_breakdown(f, 10, 10);
    lemma_fundamental_div_mod(f, 10);
    let v1 = f / 100;
    let v2 = (f / 10) % 10;
    let v3 = f % 10;
    assert(f == 100 * v1 + 10 * v2 + v3) by {
        assert(f % 100 == 10 * ((f / 10) % 10) + f % 10);
    }
    assert(0 <= v1 <= 9 && 0 <= v2 <= 9 && 0 <= v3 <= 9);
    if f % 10 != 0 {
        assert(frac_digits(f) == seq![dc(v1), dc(v2), dc(v3)]);
        assert(frac_digits(f)[0] == dc(v1) && frac_digits(f)[1] == dc(v2) && frac_digits(f)[2]
            == dc(v3));
        assert(s[dot + 1] == dc(v1) && s[dot + 2] == dc(v2) && s[dot + 3] == dc(v3));
        assert(dval(dc(v1)) == v1 && dval(dc(v2)) == v2 && dval(dc(v3)) == v3);
    } else if f % 100 != 0 {
        assert(v3 == 0);
        assert(v2 != 0);
        assert(frac_digits(f) == seq![dc(v1), dc(v2)]);
        assert(frac_digits(f)[0] == dc(v1) && frac_digits(f)[1] == dc(v2));
        assert(s[dot + 1] == dc(v1) && s[dot + 2] == dc(v2));
        assert(dval(dc(v1)) == v1 && dval(dc(v2)) == v2);
        assert(f == v1 * 100 + v2 * 10);
    } else {
        assert(v3 == 0);
        assert(v2 == 0) by {
            assert(f % 100 == 10 * v2 + v3);
        }
        assert(v1 != 0);
        assert(frac_digits(f) == seq![dc(v1)]);
        assert(frac_digits(f)[0] == dc(v1));
        assert(s[dot + 1] == dc(v1));
        assert(dval(dc(v1)) == v1);
        assert(f == v1 * 100);
    }
}

/// A placed canonical number parses back to its value.
proof fn lemma_sp_number(v: int, s: Seq<char>, pos: int, fuel: nat)
    requires
        -NUM_ABS_MAX <= v <= NUM_ABS_MAX,
        0 <= pos,
        pos + num_chars(v).len() <= s.len(),
        forall|i: int| 0 <= i < num_chars(v).len() ==> s[pos + i] == #[trigger] num_chars(v)[i],
        pos + num_chars(v).len() == s.len() || !num_cont(s[pos + num_chars(v).len()]),
        fuel >= num_chars(v).len() + 1,
    ensures
        sp_number(s, pos, fuel) == Some((v, pos + num_chars(v).len())),
{
    let m = if v < 0 { -v } else { v };
    let ip = m / 1000;
    let fp = m % 1000;
    lemma_fundamental_div_mod(m, 1000);
    let d = digits(ip);
    lemma_digits_shape(ip);
    lemma_digits_value(ip);
    let p = if v < 0 { pos + 1 } else { pos };
    let sign_len: int = if v < 0 { 1 } else { 0 };
    let nc = num_chars(v);
    if v < 0 {
        assert(s[pos] == nc[0]);
        assert(nc[0] == '-');
    }
    assert forall|i: int| 0 <= i < d.len() implies s[p + i] == #[trigger] d[i] by {
        assert(nc[sign_len + i] == d[i]);
        assert(s[pos + (sign_len + i)] == nc[sign_len + i]);
    }
    assert(is_digit(s[p]));
    assert(s[p] != '-');
    assert(!(s[p] == '-'));
    if v >= 0 {
        assert(!(pos < s.len() && s[pos] == '-')) by {
            assert(s[pos] == nc[0]);
            assert(nc[0] == d[0]);
        }
    }
    let q = p + d.len();
    if fp == 0 {
        assert(nc.len() == sign_len + d.len());
        assert(q == pos + nc.len());
        assert(q == s.len() || !num_cont(s[q]));
        if ip == 0 {
            assert(d == seq!['0']);
            assert(s[p] == '0');
            assert(m == 0);
            assert(v == 0);
            assert(!(p + 1 < s.len() && is_digit(s[p + 1])));
            assert(sp_number(s, pos, fuel) == Some((0int, q)));
        } else {
            assert(d[0] != '0');
            assert(s[p] != '0');
            assert(ip <= IP_MAX);
            lemma_pow10_pos(d.len() as nat);
            assert(0 * pow10(d.len() as nat) + seqval(d) == ip);
            lemma_sp_digits_run(s, p, 0, d, fuel);
            assert(!(q < s.len() && s[q] == '.'));
            assert(m == ip * 1000);
        }
    } else {
        let fd = frac_digits(fp);
        assert(nc.len() == sign_len + d.len() + 1 + fd.len());
        assert(nc[sign_len + d.len()] == '.');
        assert(s[q] == '.');
        assert(!is_digit('.'));
        assert forall|i: int| 0 <= i < fd.len() implies s[q + 1 + i] == #[trigger] fd[i] by {
            assert(nc[sign_len + d.len() + 1 + i] == fd[i]);
            assert(s[pos + (sign_len + d.len() + 1 + i)] == nc[sign_len + d.len() + 1 + i]);
        }
        assert(q + 1 + fd.len() == pos + nc.len());
        lemma_sp_frac(fp, s, q);
        if ip == 0 {
            assert(d == seq!['0']);
            assert(s[p] == '0');
            assert(!(p + 1 < s.len() && is_digit(s[p + 1]))) by {
                assert(s[p + 1] == '.');
            }
        } else {
            assert(d[0] != '0');
            assert(ip <= IP_MAX);
            assert(0 * pow10(d.len() as nat) + seqval(d) == ip);
            lemma_sp_digits_run(s, p, 0, d, fuel);
        }
        assert(m == ip * 1000 + fp);
        if v < 0 {
            assert(m > 0);
        }
    }
}

/// A placed escaped string body, with its closing quote, parses back to the
/// unescaped text.
proof fn lemma_sp_str_body(t: Seq<char>, s: Seq<char>, pos: int, fuel: nat)
    requires
        0 <= pos,
        pos + esc(t).len() + 1 <= s.len(),
        forall|i: int| 0 <= i < esc(t).len() ==> s[pos + i] == #[trigger] esc(t)[i],
        s[pos + esc(t).len()] == '"',
        fuel >= t.len() + 1,
    ensures
        sp_str_body(s, pos, fuel) == Some((t, pos + esc(t).len() + 1)),
    decreases t.len(),
{
    if t.len() == 0 {
        assert(esc(t).len() == 0);
        assert(s[pos] == '"');
        assert(sp_str_body(s, pos, fuel) == Some((Seq::<char>::empty(), pos + 1)));
        assert(t =~= Seq::<char>::empty());
    } else {
        let c = t[0];
        let rest = t.subrange(1, t.len() as int);
        let ec = esc_char(c);
        assert(esc(t) == ec + esc(rest));
        assert forall|i: int| 0 <= i < ec.len() implies s[pos + i] == #[trigger] ec[i] by {
            assert(esc(t)[i] == ec[i]);
        }
        let pos2 = pos + ec.len();
        assert forall|i: int| 0 <= i < esc(rest).len() implies s[pos2 + i] == #[trigger] esc(
            rest,
        )[i] by {
            assert(esc(t)[ec.len() + i] == esc(rest)[i]);
            assert(s[pos + (ec.len() + i)] == esc(t)[ec.len() + i]);
        }
        assert(s[pos2 + esc(rest).len()] == '"') by {
            assert(pos2 + esc(rest).len() == pos + esc(t).len());
        }
        lemma_sp_str_body(rest, s, pos2, (fuel - 1) as nat);
        if c == '"' {
            assert(ec == seq!['\\', '"']);
            assert(s[pos] == '\\' && s[pos + 1] == '"');
            assert(seq![s[pos + 1]] + rest =~= t);
        } else if c == '\\' {
            assert(ec == seq!['\\', '\\']);
            assert(s[pos] == '\\' && s[pos + 1] == '\\');
            assert(seq![s[pos + 1]] + rest =~= t);
        } else if (c as u32) < 32 {
            let hi = (c as u32 / 16) as int;
            let lo = (c as u32 % 16) as int;
            assert(ec == seq!['\\', 'u', '0', '0', hexc(hi), hexc(lo)]);
            assert(s[pos] == '\\' && s[pos + 1] == 'u' && s[pos + 2] == '0' && s[pos + 3] == '0'
                && s[pos + 4] == hexc(hi) && s[pos + 5] == hexc(lo));
            assert(0 <= hi < 2 && 0 <= lo < 16);
            assert(hexval(hexc(hi)) == hi && hexval(hexc(lo)) == lo);
            let v = hexval(s[pos + 4]) * 16 + hexval(s[pos + 5]);
            lemma_fundamental_div_mod(c as u32 as int, 16);
            assert(v == hi * 16 + lo);
            assert(v == c as u32 as int);
            assert(0 <= v < 32);
            assert(((v as u8) as char) as int == v);
            lemma_char_code(c);
            assert(((v as u8) as char) as int == c as int);
            assert(((v as u8) as char) == c);
            assert(seq![(v as u8) as char] + rest =~= t);
        } else {
            assert(ec == seq![c]);
            assert(ec[0] == c);
            assert(s[pos + 0] == ec[0]);
            assert(s[pos] == c);
            assert(c != '"' && c != '\\');
            assert(!((c as u32) < 32));
            assert(seq![c] + rest =~= t);
        }
    }
}

/// A character's code, read through `u32`, is the character's value.
proof fn lemma_char_code(c: char)
    ensures
        (c as u32) as int == c as int,
{
}

/// Escaping never shortens a text.
proof fn lemma_esc_len(t: Seq<char>)
    ensures
        esc(t).len() >= t.len(),
    decreases t.len(),
{
    if t.len() > 0 {
        lemma_esc_len(t.subrange(1, t.len() as int));
    }
}

/// A document's text is never empty and never starts with a closing
/// bracket.
proof fn lemma_pv_first(j: JsonV)
    ensures
        pv(j).len() >= 1,
        pv(j)[0] != ']',
        !is_ws(pv(j)[0]),
{
    match j {
        JsonV::Null => {},
        JsonV::Num(v) => {
            let m = if v < 0 { -v } else { v };
            if m >= 0 {
                lemma_digits_shape(m / 1000);
                if v >= 0 {
                    assert(pv(j)[0] == digits(m / 1000)[0]);
                    assert(is_digit(pv(j)[0]));
                    assert(!is_digit(']'));
                    assert((pv(j)[0] as u32) >= 48);
                    assert(!is_ws(pv(j)[0]));
                } else {
                    assert(pv(j)[0] == '-');
                }
            }
        },
        JsonV::Str(t) => {
            assert(pv(j)[0] == '"');
        },
        JsonV::Arr(es) => {
            assert(pv(j)[0] == '[');
        },
        JsonV::Obj(ms) => {
            assert(pv(j)[0] == '{');
        },
    }
}

/// A placed canonical document parses back to itself.
proof fn lemma_parse_pv(j: JsonV, s: Seq<char>, pos: int, fuel: nat)
    requires
        wf_jv(j),
        0 <= pos,
        pos + pv(j).len() <= s.len(),
        forall|i: int| 0 <= i < pv(j).len() ==> s[pos + i] == #[trigger] pv(j)[i],
        pos + pv(j).len() == s.len() || !num_cont(s[pos + pv(j).len()]),
        fuel >= 2 * pv(j).len() + 2,
    ensures
        sp_value(s, pos, fuel) == Some((j, pos + pv(j).len())),
    decreases j, 0int,
{
    lemma_pv_first(j);
    let n = pv(j).len() as int;
    assert(s[pos] == pv(j)[0]);
    assert(sp_ws(s, pos) == pos);
    match j {
        JsonV::Null => {
            assert(pv(j) == seq!['n', 'u', 'l', 'l']);
            assert(s[pos] == 'n' && s[pos + 1] == 'u' && s[pos + 2] == 'l' && s[pos + 3] == 'l');
        },
        JsonV::Num(v) => {
            let c = s[pos];
            assert(c == pv(j)[0]);
            lemma_digits_shape((if v < 0 { -v } else { v }) / 1000);
            if v < 0 {
                assert(c == '-');
            } else {
                assert(c == digits((if v < 0 { -v } else { v }) / 1000)[0]);
                assert(is_digit(c));
            }
            lemma_sp_number(v, s, pos, (fuel - 1) as nat);
        },
        JsonV::Str(t) => {
            assert(s[pos] == '"');
            lemma_esc_len(t);
            assert forall|i: int| 0 <= i < esc(t).len() implies s[pos + 1 + i] == #[trigger] esc(
                t,
            )[i] by {
                assert(pv(j)[1 + i] == esc(t)[i]);
                assert(s[pos + (1 + i)] == pv(j)[1 + i]);
            }
            assert(s[pos + 1 + esc(t).len()] == '"') by {
                assert(pv(j)[n - 1] == '"');
            }
            lemma_sp_str_body(t, s, pos + 1, (fuel - 1) as nat);
        },
        JsonV::Arr(es) => {
            assert(s[pos] == '[');
            assert(s[pos + n - 1] == ']') by {
                assert(pv(j)[n - 1] == ']');
            }
            if es.len() == 0 {
                assert(n == 2);
                assert(s[pos + 1] == ']');
                assert(sp_ws(s, pos + 1) == pos + 1);
                assert(es =~= Seq::<JsonV>::empty());
            } else {
                let items = arr_items(es);
                assert(pv(j) == seq!['['] + items + seq![']']);
                assert forall|i: int| 0 <= i < items.len() implies s[pos + 1 + i]
                    == #[trigger] items[i] by {
                    assert(pv(j)[1 + i] == items[i]);
                    assert(s[pos + (1 + i)] == pv(j)[1 + i]);
                }
                assert(decreases_to!(j => es));
                lemma_arr_items_first(es);
                assert(s[pos + 1] == items[0]);
                assert(items[0] != ']');
                assert(!is_ws(items[0]));
                assert(sp_ws(s, pos + 1) == pos + 1);
                lemma_parse_items(es, s, pos + 1, (fuel - 1) as nat);
                assert(s[pos + 1 + items.len()] == ']') by {
                    assert(pv(j)[n - 1] == ']');
                }
            }
        },
        JsonV::Obj(ms) => {
            assert(s[pos] == '{');
            assert(s[pos + n - 1] == '}') by {
                assert(pv(j)[n - 1] == '}');
            }
            if ms.len() == 0 {
                assert(n == 2);
                assert(s[pos + 1] == '}');
                assert(sp_ws(s, pos + 1) == pos + 1);
                assert(ms =~= Seq::<(Seq<char>, JsonV)>::empty());
            } else {
                let items = obj_items(ms);
                assert(pv(j) == seq!['{'] + items + seq!['}']);
                assert forall|i: int| 0 <= i < items.len() implies s[pos + 1 + i]
                    == #[trigger] items[i] by {
                    assert(pv(j)[1 + i] == items[i]);
                    assert(s[pos + (1 + i)] == pv(j)[1 + i]);
                }
                assert(decreases_to!(j => ms));
                lemma_obj_items_first(ms);
                assert(s[pos + 1] == items[0]);
                assert(items[0] == '"');
                assert(items[0] != '}');
                assert(sp_ws(s, pos + 1) == pos + 1);
                lemma_parse_members(ms, s, pos + 1, (fuel - 1) as nat);
            }
        },
    }
}

/// A non-empty element run starts with its first element's first character.
proof fn lemma_arr_items_first(es: Seq<JsonV>)
    requires
        es.len() >= 1,
    ensures
        arr_items(es).len() >= 1,
        arr_items(es)[0] == pv(es[0])[0],
        arr_items(es)[0] != ']',
        !is_ws(arr_items(es)[0]),
    decreases es,
{
    lemma_pv_first(es[0]);
}

/// A non-empty member run starts with the first key's opening quote.
proof fn lemma_obj_items_first(ms: Seq<(Seq<char>, JsonV)>)
    requires
        ms.len() >= 1,
    ensures
        obj_items(ms).len() >= 1,
        obj_items(ms)[0] == '"',
    decreases ms,
{
}

/// A placed run of elements, closed by a bracket, parses back to the
/// elements.
proof fn lemma_parse_items(es: Seq<JsonV>, s: Seq<char>, pos: int, fuel: nat)
    requires
        es.len() >= 1,
        forall|i: int| 0 <= i < es.len() ==> wf_jv(#[trigger] es[i]),
        0 <= pos,
        pos + arr_items(es).len() + 1 <= s.len(),
        forall|i: int|
            0 <= i < arr_items(es).len() ==> s[pos + i] == #[trigger] arr_items(es)[i],
        s[pos + arr_items(es).len()] == ']',
        fuel >= 2 * arr_items(es).len() + 3,
    ensures
        sp_elems(s, pos, fuel) == Some((es, pos + arr_items(es).len() + 1)),
    decreases es, 1int,
{
    let items = arr_items(es);
    let e0 = es[0];
    assert(wf_jv(e0));
    lemma_pv_first(e0);
    let p0 = pv(e0);
    if es.len() == 1 {
        assert(items == p0);
        assert(decreases_to!(es => es[0]));
        lemma_parse_pv(e0, s, pos, (fuel - 1) as nat);
        assert(s[pos + p0.len()] == ']');
        assert(!num_cont(']'));
        assert(sp_ws(s, pos + p0.len()) == pos + p0.len());
        assert(seq![e0] =~= es);
    } else {
        let rest = es.subrange(1, es.len() as int);
        let ritems = arr_items(rest);
        assert(items == p0 + seq![','] + ritems);
        assert forall|i: int| 0 <= i < p0.len() implies s[pos + i] == #[trigger] p0[i] by {
            assert(items[i] == p0[i]);
        }
        assert(s[pos + p0.len()] == ',') by {
            assert(items[p0.len() as int] == ',');
        }
        assert(!num_cont(','));
        assert(sp_ws(s, pos + p0.len()) == pos + p0.len());
        assert(decreases_to!(es => es[0]));
        lemma_parse_pv(e0, s, pos, (fuel - 1) as nat);
        let pos2 = pos + p0.len() + 1;
        assert forall|i: int| 0 <= i < ritems.len() implies s[pos2 + i] == #[trigger] ritems[i] by {
            assert(items[p0.len() + 1 + i] == ritems[i]);
            assert(s[pos + (p0.len() + 1 + i)] == items[p0.len() + 1 + i]);
        }
        assert(s[pos2 + ritems.len()] == ']') by {
            assert(pos2 + ritems.len() == pos + items.len());
        }
        assert forall|i: int| 0 <= i < rest.len() implies wf_jv(#[trigger] rest[i]) by {
            assert(rest[i] == es[i + 1]);
        }
        lemma_parse_items(rest, s, pos2, (fuel - 1) as nat);
        assert(seq![e0] + rest =~= es);
    }
}

/// A placed run of members, closed by a brace, parses back to the members.
proof fn lemma_parse_members(ms: Seq<(Seq<char>, JsonV)>, s: Seq<char>, pos: int, fuel: nat)
    requires
        ms.len() >= 1,
        forall|i: int| 0 <= i < ms.len() ==> wf_jv((#[trigger] ms[i]).1),
        members_ascending(ms),
        0 <= pos,
        pos + obj_items(ms).len() + 1 <= s.len(),
        forall|i: int|
            0 <= i < obj_items(ms).len() ==> s[pos + i] == #[trigger] obj_items(ms)[i],
        s[pos + obj_items(ms).len()] == '}',
        fuel >= 2 * obj_items(ms).len() + 3,
    ensures
        sp_members(s, pos, fuel) == Some((ms, pos + obj_items(ms).len() + 1)),
    decreases ms, 1int,
{
    let items = obj_items(ms);
    let k0 = ms[0].0;
    let v0 = ms[0].1;
    assert(wf_jv(v0));
    lemma_pv_first(v0);
    let kc = str_chars(k0);
    let p0 = pv(v0);
    let head = kc + seq![':'] + p0;
    if ms.len() == 1 {
        assert(items == head);
    } else {
        assert(items == head + seq![','] + obj_items(ms.subrange(1, ms.len() as int)));
    }
    assert forall|i: int| 0 <= i < head.len() implies s[pos + i] == #[trigger] head[i] by {
        assert(items[i] == head[i]);
    }
    assert(s[pos] == '"') by {
        assert(head[0] == '"');
    }
    assert(sp_ws(s, pos) == pos);
    lemma_esc_len(k0);
    assert forall|i: int| 0 <= i < esc(k0).len() implies s[pos + 1 + i] == #[trigger] esc(k0)[i] by {
        assert(head[1 + i] == esc(k0)[i]);
        assert(s[pos + (1 + i)] == head[1 + i]);
    }
    assert(s[pos + 1 + esc(k0).len()] == '"') by {
        assert(head[kc.len() - 1] == '"');
    }
    lemma_sp_str_body(k0, s, pos + 1, (fuel - 1) as nat);
    let e1 = pos + kc.len();
    assert(s[e1] == ':') by {
        assert(head[kc.len() as int] == ':');
    }
    assert(sp_ws(s, e1) == e1);
    let vpos = e1 + 1;
    assert forall|i: int| 0 <= i < p0.len() implies s[vpos + i] == #[trigger] p0[i] by {
        assert(head[kc.len() + 1 + i] == p0[i]);
        assert(s[pos + (kc.len() + 1 + i)] == head[kc.len() + 1 + i]);
    }
    if ms.len() == 1 {
        assert(s[vpos + p0.len()] == '}') by {
            assert(vpos + p0.len() == pos + items.len());
        }
        assert(!num_cont('}'));
        assert(sp_ws(s, vpos + p0.len()) == vpos + p0.len());
        assert(decreases_to!(ms => ms[0]));
        assert(decreases_to!(ms[0] => ms[0].1));
        lemma_parse_pv(v0, s, vpos, (fuel - 1) as nat);
        assert(seq![(k0, v0)] =~= ms);
    } else {
        let rest = ms.subrange(1, ms.len() as int);
        let ritems = obj_items(rest);
        assert(items == head + seq![','] + ritems);
        assert(s[vpos + p0.len()] == ',') by {
            assert(items[head.len() as int] == ',');
            assert(vpos + p0.len() == pos + head.len());
        }
        assert(!num_cont(','));
        assert(sp_ws(s, vpos + p0.len()) == vpos + p0.len());
        assert(decreases_to!(ms => ms[0]));
        assert(decreases_to!(ms[0] => ms[0].1));
        lemma_parse_pv(v0, s, vpos, (fuel - 1) as nat);
        let pos2 = pos + head.len() + 1;
        assert forall|i: int| 0 <= i < ritems.len() implies s[pos2 + i] == #[trigger] ritems[i] by {
            assert(items[head.len() + 1 + i] == ritems[i]);
            assert(s[pos + (head.len() + 1 + i)] == items[head.len() + 1 + i]);
        }
        assert(s[pos2 + ritems.len()] == '}') by {
            assert(pos2 + ritems.len() == pos + items.len());
        }
        assert forall|i: int| 0 <= i < rest.len() implies wf_jv((#[trigger] rest[i]).1) by {
            assert(rest[i] == ms[i + 1]);
        }
        assert(members_ascending(rest)) by {
            assert forall|i: int|
                0 <= i < rest.len() - 1 implies seq_lt(#[trigger] rest[i].0, rest[i + 1].0) by {
                assert(rest[i] == ms[i + 1]);
                assert(rest[i + 1] == ms[i + 2]);
                assert(seq_lt(ms[i + 1].0, ms[i + 2].0));
            }
        }
        lemma_parse_members(rest, s, pos2, (fuel - 1) as nat);
        assert(rest.len() >= 1);
        assert(seq_lt(k0, rest[0].0)) by {
            assert(rest[0] == ms[1]);
            assert(seq_lt(ms[0].0, ms[1].0));
        }
        assert(map_insert(rest, k0, v0) =~= seq![(k0, v0)] + rest);
        assert(seq![(k0, v0)] + rest =~= ms);
    }
}

/// The canonical text of a well-formed document parses back to exactly that
/// document.
pub proof fn lemma_parse_print(j: JsonV)
    requires
        wf_jv(j),
        pv(j).len() < usize::MAX / 2 - 1,
    ensures
        spec_parse_text(pv(j)) == Some(j),
{
    lemma_parse_pv(j, pv(j), 0, (2 * pv(j).len() + 2) as nat);
}

/// Two texts compare strictly below when they agree before `k` and differ
/// in `k`'s favour there.
pub proof fn lemma_seq_lt_from_diff(a: Seq<char>, b: Seq<char>, k: int)
    requires
        0 <= k < a.len(),
        k < b.len(),
        forall|t: int| 0 <= t < k ==> a[t] == #[trigger] b[t],
        (a[k] as u32) < (b[k] as u32),
    ensures
        seq_lt(a, b),
    decreases k,
{
    if k == 0 {
        assert(!((a[0] as u32) > (b[0] as u32)));
    } else {
        assert(a[0] == b[0]);
        assert(!((a[0] as u32) < (b[0] as u32)) && !((a[0] as u32) > (b[0] as u32)));
        let a2 = a.subrange(1, a.len() as int);
        let b2 = b.subrange(1, b.len() as int);
        assert forall|t: int| 0 <= t < k - 1 implies a2[t] == #[trigger] b2[t] by {
            assert(a2[t] == a[t + 1]);
            assert(b2[t] == b[t + 1]);
            assert(a[t + 1] == b[t + 1]);
        }
        assert(a2[k - 1] == a[k]);
        assert(b2[k - 1] == b[k]);
        lemma_seq_lt_from_diff(a2, b2, k - 1);
    }
}

} // verus!
