//! A small JSON reader and string quoter.
//!
//! A line of machine-made JSON is read into a tree, and fields are read off the tree. Numbers are
//! kept as the text that wrote them; an object keeps its members ordered by name, with the last of
//! two members of one name winning.
use vstd::prelude::*;
use vstd::string::*;
use vstd::utf8::*;

use crate::measure::Measure;
use crate::number::{decimal_of, is_decimal, read_number, reading, Reading};
use crate::numeral::{float_value, read_float};
use crate::text::{
    before,
    chars_of,
    dec,
    dec_text,
    hex_char,
    hex_digit,
    lex_lt,
    lex_lt_is_total_order,
    owned,
    same,
    slice_text,
    upper,
    upper_text,
};

verus! {

/// A JSON value.
#[derive(Debug, PartialEq)]
pub enum Value {
    Null,
    Bool(bool),
    /// A number, as written.
    Num(String),
    Str(String),
    Array(Vec<Value>),
    /// The members, ordered by name.
    Object(Vec<(String, Value)>),
}

/// What is wrong with a text that is not JSON.
#[derive(Debug, Clone, PartialEq, Eq)]
pub struct ParseError(pub String);

/// The mathematical content of a JSON value.
pub enum Json {
    Null,
    Bool(bool),
    Num(Seq<char>),
    Str(Seq<char>),
    Array(Seq<Json>),
    Object(Map<Seq<char>, Json>),
}

/// The map that a list of members makes up: of two members of one name the later one counts.
pub open spec fn members_map(m: Seq<(Seq<char>, Json)>) -> Map<Seq<char>, Json>
    decreases m.len(),
{
    if m.len() == 0 {
        Map::empty()
    } else {
        members_map(m.drop_last()).insert(m.last().0, m.last().1)
    }
}

/// The content of a value.
pub open spec fn model(v: Value) -> Json
    decreases v,
{
    match v {
        Value::Null => Json::Null,
        Value::Bool(b) => Json::Bool(b),
        Value::Num(s) => Json::Num(s@),
        Value::Str(s) => Json::Str(s@),
        Value::Array(a) => Json::Array(
            Seq::new(
                a@.len(),
                |i: int|
                    if 0 <= i < a@.len() {
                        model(a@[i])
                    } else {
                        Json::Null
                    },
            ),
        ),
        Value::Object(m) => Json::Object(first_members(m@, m@.len())),
    }
}

/// The map that the first `n` members make up.
pub open spec fn first_members(m: Seq<(String, Value)>, n: nat) -> Map<Seq<char>, Json>
    decreases m, n,
{
    if n == 0 || n > m.len() {
        Map::empty()
    } else {
        first_members(m, (n - 1) as nat).insert(m[n - 1].0@, model(m[n - 1].1))
    }
}

/// The members of an object, by name and content.
pub open spec fn members(m: Seq<(String, Value)>) -> Seq<(Seq<char>, Json)> {
    Seq::new(m.len(), |i: int| (m[i].0@, model(m[i].1)))
}

/// The contents of a list of values.
pub open spec fn models(a: Seq<Value>) -> Seq<Json> {
    Seq::new(a.len(), |i: int| model(a[i]))
}

/// An array's content is the contents of its elements.
pub proof fn model_of_array(a: Vec<Value>)
    ensures
        model(Value::Array(a)) == Json::Array(models(a@)),
{
    match model(Value::Array(a)) {
        Json::Array(s) => {
            assert(s =~= models(a@));
        },
        _ => {},
    }
}

/// An object's content is the map of its members.
pub proof fn model_of_object(m: Vec<(String, Value)>)
    ensures
        model(Value::Object(m)) == Json::Object(members_map(members(m@))),
{
    first_members_listed(m@, m@.len());
    assert(members(m@).take(m@.len() as int) =~= members(m@));
}

proof fn first_members_listed(m: Seq<(String, Value)>, n: nat)
    requires
        n <= m.len(),
    ensures
        first_members(m, n) == members_map(members(m).take(n as int)),
    decreases n,
{
    let part = members(m).take(n as int);
    if n > 0 {
        first_members_listed(m, (n - 1) as nat);
        assert(part.drop_last() =~= members(m).take(n - 1));
    }
}

/// The member of an object named `key`; `None` when there is none, or the value is no object.
pub open spec fn field(v: Json, key: Seq<char>) -> Option<Json> {
    match v {
        Json::Object(m) => if m.contains_key(key) {
            Some(m[key])
        } else {
            None
        },
        _ => None,
    }
}

/// The text of a string value.
pub open spec fn str_of(v: Json) -> Option<Seq<char>> {
    match v {
        Json::Str(s) => Some(s),
        _ => None,
    }
}

/// The text of the string member named `key`.
pub open spec fn str_field(v: Json, key: Seq<char>) -> Option<Seq<char>> {
    match field(v, key) {
        Some(f) => str_of(f),
        None => None,
    }
}

/// What a value reads as when a number is asked for: a number as it is, a string when its text is a
/// number, a truth value as one or zero.
pub open spec fn number_of(v: Json) -> Option<Reading> {
    match v {
        Json::Num(s) => reading(s),
        Json::Str(s) => reading(s),
        Json::Bool(b) => Some(
            Reading::Finite {
                negative: false,
                whole: if b {
                    1
                } else {
                    0
                },
                exact: true,
            },
        ),
        _ => None,
    }
}

/// The number that a value is, or that its text names; a truth value counts as one or zero.
pub open spec fn measure_of(v: Json) -> Option<Measure> {
    match v {
        Json::Num(s) => float_value(s),
        Json::Str(s) => float_value(s),
        Json::Bool(b) => Some(
            Measure::Finite {
                negative: false,
                mantissa: if b {
                    1
                } else {
                    0
                },
                exponent: 0,
            },
        ),
        _ => None,
    }
}

impl Value {
    /// The member named `key`, when this is an object that has one.
    pub fn get(&self, key: &str) -> (r: Option<&Value>)
        ensures
            match r {
                Some(v) => field(model(*self), key@) == Some(model(*v)),
                None => field(model(*self), key@) is None,
            },
    {
        match self {
            Value::Object(m) => {
                proof {
                    model_of_object(*m);
                    assert(members(m@).take(m@.len() as int) =~= members(m@));
                }
                let mut i: usize = m.len();
                while i > 0
                    invariant
                        i <= m@.len(),
                        *self == Value::Object(*m),
                        model(*self) == Json::Object(members_map(members(m@))),
                        field(model(*self), key@) == field(
                            Json::Object(members_map(members(m@).take(i as int))),
                            key@,
                        ),
                    decreases i,
                {
                    proof {
                        let part = members(m@).take(i as int);
                        assert(part.drop_last() =~= members(m@).take(i - 1));
                        assert(part.last() == members(m@)[i - 1]);
                    }
                    if same(m[i - 1].0.as_str(), key) {
                        return Some(&m[i - 1].1);
                    }
                    i -= 1;
                }
                None
            },
            _ => None,
        }
    }

    /// The text, when this is a string.
    pub fn as_str(&self) -> (r: Option<&str>)
        ensures
            match r {
                Some(s) => str_of(model(*self)) == Some(s@),
                None => str_of(model(*self)) is None,
            },
    {
        match self {
            Value::Str(s) => Some(s.as_str()),
            _ => None,
        }
    }

    /// The truth value, when this is one.
    pub fn as_bool(&self) -> (r: Option<bool>)
        ensures
            r == match model(*self) {
                Json::Bool(b) => Some(b),
                _ => None,
            },
    {
        match self {
            Value::Bool(b) => Some(*b),
            _ => None,
        }
    }

    /// The elements, when this is an array.
    pub fn as_array(&self) -> (r: Option<&Vec<Value>>)
        ensures
            match r {
                Some(a) => model(*self) == Json::Array(models(a@)) && *self == Value::Array(*a),
                None => !(model(*self) is Array),
            },
    {
        match self {
            Value::Array(a) => {
                proof {
                    model_of_array(*a);
                }
                Some(a)
            },
            _ => None,
        }
    }

    /// The number that this is, or that its text names; a truth value counts as one or zero.
    pub fn as_f64(&self) -> (r: Option<Measure>)
        ensures
            r == measure_of(model(*self)),
    {
        match self {
            Value::Num(s) => read_float(s.as_str()),
            Value::Str(s) => read_float(s.as_str()),
            Value::Bool(b) => Some(
                Measure::Finite {
                    negative: false,
                    mantissa: if *b {
                        1
                    } else {
                        0
                    },
                    exponent: 0,
                },
            ),
            _ => None,
        }
    }

    /// What this reads as when a number is asked for.
    pub fn as_number(&self) -> (r: Option<Reading>)
        ensures
            r == number_of(model(*self)),
    {
        match self {
            Value::Num(s) => read_number(s.as_str()),
            Value::Str(s) => read_number(s.as_str()),
            Value::Bool(b) => Some(
                Reading::Finite {
                    negative: false,
                    whole: if *b {
                        1
                    } else {
                        0
                    },
                    exact: true,
                },
            ),
            _ => None,
        }
    }
}

/// The deepest that values may nest.
pub const MAX_DEPTH: u32 = 64;

/// `char::from_u32` gives the character of a Unicode scalar value, and nothing for a number that is
/// not one.
pub assume_specification[ char::from_u32 ](i: u32) -> (r: Option<char>)
    ensures
        is_scalar(i) ==> r == Some(i as char),
        !is_scalar(i) ==> r is None,
;

/// How the standard library's `Debug` formatting writes a character.
pub uninterp spec fn debug_char(c: char) -> Seq<char>;

/// `format!("{:?}", c)` of a character: a fixed text for each character, in single quotes and
/// escaped where it is not printable.
#[verifier::external_body]
fn debug_char_text(c: char) -> (r: String)
    ensures
        r@ == debug_char(c),
{
    format!("{:?}", c)
}

/// The first byte of a character's UTF-8 form, as the character of that number.
pub open spec fn first_byte(c: char) -> char {
    encode_scalar(c as u32)[0] as char
}

fn first_byte_of(c: char) -> (r: char)
    ensures
        r == first_byte(c),
{
    let u: u32 = c as u32;
    proof {
        char_is_scalar(c);
    }
    if u <= 0x7f {
        ((u & 0x7f) as u8) as char
    } else if u <= 0x7ff {
        (0xc0u8 | ((u >> 6) & 0x1f) as u8) as char
    } else if u <= 0xffff {
        (0xe0u8 | ((u >> 12) & 0x0f) as u8) as char
    } else {
        (0xf0u8 | ((u >> 18) & 0x7) as u8) as char
    }
}

/// The number of bytes that the first `i` characters take up.
pub open spec fn byte_at(s: Seq<char>, i: int) -> nat {
    encode_utf8(s.take(i)).len()
}

/// The number of bytes that the characters from `from` to `to` take up.
pub(crate) fn byte_count(chars: &Vec<char>, from: usize, to: usize) -> (r: u128)
    requires
        from <= to <= chars@.len(),
    ensures
        r == encode_utf8(chars@.subrange(from as int, to as int)).len(),
        to - from <= r <= 4 * (to - from),
{
    let mut n: u128 = 0;
    let mut i: usize = to;
    assert(chars@.subrange(to as int, to as int) =~= Seq::<char>::empty());
    while i > from
        invariant
            from <= i <= to <= chars@.len(),
            n == encode_utf8(chars@.subrange(i as int, to as int)).len(),
            to - i <= n <= 4 * (to - i),
        decreases i,
    {
        i -= 1;
        let u: u32 = chars[i] as u32;
        proof {
            let part = chars@.subrange(i as int, to as int);
            assert(part.drop_first() =~= chars@.subrange(i + 1, to as int));
            char_is_scalar(chars@[i as int]);
        }
        n = n + if u <= 0x7f {
            1
        } else if u <= 0x7ff {
            2
        } else if u <= 0xffff {
            3
        } else {
            4
        };
    }
    n
}

fn byte_text(chars: &Vec<char>, i: usize) -> (r: String)
    requires
        i <= chars@.len(),
    ensures
        r@ == dec(byte_at(chars@, i as int)),
{
    assert(chars@.subrange(0, i as int) =~= chars@.take(i as int));
    dec_text(byte_count(chars, 0, i))
}

/// Whether `c` is white space between tokens.
pub open spec fn is_blank(c: char) -> bool {
    c == ' ' || c == '\t' || c == '\n' || c == '\r'
}

/// The first index at or after `i` that holds no white space.
pub open spec fn skip_blanks(s: Seq<char>, i: int) -> int
    decreases s.len() - i,
{
    if 0 <= i < s.len() && is_blank(s[i]) {
        skip_blanks(s, i + 1)
    } else {
        i
    }
}

fn skip_ws(chars: &Vec<char>, i: usize) -> (r: usize)
    requires
        i <= chars@.len(),
    ensures
        r == skip_blanks(chars@, i as int),
        i <= r <= chars@.len(),
{
    let mut k: usize = i;
    while k < chars.len() && (chars[k] == ' ' || chars[k] == '\t' || chars[k] == '\n' || chars[k]
        == '\r')
        invariant
            i <= k <= chars@.len(),
            skip_blanks(chars@, i as int) == skip_blanks(chars@, k as int),
        decreases chars@.len() - k,
    {
        k += 1;
    }
    k
}

/// How the character at `i`, or the end of the text, is named in a complaint.
pub open spec fn found_at(s: Seq<char>, i: int) -> Seq<char> {
    if 0 <= i < s.len() {
        "Some("@ + debug_char(first_byte(s[i])) + ")"@
    } else {
        "None"@
    }
}

/// The complaint that `c` should stand at `i`.
pub open spec fn expected_at(c: char, s: Seq<char>, i: int) -> Seq<char> {
    "expected `"@ + seq![c] + "` at byte "@ + dec(byte_at(s, i)) + ", found "@ + found_at(s, i)
}

fn expected(c: char, chars: &Vec<char>, i: usize) -> (r: ParseError)
    requires
        i <= chars@.len(),
    ensures
        r.0@ == expected_at(c, chars@, i as int),
{
    let mut out = owned("expected `");
    out.push(c);
    assert(out@ =~= "expected `"@ + seq![c]);
    out.append("` at byte ");
    out.append(byte_text(chars, i).as_str());
    out.append(", found ");
    let found = if i < chars.len() {
        let mut f = owned("Some(");
        f.append(debug_char_text(first_byte_of(chars[i])).as_str());
        f.append(")");
        f
    } else {
        owned("None")
    };
    out.append(found.as_str());
    ParseError(out)
}

/// The value of a hexadecimal digit.
pub open spec fn hex_value(c: char) -> Option<u32> {
    if '0' <= c && c <= '9' {
        Some((c as u32 - 48) as u32)
    } else if 'a' <= c && c <= 'f' {
        Some((c as u32 - 87) as u32)
    } else if 'A' <= c && c <= 'F' {
        Some((c as u32 - 55) as u32)
    } else {
        None
    }
}

fn hex_value_of(c: char) -> (r: Option<u32>)
    ensures
        r == hex_value(c),
        r is Some ==> r->0 < 16,
{
    let u: u32 = c as u32;
    if '0' <= c && c <= '9' {
        Some(u - 48)
    } else if 'a' <= c && c <= 'f' {
        Some(u - 87)
    } else if 'A' <= c && c <= 'F' {
        Some(u - 55)
    } else {
        None
    }
}

/// The number that hexadecimal digits write out; `None` when one of them is not a digit.
pub open spec fn hex_number(s: Seq<char>) -> Option<nat>
    decreases s.len(),
{
    if s.len() == 0 {
        Some(0)
    } else {
        match (hex_number(s.drop_last()), hex_value(s.last())) {
            (Some(n), Some(d)) => Some(16 * n + d as nat),
            _ => None,
        }
    }
}

/// The code unit that the four bytes at `i` write out: four hexadecimal digits, or `+` and three.
pub open spec fn unit_at(s: Seq<char>, i: int) -> Result<u32, Seq<char>> {
    if encode_utf8(s.skip(i)).len() < 4 {
        Err("short \\u escape"@)
    } else if i + 4 > s.len() {
        Err("bad \\u escape"@)
    } else {
        let digits = if s[i] == '+' {
            s.subrange(i + 1, i + 4)
        } else {
            s.subrange(i, i + 4)
        };
        match hex_number(digits) {
            Some(n) => Ok(n as u32),
            None => Err("bad \\u escape"@),
        }
    }
}

fn hex4(chars: &Vec<char>, i: usize) -> (r: Result<u32, ParseError>)
    requires
        i <= chars@.len(),
    ensures
        match r {
            Ok(n) => unit_at(chars@, i as int) == Ok::<u32, Seq<char>>(n) && i + 4 <= chars@.len()
                && n < 0x10000,
            Err(e) => unit_at(chars@, i as int) == Err::<u32, Seq<char>>(e.0@),
        },
{
    let n: usize = chars.len();
    assert(chars@.subrange(i as int, n as int) =~= chars@.skip(i as int));
    if byte_count(chars, i, n) < 4 {
        return Err(ParseError(owned("short \\u escape")));
    }
    if n - i < 4 {
        return Err(ParseError(owned("bad \\u escape")));
    }
    let from: usize = if chars[i] == '+' {
        i + 1
    } else {
        i
    };
    let mut k: usize = from;
    let mut acc: u32 = 0;
    assert(chars@.subrange(from as int, from as int) =~= Seq::<char>::empty());
    while k < i + 4
        invariant
            i + 4 <= n == chars@.len(),
            i <= from <= k <= i + 4,
            from == (if chars@[i as int] == '+' {
                i + 1
            } else {
                i as int
            }),
            encode_utf8(chars@.skip(i as int)).len() >= 4,
            hex_number(chars@.subrange(from as int, k as int)) == Some(acc as nat),
            k == from ==> acc == 0,
            k == from + 1 ==> acc < 16,
            k == from + 2 ==> acc < 256,
            k == from + 3 ==> acc < 4096,
            k == from + 4 ==> acc < 0x10000,
        decreases i + 4 - k,
    {
        proof {
            let part = chars@.subrange(from as int, k as int + 1);
            assert(part.drop_last() =~= chars@.subrange(from as int, k as int));
            assert(part.last() == chars@[k as int]);
        }
        match hex_value_of(chars[k]) {
            Some(d) => {
                acc = 16 * acc + d;
            },
            None => {
                proof {
                    hex_prefix(chars@.subrange(from as int, i + 4), k - from + 1);
                    assert(chars@.subrange(from as int, i + 4).take(k - from + 1)
                        =~= chars@.subrange(from as int, k as int + 1));
                }
                return Err(ParseError(owned("bad \\u escape")));
            },
        }
        k += 1;
    }
    Ok(acc)
}

/// Hexadecimal digits that begin badly are bad.
proof fn hex_prefix(s: Seq<char>, n: int)
    requires
        0 <= n <= s.len(),
        hex_number(s.take(n)) is None,
    ensures
        hex_number(s) is None,
    decreases s.len() - n,
{
    if n == s.len() {
        assert(s.take(n) =~= s);
    } else {
        assert(s.take(n + 1).drop_last() =~= s.take(n));
        hex_prefix(s, n + 1);
    }
}

/// The uppercase hexadecimal text of a number below 2^16, four digits long.
pub open spec fn upper_hex4(n: u32) -> Seq<char> {
    upper(
        seq![
            hex_digit(n as int / 4096),
            hex_digit(n as int / 256 % 16),
            hex_digit(n as int / 16 % 16),
            hex_digit(n as int % 16),
        ],
    )
}

/// The character that the escape whose code unit stands at `i` writes out, and whether it takes a
/// second code unit. A character beyond the basic plane is written as two surrogates.
pub open spec fn escape_at(s: Seq<char>, i: int) -> Result<(char, bool), Seq<char>> {
    match unit_at(s, i) {
        Err(e) => Err(e),
        Ok(hi) => if 0xd800 <= hi < 0xdc00 {
            if i + 6 <= s.len() && s[i + 4] == '\\' && s[i + 5] == 'u' {
                match unit_at(s, i + 6) {
                    Err(e) => Err(e),
                    Ok(lo) => if 0xdc00 <= lo < 0xe000 {
                        Ok(((0x10000 + (hi - 0xd800) * 1024 + (lo - 0xdc00)) as u32 as char, true))
                    } else {
                        Err("unpaired surrogate"@)
                    },
                }
            } else {
                Err("unpaired surrogate"@)
            }
        } else if is_scalar(hi) {
            Ok((hi as char, false))
        } else {
            Err("bad code point U+"@ + upper_hex4(hi))
        },
    }
}

fn unicode_escape(chars: &Vec<char>, i: usize) -> (r: Result<(char, bool), ParseError>)
    requires
        i <= chars@.len(),
    ensures
        match r {
            Ok((c, pair)) => escape_at(chars@, i as int) == Ok::<(char, bool), Seq<char>>((c, pair))
                && i + (if pair {
                10int
            } else {
                4
            }) <= chars@.len(),
            Err(e) => escape_at(chars@, i as int) == Err::<(char, bool), Seq<char>>(e.0@),
        },
{
    let n: usize = chars.len();
    let hi: u32 = hex4(chars, i)?;
    if 0xd800 <= hi && hi < 0xdc00 {
        if n - i >= 6 && chars[i + 4] == '\\' && chars[i + 5] == 'u' {
            let lo: u32 = hex4(chars, i + 6)?;
            if 0xdc00 <= lo && lo < 0xe000 {
                let code: u32 = 0x10000 + (hi - 0xd800) * 1024 + (lo - 0xdc00);
                assert(is_scalar(code));
                match char::from_u32(code) {
                    Some(c) => {
                        return Ok((c, true));
                    },
                    None => {},
                }
            }
        }
        return Err(ParseError(owned("unpaired surrogate")));
    }
    match char::from_u32(hi) {
        Some(c) => Ok((c, false)),
        None => {
            let mut digits = String::new();
            digits.push(hex_char((hi / 4096) as u8));
            digits.push(hex_char((hi / 256 % 16) as u8));
            digits.push(hex_char((hi / 16 % 16) as u8));
            digits.push(hex_char((hi % 16) as u8));
            assert(digits@ =~= seq![
                hex_digit(hi as int / 4096),
                hex_digit(hi as int / 256 % 16),
                hex_digit(hi as int / 16 % 16),
                hex_digit(hi as int % 16),
            ]);
            let mut out = owned("bad code point U+");
            out.append(upper_text(digits.as_str()).as_str());
            Err(ParseError(out))
        },
    }
}

/// The character that a one-letter escape stands for.
pub open spec fn short_escape(c: char) -> Option<char> {
    if c == '"' {
        Some('"')
    } else if c == '\\' {
        Some('\\')
    } else if c == '/' {
        Some('/')
    } else if c == 'b' {
        Some('\u{8}')
    } else if c == 'f' {
        Some('\u{c}')
    } else if c == 'n' {
        Some('\n')
    } else if c == 'r' {
        Some('\r')
    } else if c == 't' {
        Some('\t')
    } else {
        None
    }
}

fn short_escape_of(c: char) -> (r: Option<char>)
    ensures
        r == short_escape(c),
{
    if c == '"' {
        Some('"')
    } else if c == '\\' {
        Some('\\')
    } else if c == '/' {
        Some('/')
    } else if c == 'b' {
        Some('\u{8}')
    } else if c == 'f' {
        Some('\u{c}')
    } else if c == 'n' {
        Some('\n')
    } else if c == 'r' {
        Some('\r')
    } else if c == 't' {
        Some('\t')
    } else {
        None
    }
}

/// The rest of a string from `i` on, after `acc`, and the index past its closing quote.
pub open spec fn string_rest(s: Seq<char>, i: int, acc: Seq<char>) -> Result<
    (Seq<char>, int),
    Seq<char>,
>
    decreases s.len() - i,
{
    if i < 0 || i >= s.len() {
        Err("unterminated string"@)
    } else if s[i] == '"' {
        Ok((acc, i + 1))
    } else if s[i] != '\\' {
        string_rest(s, i + 1, acc.push(s[i]))
    } else if i + 1 >= s.len() {
        Err("dangling escape"@)
    } else {
        match short_escape(s[i + 1]) {
            Some(c) => string_rest(s, i + 2, acc.push(c)),
            None => if s[i + 1] == 'u' {
                match escape_at(s, i + 2) {
                    Ok((c, pair)) => string_rest(
                        s,
                        i + 2 + (if pair {
                            10int
                        } else {
                            4
                        }),
                        acc.push(c),
                    ),
                    Err(e) => Err(e),
                }
            } else {
                Err("bad escape `\\"@ + seq![first_byte(s[i + 1])] + "`"@)
            },
        }
    }
}

/// The string that stands at `i`, and the index past it.
pub open spec fn string_at(s: Seq<char>, i: int) -> Result<(Seq<char>, int), Seq<char>> {
    if 0 <= i < s.len() && s[i] == '"' {
        string_rest(s, i + 1, Seq::empty())
    } else {
        Err(expected_at('"', s, i))
    }
}

fn string(chars: &Vec<char>, i: usize) -> (r: Result<(String, usize), ParseError>)
    requires
        i <= chars@.len(),
    ensures
        match r {
            Ok((t, end)) => string_at(chars@, i as int) == Ok::<(Seq<char>, int), Seq<char>>(
                (t@, end as int),
            ) && i < end <= chars@.len(),
            Err(e) => string_at(chars@, i as int) == Err::<(Seq<char>, int), Seq<char>>(e.0@),
        },
{
    let n: usize = chars.len();
    if i >= n || chars[i] != '"' {
        return Err(expected('"', chars, i));
    }
    let mut out = String::new();
    let mut k: usize = i + 1;
    while k < n
        invariant
            i < k <= n == chars@.len(),
            chars@[i as int] == '"',
            string_at(chars@, i as int) == string_rest(chars@, k as int, out@),
        decreases n - k,
    {
        let c = chars[k];
        if c == '"' {
            return Ok((out, k + 1));
        }
        if c != '\\' {
            out.push(c);
            k += 1;
        } else {
            if k + 1 >= n {
                return Err(ParseError(owned("dangling escape")));
            }
            let e = chars[k + 1];
            match short_escape_of(e) {
                Some(x) => {
                    out.push(x);
                    k += 2;
                },
                None => {
                    if e == 'u' {
                        let (x, pair) = unicode_escape(chars, k + 2)?;
                        out.push(x);
                        k = k + 2 + if pair {
                            10usize
                        } else {
                            4usize
                        };
                    } else {
                        let mut message = owned("bad escape `\\");
                        message.push(first_byte_of(e));
                        assert(message@ =~= "bad escape `\\"@ + seq![first_byte(e)]);
                        message.append("`");
                        return Err(ParseError(message));
                    }
                },
            }
        }
    }
    Err(ParseError(owned("unterminated string")))
}

/// Whether `c` may stand in a number.
pub open spec fn in_number(c: char) -> bool {
    ('0' <= c && c <= '9') || c == '.' || c == 'e' || c == 'E' || c == '+' || c == '-'
}

/// The index past the run of number characters that begins at `i`.
pub open spec fn number_end(s: Seq<char>, i: int) -> int
    decreases s.len() - i,
{
    if 0 <= i < s.len() && in_number(s[i]) {
        number_end(s, i + 1)
    } else {
        i
    }
}

/// The number that stands at `i`, and the index past it.
pub open spec fn number_at(s: Seq<char>, i: int) -> Result<(Json, int), Seq<char>> {
    let end = number_end(s, i);
    let raw = s.subrange(i, end);
    if is_decimal(raw) {
        Ok((Json::Num(raw), end))
    } else {
        Err("bad number \""@ + raw + "\""@)
    }
}

fn number(chars: &Vec<char>, i: usize) -> (r: Result<(Value, usize), ParseError>)
    requires
        i <= chars@.len(),
    ensures
        match r {
            Ok((v, end)) => number_at(chars@, i as int) == Ok::<(Json, int), Seq<char>>(
                (model(v), end as int),
            ) && i <= end <= chars@.len(),
            Err(e) => number_at(chars@, i as int) == Err::<(Json, int), Seq<char>>(e.0@),
        },
{
    let mut k: usize = i;
    while k < chars.len() && (('0' <= chars[k] && chars[k] <= '9') || chars[k] == '.' || chars[k]
        == 'e' || chars[k] == 'E' || chars[k] == '+' || chars[k] == '-')
        invariant
            i <= k <= chars@.len(),
            number_end(chars@, i as int) == number_end(chars@, k as int),
        decreases chars@.len() - k,
    {
        k += 1;
    }
    let raw = slice_text(chars, i, k);
    match decimal_of(raw.as_str()) {
        Some(_) => Ok((Value::Num(raw), k)),
        None => {
            let mut out = owned("bad number \"");
            out.append(raw.as_str());
            out.append("\"");
            Err(ParseError(out))
        },
    }
}

/// The value `v`, when `word` stands at `i`, and the index past it.
pub open spec fn literal_at(s: Seq<char>, i: int, word: Seq<char>, v: Json) -> Result<
    (Json, int),
    Seq<char>,
> {
    if i + word.len() <= s.len() && s.subrange(i, i + word.len()) == word {
        Ok((v, i + word.len()))
    } else {
        Err("bad literal at byte "@ + dec(byte_at(s, i)))
    }
}

fn literal(chars: &Vec<char>, i: usize, word: &str, v: Value) -> (r: Result<
    (Value, usize),
    ParseError,
>)
    requires
        i <= chars@.len(),
    ensures
        match r {
            Ok((w, end)) => literal_at(chars@, i as int, word@, model(v)) == Ok::<
                (Json, int),
                Seq<char>,
            >((model(w), end as int)) && i <= end <= chars@.len() && end == i + word@.len(),
            Err(e) => literal_at(chars@, i as int, word@, model(v)) == Err::<
                (Json, int),
                Seq<char>,
            >(e.0@),
        },
{
    let n: usize = word.unicode_len();
    if n <= chars.len() - i {
        let here = slice_text(chars, i, i + n);
        if same(here.as_str(), word) {
            return Ok((v, i + n));
        }
    }
    let mut out = owned("bad literal at byte ");
    out.append(byte_text(chars, i).as_str());
    Err(ParseError(out))
}

/// The value that stands at `i`, inside `depth` others, and the index past it.
#[verifier::opaque]
pub open spec fn value_at(s: Seq<char>, i: int, depth: int) -> Result<(Json, int), Seq<char>>
    decreases MAX_DEPTH - depth, 1int, 0int,
{
    if depth >= MAX_DEPTH {
        Err("nesting too deep"@)
    } else if i < 0 || i >= s.len() {
        Err("unexpected end of input"@)
    } else if s[i] == '{' {
        let k = skip_blanks(s, i + 1);
        if k < s.len() && s[k] == '}' {
            Ok((Json::Object(Map::empty()), k + 1))
        } else {
            members_at(s, k, depth + 1, Map::empty())
        }
    } else if s[i] == '[' {
        let k = skip_blanks(s, i + 1);
        if k < s.len() && s[k] == ']' {
            Ok((Json::Array(Seq::empty()), k + 1))
        } else {
            elements_at(s, k, depth + 1, Seq::empty())
        }
    } else if s[i] == '"' {
        match string_at(s, i) {
            Ok((t, end)) => Ok((Json::Str(t), end)),
            Err(e) => Err(e),
        }
    } else if s[i] == 't' {
        literal_at(s, i, "true"@, Json::Bool(true))
    } else if s[i] == 'f' {
        literal_at(s, i, "false"@, Json::Bool(false))
    } else if s[i] == 'n' {
        literal_at(s, i, "null"@, Json::Null)
    } else {
        number_at(s, i)
    }
}

/// The rest of an array from an element at `i` on, after the elements `acc`.
///
/// An element never ends before it begins, so `i < m` always holds below; it is what shows that
/// the reading comes to an end.
#[verifier::opaque]
pub open spec fn elements_at(s: Seq<char>, i: int, depth: int, acc: Seq<Json>) -> Result<
    (Json, int),
    Seq<char>,
>
    decreases MAX_DEPTH - depth, 2int, s.len() - i,
{
    match value_at(s, skip_blanks(s, i), depth) {
        Err(e) => Err(e),
        Ok((v, j)) => {
            let m = skip_blanks(s, j);
            if i < m < s.len() && s[m] == ',' {
                elements_at(s, m + 1, depth, acc.push(v))
            } else if 0 <= m < s.len() && s[m] == ']' {
                Ok((Json::Array(acc.push(v)), m + 1))
            } else {
                Err("bad array at byte "@ + dec(byte_at(s, m)))
            }
        },
    }
}

/// The rest of an object from a member at `i` on, after the members `acc`.
///
/// A member never ends before it begins, so `i < m` always holds below; it is what shows that the
/// reading comes to an end.
#[verifier::opaque]
pub open spec fn members_at(s: Seq<char>, i: int, depth: int, acc: Map<Seq<char>, Json>) -> Result<
    (Json, int),
    Seq<char>,
>
    decreases MAX_DEPTH - depth, 2int, s.len() - i,
{
    match string_at(s, skip_blanks(s, i)) {
        Err(e) => Err(e),
        Ok((key, after_key)) => {
            let colon = skip_blanks(s, after_key);
            if !(0 <= colon < s.len() && s[colon] == ':') {
                Err(expected_at(':', s, colon))
            } else {
                match value_at(s, skip_blanks(s, colon + 1), depth) {
                    Err(e) => Err(e),
                    Ok((v, j)) => {
                        let m = skip_blanks(s, j);
                        if i < m < s.len() && s[m] == ',' {
                            members_at(s, m + 1, depth, acc.insert(key, v))
                        } else if 0 <= m < s.len() && s[m] == '}' {
                            Ok((Json::Object(acc.insert(key, v)), m + 1))
                        } else {
                            Err("bad object at byte "@ + dec(byte_at(s, m)))
                        }
                    },
                }
            }
        },
    }
}

/// What a whole text reads as: one value with nothing but white space around it.
pub open spec fn document(s: Seq<char>) -> Result<Json, Seq<char>> {
    match value_at(s, skip_blanks(s, 0), 0) {
        Err(e) => Err(e),
        Ok((v, j)) => {
            let m = skip_blanks(s, j);
            if m == s.len() {
                Ok(v)
            } else {
                Err("trailing input at byte "@ + dec(byte_at(s, m)))
            }
        },
    }
}

/// Whether members are ordered by name, with no name twice.
pub open spec fn in_order(m: Seq<(String, Value)>) -> bool {
    forall|i: int, j: int| 0 <= i < j < m.len() ==> lex_lt(#[trigger] m[i].0@, #[trigger] m[j].0@)
}

proof fn members_map_insert(m: Seq<(Seq<char>, Json)>, p: int, x: (Seq<char>, Json))
    requires
        0 <= p <= m.len(),
        forall|i: int| 0 <= i < m.len() ==> (#[trigger] m[i]).0 != x.0,
    ensures
        members_map(m.insert(p, x)) == members_map(m).insert(x.0, x.1),
    decreases m.len(),
{
    let w = m.insert(p, x);
    if p == m.len() {
        assert(w.drop_last() =~= m);
    } else {
        assert(w.drop_last() =~= m.drop_last().insert(p, x));
        assert(w.last() == m.last());
        assert forall|i: int| 0 <= i < m.drop_last().len() implies (#[trigger] m.drop_last()[i]).0
            != x.0 by {
            assert(m.drop_last()[i] == m[i]);
        }
        members_map_insert(m.drop_last(), p, x);
        assert(m[m.len() - 1].0 != x.0);
        assert(members_map(w) =~= members_map(m).insert(x.0, x.1));
    }
}

proof fn members_map_update(m: Seq<(Seq<char>, Json)>, p: int, x: (Seq<char>, Json))
    requires
        0 <= p < m.len(),
        forall|i: int| 0 <= i < m.len() && i != p ==> (#[trigger] m[i]).0 != x.0,
        m[p].0 == x.0,
    ensures
        members_map(m.update(p, x)) == members_map(m).insert(x.0, x.1),
    decreases m.len(),
{
    let w = m.update(p, x);
    if p == m.len() - 1 {
        assert(w.drop_last() =~= m.drop_last());
        assert(members_map(w) =~= members_map(m).insert(x.0, x.1));
    } else {
        assert(w.drop_last() =~= m.drop_last().update(p, x));
        assert(w.last() == m.last());
        assert forall|i: int| 0 <= i < m.drop_last().len() && i != p implies (
        #[trigger] m.drop_last()[i]).0 != x.0 by {
            assert(m.drop_last()[i] == m[i]);
        }
        members_map_update(m.drop_last(), p, x);
        assert(m[m.len() - 1].0 != x.0);
        assert(members_map(w) =~= members_map(m).insert(x.0, x.1));
    }
}

/// Puts a member in its place, over a member of the same name if there is one.
fn put(m: &mut Vec<(String, Value)>, key: String, value: Value)
    requires
        in_order(old(m)@),
    ensures
        in_order(final(m)@),
        members_map(members(final(m)@)) == members_map(members(old(m)@)).insert(
            key@,
            model(value),
        ),
{
    let ghost was = m@;
    let mut p: usize = 0;
    while p < m.len() && before(m[p].0.as_str(), key.as_str())
        invariant
            p <= m@.len(),
            m@ == was,
            forall|i: int| 0 <= i < p ==> lex_lt(#[trigger] m@[i].0@, key@),
        decreases m@.len() - p,
    {
        p += 1;
    }
    let replace = p < m.len() && same(m[p].0.as_str(), key.as_str());
    let ghost x = (key@, model(value));
    let ghost entry = (key, value);
    proof {
        assert forall|i: int| 0 <= i < was.len() && i != p implies (#[trigger] was[i]).0@ != key@ by {
            lex_lt_is_total_order(was[i].0@, key@, key@);
            if i > p {
                lex_lt_is_total_order(was[p as int].0@, was[i].0@, key@);
                lex_lt_is_total_order(key@, was[p as int].0@, was[i].0@);
            }
        }
        assert forall|i: int| p <= i < was.len() && !replace implies lex_lt(
            key@,
            #[trigger] was[i].0@,
        ) by {
            lex_lt_is_total_order(key@, was[p as int].0@, was[i].0@);
        }
        assert forall|i: int| p < i < was.len() implies lex_lt(key@, #[trigger] was[i].0@) by {
            lex_lt_is_total_order(key@, was[p as int].0@, was[i].0@);
            assert(lex_lt(was[p as int].0@, was[i].0@));
        }
    }
    if replace {
        m.set(p, (key, value));
        proof {
            assert(members(m@) =~= members(was).update(p as int, x));
            members_map_update(members(was), p as int, x);
            assert forall|i: int, j: int| 0 <= i < j < m@.len() implies lex_lt(
                #[trigger] m@[i].0@,
                #[trigger] m@[j].0@,
            ) by {
                assert(m@[i].0@ == was[i].0@);
                assert(m@[j].0@ == was[j].0@);
            }
        }
    } else {
        m.insert(p, (key, value));
        proof {
            assert(m@ =~= was.insert(p as int, entry));
            assert(members(m@) =~= members(was).insert(p as int, x));
            if p < was.len() {
                lex_lt_is_total_order(was[p as int].0@, key@, key@);
            }
            members_map_insert(members(was), p as int, x);
            assert forall|i: int, j: int| 0 <= i < j < m@.len() implies lex_lt(
                #[trigger] m@[i].0@,
                #[trigger] m@[j].0@,
            ) by {
                let from_i = if i < p {
                    was[i]
                } else {
                    was[i - 1]
                };
                let from_j = if j < p {
                    was[j]
                } else {
                    was[j - 1]
                };
                if i != p {
                    assert(m@[i] == from_i);
                }
                if j != p {
                    assert(m@[j] == from_j);
                }
            }
        }
    }
}

fn value(chars: &Vec<char>, i: usize, depth: u32) -> (r: Result<(Value, usize), ParseError>)
    requires
        i <= chars@.len(),
        depth <= MAX_DEPTH,
    ensures
        match r {
            Ok((v, end)) => value_at(chars@, i as int, depth as int) == Ok::<
                (Json, int),
                Seq<char>,
            >((model(v), end as int)) && i < end <= chars@.len(),
            Err(e) => value_at(chars@, i as int, depth as int) == Err::<(Json, int), Seq<char>>(
                e.0@,
            ),
        },
    decreases MAX_DEPTH - depth, 1int,
{
    proof {
        reveal(value_at);
    }
    if depth >= MAX_DEPTH {
        return Err(ParseError(owned("nesting too deep")));
    }
    if i >= chars.len() {
        return Err(ParseError(owned("unexpected end of input")));
    }
    let c = chars[i];
    if c == '{' {
        object(chars, i, depth)
    } else if c == '[' {
        array(chars, i, depth)
    } else if c == '"' {
        let (t, end) = string(chars, i)?;
        Ok((Value::Str(t), end))
    } else if c == 't' {
        proof {
            reveal_strlit("true");
        }
        literal(chars, i, "true", Value::Bool(true))
    } else if c == 'f' {
        proof {
            reveal_strlit("false");
        }
        literal(chars, i, "false", Value::Bool(false))
    } else if c == 'n' {
        proof {
            reveal_strlit("null");
        }
        literal(chars, i, "null", Value::Null)
    } else {
        let (v, end) = number(chars, i)?;
        proof {
            let raw = chars@.subrange(i as int, end as int);
            assert(is_decimal(raw));
            if end == i {
                assert(crate::number::mantissa(raw).len() == 0);
            }
        }
        Ok((v, end))
    }
}

fn array(chars: &Vec<char>, i: usize, depth: u32) -> (r: Result<(Value, usize), ParseError>)
    requires
        i < chars@.len(),
        chars@[i as int] == '[',
        depth < MAX_DEPTH,
    ensures
        match r {
            Ok((v, end)) => value_at(chars@, i as int, depth as int) == Ok::<
                (Json, int),
                Seq<char>,
            >((model(v), end as int)) && i < end <= chars@.len(),
            Err(e) => value_at(chars@, i as int, depth as int) == Err::<(Json, int), Seq<char>>(
                e.0@,
            ),
        },
    decreases MAX_DEPTH - depth, 0int,
{
    proof {
        reveal(value_at);
        reveal(elements_at);
    }
    let n: usize = chars.len();
    let mut out: Vec<Value> = Vec::new();
    let mut k: usize = skip_ws(chars, i + 1);
    if k < n && chars[k] == ']' {
        proof {
            model_of_array(out);
            assert(models(out@) =~= Seq::<Json>::empty());
        }
        return Ok((Value::Array(out), k + 1));
    }
    assert(models(out@) =~= Seq::<Json>::empty());
    loop
        invariant
            i < k <= n == chars@.len(),
            depth < MAX_DEPTH,
            value_at(chars@, i as int, depth as int) == elements_at(
                chars@,
                k as int,
                depth + 1,
                models(out@),
            ),
        decreases n - k,
    {
        proof {
            reveal(value_at);
            reveal(elements_at);
        }
        let at: usize = skip_ws(chars, k);
        let (v, j) = value(chars, at, depth + 1)?;
        let m: usize = skip_ws(chars, j);
        let ghost known = models(out@);
        let ghost content = model(v);
        out.push(v);
        assert(models(out@) =~= known.push(content));
        if m < n && chars[m] == ',' {
            k = m + 1;
        } else if m < n && chars[m] == ']' {
            proof {
                model_of_array(out);
            }
            return Ok((Value::Array(out), m + 1));
        } else {
            let mut message = owned("bad array at byte ");
            message.append(byte_text(chars, m).as_str());
            return Err(ParseError(message));
        }
    }
}

fn object(chars: &Vec<char>, i: usize, depth: u32) -> (r: Result<(Value, usize), ParseError>)
    requires
        i < chars@.len(),
        chars@[i as int] == '{',
        depth < MAX_DEPTH,
    ensures
        match r {
            Ok((v, end)) => value_at(chars@, i as int, depth as int) == Ok::<
                (Json, int),
                Seq<char>,
            >((model(v), end as int)) && i < end <= chars@.len(),
            Err(e) => value_at(chars@, i as int, depth as int) == Err::<(Json, int), Seq<char>>(
                e.0@,
            ),
        },
    decreases MAX_DEPTH - depth, 0int,
{
    proof {
        reveal(value_at);
        reveal(members_at);
    }
    let n: usize = chars.len();
    let mut out: Vec<(String, Value)> = Vec::new();
    let mut k: usize = skip_ws(chars, i + 1);
    proof {
        model_of_object(out);
        assert(members(out@) =~= Seq::<(Seq<char>, Json)>::empty());
    }
    if k < n && chars[k] == '}' {
        return Ok((Value::Object(out), k + 1));
    }
    loop
        invariant
            i < k <= n == chars@.len(),
            depth < MAX_DEPTH,
            in_order(out@),
            value_at(chars@, i as int, depth as int) == members_at(
                chars@,
                k as int,
                depth + 1,
                members_map(members(out@)),
            ),
        decreases n - k,
    {
        proof {
            reveal(value_at);
            reveal(members_at);
        }
        let at: usize = skip_ws(chars, k);
        let (key, after_key) = string(chars, at)?;
        let colon: usize = skip_ws(chars, after_key);
        if colon >= n || chars[colon] != ':' {
            return Err(expected(':', chars, colon));
        }
        let begin: usize = skip_ws(chars, colon + 1);
        let (v, j) = value(chars, begin, depth + 1)?;
        let m: usize = skip_ws(chars, j);
        put(&mut out, key, v);
        if m < n && chars[m] == ',' {
            k = m + 1;
        } else if m < n && chars[m] == '}' {
            proof {
                model_of_object(out);
            }
            return Ok((Value::Object(out), m + 1));
        } else {
            let mut message = owned("bad object at byte ");
            message.append(byte_text(chars, m).as_str());
            return Err(ParseError(message));
        }
    }
}

/// Reads one JSON value. The whole text must be that value and white space around it.
pub fn parse(text: &str) -> (r: Result<Value, ParseError>)
    ensures
        match r {
            Ok(v) => document(text@) == Ok::<Json, Seq<char>>(model(v)),
            Err(e) => document(text@) == Err::<Json, Seq<char>>(e.0@),
        },
{
    let chars = chars_of(text);
    let at: usize = skip_ws(&chars, 0);
    let (v, j) = value(&chars, at, 0)?;
    let end: usize = skip_ws(&chars, j);
    if end != chars.len() {
        let mut message = owned("trailing input at byte ");
        message.append(byte_text(&chars, end).as_str());
        return Err(ParseError(message));
    }
    Ok(v)
}

impl ParseError {
    /// The complaint as it is shown.
    pub fn to_text(&self) -> (r: String)
        ensures
            r@ == "json: "@ + self.0@,
    {
        let mut out = owned("json: ");
        out.append(self.0.as_str());
        out
    }
}

/// How a character is written inside a JSON string.
pub open spec fn quoted_char(c: char) -> Seq<char> {
    if c == '"' {
        seq!['\\', '"']
    } else if c == '\\' {
        seq!['\\', '\\']
    } else if c == '\n' {
        seq!['\\', 'n']
    } else if c == '\r' {
        seq!['\\', 'r']
    } else if c == '\t' {
        seq!['\\', 't']
    } else if (c as u32) < 0x20 {
        seq!['\\', 'u', '0', '0', hex_digit(c as u32 as int / 16), hex_digit(c as u32 as int % 16)]
    } else {
        seq![c]
    }
}

/// The characters of a text, each as written inside a JSON string.
pub open spec fn quoted_body(s: Seq<char>) -> Seq<char>
    decreases s.len(),
{
    if s.len() == 0 {
        Seq::empty()
    } else {
        quoted_body(s.drop_last()) + quoted_char(s.last())
    }
}

/// The JSON string literal of a text.
pub open spec fn quoted(s: Seq<char>) -> Seq<char> {
    seq!['"'] + quoted_body(s) + seq!['"']
}

/// Escapes a text into a JSON string literal, the surrounding quotes with it.
pub fn quote(s: &str) -> (r: String)
    ensures
        r@ == quoted(s@),
{
    let chars = chars_of(s);
    let mut out = String::new();
    out.push('"');
    let mut i: usize = 0;
    assert(out@ =~= seq!['"'] + quoted_body(s@.take(0)));
    while i < chars.len()
        invariant
            chars@ == s@,
            i <= s@.len(),
            out@ == seq!['"'] + quoted_body(s@.take(i as int)),
        decreases s@.len() - i,
    {
        let c = chars[i];
        let u: u32 = c as u32;
        let ghost known = out@;
        if c == '"' || c == '\\' {
            out.push('\\');
            out.push(c);
        } else if c == '\n' {
            out.push('\\');
            out.push('n');
        } else if c == '\r' {
            out.push('\\');
            out.push('r');
        } else if c == '\t' {
            out.push('\\');
            out.push('t');
        } else if u < 0x20 {
            out.push('\\');
            out.push('u');
            out.push('0');
            out.push('0');
            out.push(hex_char((u / 16) as u8));
            out.push(hex_char((u % 16) as u8));
        } else {
            out.push(c);
        }
        proof {
            assert(out@ =~= known + quoted_char(c));
            let next = s@.take(i as int + 1);
            assert(next.drop_last() =~= s@.take(i as int));
            assert(out@ =~= seq!['"'] + quoted_body(next));
        }
        i += 1;
    }
    assert(s@.take(i as int) =~= s@);
    out.push('"');
    assert(out@ =~= quoted(s@));
    out
}

/// UTF-8 takes at least one byte for each character.
pub proof fn encoding_is_no_shorter(s: Seq<char>)
    ensures
        encode_utf8(s).len() >= s.len(),
    decreases s.len(),
{
    if s.len() > 0 {
        encoding_is_no_shorter(s.drop_first());
    }
}

/// One quoted character reads back as that character.
proof fn quoted_char_reads_back(s: Seq<char>, i: int, acc: Seq<char>, c: char)
    requires
        0 <= i,
        i + quoted_char(c).len() <= s.len(),
        s.subrange(i, i + quoted_char(c).len()) == quoted_char(c),
    ensures
        string_rest(s, i, acc) == string_rest(s, i + quoted_char(c).len(), acc.push(c)),
{
    let q = quoted_char(c);
    let part = s.subrange(i, i + q.len());
    assert(forall|k: int| 0 <= k < q.len() ==> part[k] == s[i + k]);
    assert(q[0] == s[i]);
    if q.len() > 1 {
        assert(q[1] == s[i + 1]);
    }
    if q.len() == 6 {
        let u = c as u32;
        assert(q[2] == s[i + 2] && q[3] == s[i + 3] && q[4] == s[i + 4] && q[5] == s[i + 5]);
        encoding_is_no_shorter(s.skip(i + 2));
        let d = s.subrange(i + 2, i + 6);
        assert(d =~= seq!['0', '0', hex_digit(u as int / 16), hex_digit(u as int % 16)]);
        let d3 = d.drop_last();
        let d2 = d3.drop_last();
        let d1 = d2.drop_last();
        assert(d1.drop_last() =~= Seq::<char>::empty());
        assert(hex_number(Seq::<char>::empty()) == Some(0nat));
        assert(hex_value('0') == Some(0u32));
        assert(hex_number(d1) == Some(0nat));
        assert(hex_number(d2) == Some(0nat));
        assert(hex_value(hex_digit(u as int / 16)) == Some((u / 16) as u32));
        assert(hex_number(d3) == Some((u / 16) as nat));
        assert(hex_value(hex_digit(u as int % 16)) == Some((u % 16) as u32));
        assert(hex_number(d) == Some(u as nat));
        char_u32_cast(c, u);
    }
}

/// A quoted text reads back as that text, character by character.
proof fn quoted_body_reads_back(s: Seq<char>, i: int, acc: Seq<char>, t: Seq<char>)
    requires
        0 <= i,
        i + quoted_body(t).len() <= s.len(),
        s.subrange(i, i + quoted_body(t).len()) == quoted_body(t),
    ensures
        string_rest(s, i, acc) == string_rest(s, i + quoted_body(t).len(), acc + t),
    decreases t.len(),
{
    if t.len() == 0 {
        assert(acc + t =~= acc);
    } else {
        let head = quoted_body(t.drop_last());
        let last = quoted_char(t.last());
        let whole = s.subrange(i, i + quoted_body(t).len());
        assert(s.subrange(i, i + head.len()) =~= whole.take(head.len() as int));
        assert(whole.take(head.len() as int) =~= head);
        quoted_body_reads_back(s, i, acc, t.drop_last());
        let j = i + head.len();
        assert(s.subrange(j, j + last.len()) =~= whole.skip(head.len() as int));
        assert(whole.skip(head.len() as int) =~= last);
        quoted_char_reads_back(s, j, acc + t.drop_last(), t.last());
        assert((acc + t.drop_last()).push(t.last()) =~= acc + t);
    }
}

/// Wherever the literal of a text stands, the string read there is that text, and reading goes on
/// right behind the literal.
pub proof fn quoted_text_reads_back(before: Seq<char>, t: Seq<char>, after: Seq<char>)
    ensures
        string_at(before + quoted(t) + after, before.len() as int) == Ok::<
            (Seq<char>, int),
            Seq<char>,
        >((t, (before.len() + quoted(t).len()) as int)),
{
    let s = before + quoted(t) + after;
    let i = before.len() as int;
    let body = quoted_body(t);
    assert(quoted(t)[0] == '"');
    assert(s[i] == quoted(t)[0]);
    assert(s.subrange(i + 1, i + 1 + body.len()) =~= body);
    quoted_body_reads_back(s, i + 1, Seq::empty(), t);
    assert(Seq::<char>::empty() + t =~= t);
    assert(s[i + 1 + body.len()] == '"');
}

/// Quoting round-trips: the literal of any text is a JSON document that reads as that text.
pub proof fn quote_round_trips(t: Seq<char>)
    ensures
        document(quoted(t)) == Ok::<Json, Seq<char>>(Json::Str(t)),
{
    reveal(value_at);
    let e = Seq::<char>::empty();
    assert(e + quoted(t) + e =~= quoted(t));
    quoted_text_reads_back(e, t, e);
    assert(quoted(t)[0] == '"');
}

/// Where an opening bracket stands at each of the remaining levels, the reading is refused.
proof fn brackets_run_out(s: Seq<char>, i: int, depth: int)
    requires
        0 <= depth <= MAX_DEPTH,
        0 <= i,
        i + (MAX_DEPTH - depth) < s.len(),
        forall|k: int| i <= k <= i + (MAX_DEPTH - depth) ==> #[trigger] s[k] == '[',
    ensures
        value_at(s, i, depth) == Err::<(Json, int), Seq<char>>("nesting too deep"@),
    decreases MAX_DEPTH - depth,
{
    reveal(value_at);
    reveal(elements_at);
    if depth < MAX_DEPTH {
        assert(s[i] == '[');
        assert(s[i + 1] == '[');
        brackets_run_out(s, i + 1, depth + 1);
        assert(skip_blanks(s, i + 1) == i + 1);
        assert(elements_at(s, i + 1, depth + 1, Seq::empty()) == Err::<(Json, int), Seq<char>>(
            "nesting too deep"@,
        ));
    }
}

/// Nesting is bounded: a text that opens more arrays than the limit is refused for it, whatever
/// follows.
pub proof fn deep_nesting_is_refused(n: nat, rest: Seq<char>)
    requires
        n > MAX_DEPTH,
    ensures
        document(Seq::new(n, |i: int| '[') + rest) == Err::<Json, Seq<char>>("nesting too deep"@),
{
    let s = Seq::new(n, |i: int| '[') + rest;
    assert(s[0] == '[');
    assert(skip_blanks(s, 0) == 0);
    brackets_run_out(s, 0, 0);
}

/// The four hexadecimal digits of a code unit.
pub open spec fn unit_text(n: u32) -> Seq<char> {
    seq![
        hex_digit(n as int / 4096),
        hex_digit(n as int / 256 % 16),
        hex_digit(n as int / 16 % 16),
        hex_digit(n as int % 16),
    ]
}

proof fn digits_have_their_value(d: int)
    requires
        0 <= d < 16,
    ensures
        hex_value(hex_digit(d)) == Some(d as u32),
        hex_digit(d) != '+',
{
}

proof fn units_read_back(b: Seq<char>, n: u32, a: Seq<char>)
    requires
        n < 0x10000,
    ensures
        unit_at(b + unit_text(n) + a, b.len() as int) == Ok::<u32, Seq<char>>(n),
{
    let s = b + unit_text(n) + a;
    let i = b.len() as int;
    let t = unit_text(n);
    encoding_is_no_shorter(s.skip(i));
    assert(s.subrange(i, i + 4) =~= t);
    assert(s[i] == t[0]);
    let w = n as int / 4096;
    let x = n as int / 256 % 16;
    let y = n as int / 16 % 16;
    let z = n as int % 16;
    digits_have_their_value(w);
    digits_have_their_value(x);
    digits_have_their_value(y);
    digits_have_their_value(z);
    let t3 = t.drop_last();
    let t2 = t3.drop_last();
    let t1 = t2.drop_last();
    assert(t1.drop_last() =~= Seq::<char>::empty());
    assert(hex_number(Seq::<char>::empty()) == Some(0nat));
    assert(hex_number(t1) == Some(w as nat));
    assert(hex_number(t2) == Some((16 * w + x) as nat));
    assert(hex_number(t3) == Some((16 * (16 * w + x) + y) as nat));
    assert(hex_number(t) == Some((16 * (16 * (16 * w + x) + y) + z) as nat));
    assert(16 * (16 * (16 * w + x) + y) + z == n);
}

/// Any character can be written as an escape and is read back: one of the basic plane as one code
/// unit, one beyond it as two, the high one first.
pub proof fn escapes_read_back(b: Seq<char>, c: char, a: Seq<char>)
    ensures
        (c as u32) < 0x10000 ==> escape_at(b + unit_text(c as u32) + a, b.len() as int) == Ok::<
            (char, bool),
            Seq<char>,
        >((c, false)),
        c as u32 >= 0x10000 ==> ({
            let u = (c as u32 - 0x10000) as u32;
            let hi = (0xd800 + u / 1024) as u32;
            let lo = (0xdc00 + u % 1024) as u32;
            escape_at(
                b + unit_text(hi) + (seq!['\\', 'u'] + unit_text(lo) + a),
                b.len() as int,
            ) == Ok::<(char, bool), Seq<char>>((c, true))
        }),
{
    char_is_scalar(c);
    if (c as u32) < 0x10000 {
        units_read_back(b, c as u32, a);
    } else {
        let u = (c as u32 - 0x10000) as u32;
        let hi = (0xd800 + u / 1024) as u32;
        let lo = (0xdc00 + u % 1024) as u32;
        let s = b + unit_text(hi) + (seq!['\\', 'u'] + unit_text(lo) + a);
        let i = b.len() as int;
        units_read_back(b, hi, seq!['\\', 'u'] + unit_text(lo) + a);
        let front = b + unit_text(hi) + seq!['\\', 'u'];
        assert(s =~= front + unit_text(lo) + a);
        units_read_back(front, lo, a);
        assert(s[i + 4] == '\\' && s[i + 5] == 'u');
        assert(0x10000 + (hi - 0xd800) * 1024 + (lo - 0xdc00) == c as u32);
    }
}

/// Of two members of one name the last wins, and a member of another name is left as it was.
pub proof fn the_last_member_wins(m: Seq<(Seq<char>, Json)>, key: Seq<char>, v: Json, other: Seq<char>)
    ensures
        field(Json::Object(members_map(m.push((key, v)))), key) == Some(v),
        other != key ==> field(Json::Object(members_map(m.push((key, v)))), other) == field(
            Json::Object(members_map(m)),
            other,
        ),
        field(Json::Object(members_map(Seq::empty())), key) is None,
{
    assert(m.push((key, v)).drop_last() =~= m);
}

} // verus!
