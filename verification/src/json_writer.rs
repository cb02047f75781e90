//! Writing JSON: objects and arrays put together from member and element texts.
//!
//! A text `reads_as` a value when a reader that meets it, whatever stands around it, takes in
//! exactly that value and goes on right behind it. What is put together here reads as what it was
//! put together from.
use vstd::arithmetic::power2::pow2;
use vstd::prelude::*;
use vstd::string::*;

use crate::binary64::nearest;
use crate::json::{
    document,
    elements_at,
    in_number,
    is_blank,
    members_at,
    number_end,
    quote,
    quoted,
    quoted_text_reads_back,
    skip_blanks,
    string_at,
    value_at,
    Json,
    MAX_DEPTH,
};
use crate::number::{
    bits,
    bits_bounds,
    denominator,
    is_decimal,
    nearest_whole,
    numerator,
    reading,
    round_to_unit,
    unsigned,
    Reading,
};
use crate::numeral::float_value;
use crate::text::{all_digits, dec, find_from, find_from_is_first, int_dec, is_digit, lower, views};

verus! {

/// The texts from the `k`-th on, with commas between them.
pub open spec fn comma_from(parts: Seq<Seq<char>>, k: int) -> Seq<char>
    decreases parts.len() - k,
{
    if k < 0 || k >= parts.len() {
        Seq::empty()
    } else if k == parts.len() - 1 {
        parts[k]
    } else {
        parts[k] + seq![','] + comma_from(parts, k + 1)
    }
}

/// A member of an object: its quoted name, a colon, its value's text.
pub open spec fn member_text(m: (Seq<char>, Seq<char>)) -> Seq<char> {
    quoted(m.0) + seq![':'] + m.1
}

/// The texts of the members.
pub open spec fn member_texts(m: Seq<(Seq<char>, Seq<char>)>) -> Seq<Seq<char>> {
    Seq::new(m.len(), |i: int| member_text(m[i]))
}

/// An object, from the names and value texts of its members.
#[verifier::opaque]
pub open spec fn object_text(m: Seq<(Seq<char>, Seq<char>)>) -> Seq<char> {
    seq!['{'] + comma_from(member_texts(m), 0) + seq!['}']
}

/// An array, from the texts of its elements.
#[verifier::opaque]
pub open spec fn array_text(parts: Seq<Seq<char>>) -> Seq<char> {
    seq!['['] + comma_from(parts, 0) + seq![']']
}

/// The texts with commas between them.
pub fn comma_list(parts: &Vec<String>) -> (r: String)
    ensures
        r@ == comma_from(views(parts@), 0),
{
    let mut out = String::new();
    let mut k: usize = 0;
    let ghost all = views(parts@);
    assert(out@ + comma_from(all, 0) =~= comma_from(all, 0));
    while k < parts.len()
        invariant
            k <= parts@.len(),
            all == views(parts@),
            out@ + comma_from(all, k as int) == comma_from(all, 0),
        decreases parts@.len() - k,
    {
        let ghost known = out@;
        out.append(parts[k].as_str());
        if k + 1 < parts.len() {
            out.push(',');
            assert(out@ + comma_from(all, k + 1) =~= known + comma_from(all, k as int));
        } else {
            assert(out@ + comma_from(all, k + 1) =~= known + comma_from(all, k as int));
        }
        k += 1;
    }
    assert(out@ + comma_from(all, k as int) =~= out@);
    out
}

/// An array, from the texts of its elements.
pub fn array_of(parts: &Vec<String>) -> (r: String)
    ensures
        r@ == array_text(views(parts@)),
{
    let mut out = String::new();
    out.push('[');
    proof {
        reveal(array_text);
    }
    out.append(comma_list(parts).as_str());
    out.push(']');
    assert(out@ =~= array_text(views(parts@)));
    out
}

/// The names and value texts of members.
pub open spec fn pairs_view(m: Seq<(&str, String)>) -> Seq<(Seq<char>, Seq<char>)> {
    Seq::new(m.len(), |i: int| (m[i].0@, m[i].1@))
}

/// An object, from the names and value texts of its members.
pub fn object_of(m: &Vec<(&str, String)>) -> (r: String)
    ensures
        r@ == object_text(pairs_view(m@)),
{
    let mut parts: Vec<String> = Vec::new();
    let mut k: usize = 0;
    while k < m.len()
        invariant
            k <= m@.len(),
            parts@.len() == k,
            forall|i: int| 0 <= i < k ==> (#[trigger] parts@[i])@ == member_text(pairs_view(m@)[i]),
        decreases m@.len() - k,
    {
        let mut part = quote(m[k].0);
        part.push(':');
        part.append(m[k].1.as_str());
        assert(part@ =~= member_text(pairs_view(m@)[k as int]));
        parts.push(part);
        k += 1;
    }
    assert(views(parts@) =~= member_texts(pairs_view(m@)));
    proof {
        reveal(object_text);
    }
    let mut out = String::new();
    out.push('{');
    out.append(comma_list(&parts).as_str());
    out.push('}');
    assert(out@ =~= object_text(pairs_view(m@)));
    out
}

/// Whether a number before `after` would end there.
pub open spec fn stops(after: Seq<char>) -> bool {
    after.len() == 0 || !in_number(after[0])
}

/// Whether `t`, nesting no deeper than `h` values, reads as `v` wherever it stands.
#[verifier::opaque]
pub open spec fn reads_as(t: Seq<char>, v: Json, h: int) -> bool {
    &&& t.len() > 0
    &&& !is_blank(t[0])
    &&& forall|b: Seq<char>, a: Seq<char>, d: int|
        0 <= d && d + h <= MAX_DEPTH && stops(a) ==> #[trigger] value_at(b + t + a, b.len() as int, d)
            == Ok::<(Json, int), Seq<char>>((v, (b.len() + t.len()) as int))
}

/// What it means to read as a value, at one place.
pub proof fn read_here(t: Seq<char>, v: Json, h: int, b: Seq<char>, a: Seq<char>, d: int)
    requires
        reads_as(t, v, h),
        0 <= d,
        d + h <= MAX_DEPTH,
        stops(a),
    ensures
        t.len() > 0,
        !is_blank(t[0]),
        value_at(b + t + a, b.len() as int, d) == Ok::<(Json, int), Seq<char>>(
            (v, (b.len() + t.len()) as int),
        ),
{
    reveal(reads_as);
}

/// A text that reads as a value does so at any greater nesting allowance.
pub proof fn reads_deeper(t: Seq<char>, v: Json, h: int, more: int)
    requires
        reads_as(t, v, h),
        h <= more,
    ensures
        reads_as(t, v, more),
{
    reveal(reads_as);
}

/// The literal of a text reads as that text.
pub proof fn reads_string(t: Seq<char>)
    ensures
        reads_as(quoted(t), Json::Str(t), 1),
{
    reveal(reads_as);
    reveal(value_at);
    let q = quoted(t);
    assert(q[0] == '"');
    assert forall|b: Seq<char>, a: Seq<char>, d: int|
        0 <= d && d + 1 <= MAX_DEPTH && stops(a) implies #[trigger] value_at(
        b + q + a,
        b.len() as int,
        d,
    ) == Ok::<(Json, int), Seq<char>>((Json::Str(t), (b.len() + q.len()) as int)) by {
        quoted_text_reads_back(b, t, a);
        assert((b + q + a)[b.len() as int] == '"');
    }
}

proof fn reads_word(word: Seq<char>, v: Json)
    requires
        (word == "true"@ && v == Json::Bool(true)) || (word == "false"@ && v == Json::Bool(false))
            || (word == "null"@ && v == Json::Null),
    ensures
        reads_as(word, v, 1),
{
    reveal(reads_as);
    reveal(value_at);
    reveal_strlit("true");
    reveal_strlit("false");
    reveal_strlit("null");
    assert forall|b: Seq<char>, a: Seq<char>, d: int|
        0 <= d && d + 1 <= MAX_DEPTH && stops(a) implies #[trigger] value_at(
        b + word + a,
        b.len() as int,
        d,
    ) == Ok::<(Json, int), Seq<char>>((v, (b.len() + word.len()) as int)) by {
        let s = b + word + a;
        let i = b.len() as int;
        assert(s[i] == word[0]);
        assert(s.subrange(i, i + word.len()) =~= word);
    }
}

/// `true` reads as true and `false` as false.
pub proof fn reads_bool(b: bool)
    ensures
        b ==> reads_as("true"@, Json::Bool(true), 1),
        !b ==> reads_as("false"@, Json::Bool(false), 1),
{
    if b {
        reads_word("true"@, Json::Bool(true));
    } else {
        reads_word("false"@, Json::Bool(false));
    }
}

/// `null` reads as null.
pub proof fn reads_null()
    ensures
        reads_as("null"@, Json::Null, 1),
{
    reads_word("null"@, Json::Null);
}

/// A decimal numeral is one or more digits.
pub proof fn dec_is_digits(n: nat)
    ensures
        all_digits(dec(n)),
    decreases n,
{
    if n >= 10 {
        dec_is_digits(n / 10);
        let d = dec(n);
        assert forall|i: int| 0 <= i < d.len() implies is_digit(#[trigger] d[i]) by {
            if i < d.len() - 1 {
                assert(d[i] == dec(n / 10)[i]);
            }
        }
    }
}

/// Where no character is `c`, none is found.
proof fn find_none(s: Seq<char>, c: char, i: int)
    requires
        0 <= i <= s.len(),
        forall|k: int| i <= k < s.len() ==> s[k] != c,
    ensures
        find_from(s, c, i) == s.len(),
{
    find_from_is_first(s, c, i);
}

/// The numeral of an integer is a decimal number.
pub proof fn int_dec_is_decimal(n: int)
    ensures
        is_decimal(int_dec(n)),
        int_dec(n).len() > 0,
        crate::number::significand(int_dec(n)) == dec(if n < 0 {
            (-n) as nat
        } else {
            n as nat
        }),
        crate::number::scale(int_dec(n)) == 0,
        crate::number::signed_minus(int_dec(n)) == (n < 0),
        forall|i: int| 0 <= i < int_dec(n).len() ==> in_number(#[trigger] int_dec(n)[i]),
{
    let m = if n < 0 {
        (-n) as nat
    } else {
        n as nat
    };
    let d = dec(m);
    dec_is_digits(m);
    let s = int_dec(n);
    assert(is_digit(d[0]));
    assert(unsigned(s) =~= d);
    assert forall|k: int| 0 <= k < d.len() implies #[trigger] lower(d)[k] != 'e' && d[k] != '.' by {
        assert(is_digit(d[k]));
    }
    find_none(lower(d), 'e', 0);
    find_none(d, '.', 0);
    assert(d.take(d.len() as int) =~= d);
    assert(crate::number::fraction_digits(d) =~= Seq::<char>::empty());
    assert(crate::number::significand(s) =~= d);
    assert forall|i: int| 0 <= i < s.len() implies in_number(#[trigger] s[i]) by {
        if n < 0 {
            if i > 0 {
                assert(s[i] == d[i - 1]);
                assert(is_digit(d[i - 1]));
            }
        } else {
            assert(is_digit(d[i]));
        }
    }
}

/// The numeral of a number has that number's value.
pub proof fn dec_value(n: nat)
    ensures
        crate::text::digits_value(dec(n)) == n,
    decreases n,
{
    let d = dec(n);
    if n < 10 {
        assert(d.drop_last() =~= Seq::<char>::empty());
        assert(crate::text::digits_value(Seq::<char>::empty()) == 0);
    } else {
        dec_value(n / 10);
        assert(d.drop_last() =~= dec(n / 10));
    }
}

/// A whole number no greater than 2^53 is a binary64 value itself.
pub proof fn nearest_of_exact(m: nat)
    requires
        m <= 0x20_0000_0000_0000,
    ensures
        nearest_whole(m, 1) == m,
        crate::number::nearest_is_whole(m, 1),
{
    vstd::arithmetic::power2::lemma2_to64();
    vstd::arithmetic::power2::lemma2_to64_rest();
    assert(m / 1 == m && m % 1 == 0);
    if m >= pow2(52) {
        bits_bounds(m);
        let b = bits(m);
        if b < 53 {
            if b < 52 {
                vstd::arithmetic::power2::lemma_pow2_strictly_increases(b, 52);
            }
        }
        if b > 54 {
            vstd::arithmetic::power2::lemma_pow2_strictly_increases(54, b);
            if b - 1 > 54 {
                vstd::arithmetic::power2::lemma_pow2_strictly_increases(54, (b - 1) as nat);
            }
        }
        assert(b == 53 || b == 54);
        if b == 54 {
            assert(m == 0x20_0000_0000_0000);
            assert(round_to_unit(m, 0, 1, 2) == m);
        } else {
            assert(m % 1 == 0 && m / 1 == m);
            assert(round_to_unit(m, 0, 1, 1) == m);
        }
    } else {
        if m > 0 {
            bits_bounds(m);
            if bits(m) > 52 {
                if bits(m) - 1 > 52 {
                    vstd::arithmetic::power2::lemma_pow2_strictly_increases(
                        52,
                        (bits(m) - 1) as nat,
                    );
                }
            }
        }
        let k = (54 - bits(m)) as nat;
        vstd::arithmetic::power2::lemma_pow2_strictly_increases(0, k);
        assert(0 * pow2(k) == 0 && 1 * (pow2(k) - 1) > 0);
        assert(0 * pow2(1075) == 0);
    }
    assert(crate::number::nearest_is_whole(m, 1));
}

/// The numeral of an integer no further from zero than 2^53 reads as exactly that integer.
pub proof fn integers_read_exactly(n: int)
    requires
        -0x20_0000_0000_0000 <= n <= 0x20_0000_0000_0000,
    ensures
        reading(int_dec(n)) == Some(
            Reading::Finite {
                negative: n < 0,
                whole: (if n < 0 {
                    -n
                } else {
                    n
                }) as u64,
                exact: true,
            },
        ),
{
    let m: nat = if n < 0 {
        (-n) as nat
    } else {
        n as nat
    };
    let s = int_dec(n);
    int_dec_is_decimal(n);
    dec_value(m);
    dec_is_digits(m);
    let word = lower(unsigned(s));
    assert(unsigned(s) =~= dec(m)) by {
        assert(is_digit(dec(m)[0]));
    }
    assert(is_digit(dec(m)[0]));
    assert(word[0] == dec(m)[0]);
    reveal_strlit("nan");
    reveal_strlit("inf");
    reveal_strlit("infinity");
    assert("nan"@[0] == 'n' && "inf"@[0] == 'i' && "infinity"@[0] == 'i');
    vstd::arithmetic::power::lemma_pow0(10);
    assert(numerator(s) == m);
    assert(denominator(s) == 1);
    nearest_of_exact(m);
}

/// The numeral of a whole number reads as the binary64 value nearest to it.
pub proof fn integers_read_as_nearest(n: nat)
    ensures
        float_value(int_dec(n as int)) == Some(nearest(n, 1)),
{
    let s = int_dec(n as int);
    int_dec_is_decimal(n as int);
    dec_value(n);
    dec_is_digits(n);
    assert(s =~= dec(n));
    assert(is_digit(s[0]));
    let word = lower(unsigned(s));
    assert(unsigned(s) =~= s);
    assert(word[0] == s[0]);
    reveal_strlit("nan");
    reveal_strlit("inf");
    reveal_strlit("infinity");
    assert("nan"@[0] == 'n' && "inf"@[0] == 'i' && "infinity"@[0] == 'i');
    vstd::arithmetic::power::lemma_pow0(10);
    assert(numerator(s) == n);
    assert(denominator(s) == 1);
}

proof fn number_end_reaches(s: Seq<char>, i: int, end: int)
    requires
        0 <= i <= end <= s.len(),
        forall|k: int| i <= k < end ==> in_number(#[trigger] s[k]),
        end == s.len() || !in_number(s[end]),
    ensures
        number_end(s, i) == end,
    decreases end - i,
{
    if i < end {
        assert(in_number(s[i]));
        number_end_reaches(s, i + 1, end);
    }
}

/// A decimal number that begins with a digit or a minus sign reads as itself.
pub proof fn reads_number(t: Seq<char>)
    requires
        is_decimal(t),
        t.len() > 0,
        t[0] == '-' || is_digit(t[0]),
        forall|i: int| 0 <= i < t.len() ==> in_number(#[trigger] t[i]),
    ensures
        reads_as(t, Json::Num(t), 1),
{
    reveal(reads_as);
    reveal(value_at);
    assert forall|b: Seq<char>, a: Seq<char>, d: int|
        0 <= d && d + 1 <= MAX_DEPTH && stops(a) implies #[trigger] value_at(
        b + t + a,
        b.len() as int,
        d,
    ) == Ok::<(Json, int), Seq<char>>((Json::Num(t), (b.len() + t.len()) as int)) by {
        let s = b + t + a;
        let i = b.len() as int;
        assert forall|k: int| i <= k < i + t.len() implies in_number(#[trigger] s[k]) by {
            assert(s[k] == t[k - i]);
        }
        number_end_reaches(s, i, i + t.len());
        assert(s.subrange(i, i + t.len()) =~= t);
        assert(s[i] == t[0]);
    }
}

/// The numeral of an integer reads as that numeral.
pub proof fn reads_int(n: int)
    ensures
        reads_as(int_dec(n), Json::Num(int_dec(n)), 1),
{
    int_dec_is_decimal(n);
    if n >= 0 {
        dec_is_digits(n as nat);
        assert(is_digit(int_dec(n)[0]));
    }
    reads_number(int_dec(n));
}

/// The map with the members from the `k`-th on put into it, one after the other.
pub open spec fn with_members(
    acc: Map<Seq<char>, Json>,
    m: Seq<(Seq<char>, Json)>,
    k: int,
) -> Map<Seq<char>, Json>
    decreases m.len() - k,
{
    if k < 0 || k >= m.len() {
        acc
    } else {
        with_members(acc.insert(m[k].0, m[k].1), m, k + 1)
    }
}

proof fn member_step(
    s: Seq<char>,
    i: int,
    depth: int,
    acc: Map<Seq<char>, Json>,
    key: Seq<char>,
    after_key: int,
    val: Json,
    j: int,
)
    requires
        0 <= i < after_key < s.len() - 1,
        s[i] == '"',
        string_at(s, i) == Ok::<(Seq<char>, int), Seq<char>>((key, after_key)),
        s[after_key] == ':',
        !is_blank(s[after_key + 1]),
        value_at(s, after_key + 1, depth) == Ok::<(Json, int), Seq<char>>((val, j)),
        i < j < s.len(),
        s[j] == ',' || s[j] == '}',
    ensures
        s[j] == ',' ==> members_at(s, i, depth, acc) == members_at(
            s,
            j + 1,
            depth,
            acc.insert(key, val),
        ),
        s[j] == '}' ==> members_at(s, i, depth, acc) == Ok::<(Json, int), Seq<char>>(
            (Json::Object(acc.insert(key, val)), j + 1),
        ),
{
    reveal(members_at);
    reveal(value_at);
    assert(skip_blanks(s, i) == i);
    assert(skip_blanks(s, after_key) == after_key);
    assert(skip_blanks(s, after_key + 1) == after_key + 1);
    assert(skip_blanks(s, j) == j);
}

proof fn element_step(s: Seq<char>, i: int, depth: int, acc: Seq<Json>, val: Json, j: int)
    requires
        0 <= i < j < s.len(),
        !is_blank(s[i]),
        value_at(s, i, depth) == Ok::<(Json, int), Seq<char>>((val, j)),
        s[j] == ',' || s[j] == ']',
    ensures
        s[j] == ',' ==> elements_at(s, i, depth, acc) == elements_at(
            s,
            j + 1,
            depth,
            acc.push(val),
        ),
        s[j] == ']' ==> elements_at(s, i, depth, acc) == Ok::<(Json, int), Seq<char>>(
            (Json::Array(acc.push(val)), j + 1),
        ),
{
    reveal(elements_at);
    reveal(value_at);
    assert(skip_blanks(s, i) == i);
    assert(skip_blanks(s, j) == j);
}

/// One text of a member, its surroundings grouped in the ways that reading it needs.
proof fn member_layout(b: Seq<char>, q: Seq<char>, t: Seq<char>, tail: Seq<char>)
    requires
        q.len() > 0,
        t.len() > 0,
        tail.len() > 0,
    ensures
        ({
            let s = b + (q + seq![':'] + t) + tail;
            let at = (b.len() + q.len()) as int;
            &&& s == b + q + (seq![':'] + t + tail)
            &&& s == (b + q + seq![':']) + t + tail
            &&& s[b.len() as int] == q[0]
            &&& s[at] == ':'
            &&& s[at + 1] == t[0]
            &&& s[at + 1 + t.len()] == tail[0]
            &&& s.len() == at + 1 + t.len() + tail.len()
        }),
{
    let s = b + (q + seq![':'] + t) + tail;
    assert(s =~= b + q + (seq![':'] + t + tail));
    assert(s =~= (b + q + seq![':']) + t + tail);
}

/// One member, read in place: reading goes on behind it, or the object ends there.
proof fn member_reads_here(
    b: Seq<char>,
    key: Seq<char>,
    t: Seq<char>,
    val: Json,
    h: int,
    tail: Seq<char>,
    depth: int,
    acc: Map<Seq<char>, Json>,
)
    requires
        reads_as(t, val, h),
        0 <= depth,
        depth + h <= MAX_DEPTH,
        tail.len() > 0,
        tail[0] == ',' || tail[0] == '}',
    ensures
        ({
            let s = b + member_text((key, t)) + tail;
            let j = (b.len() + member_text((key, t)).len()) as int;
            &&& tail[0] == ',' ==> members_at(s, b.len() as int, depth, acc) == members_at(
                s,
                j + 1,
                depth,
                acc.insert(key, val),
            )
            &&& tail[0] == '}' ==> members_at(s, b.len() as int, depth, acc) == Ok::<
                (Json, int),
                Seq<char>,
            >((Json::Object(acc.insert(key, val)), j + 1))
        }),
{
    let q = quoted(key);
    let s = b + member_text((key, t)) + tail;
    assert(q.len() > 0 && q[0] == '"');
    assert(stops(tail));
    read_here(t, val, h, b + q + seq![':'], tail, depth);
    member_layout(b, q, t, tail);
    quoted_text_reads_back(b, key, seq![':'] + t + tail);
    let after_key = b.len() + q.len();
    let j = after_key + 1 + t.len();
    member_step(s, b.len() as int, depth, acc, key, after_key as int, val, j as int);
}

/// A list of members from one on, as that member and what follows it.
proof fn members_layout(b: Seq<char>, here: Seq<char>, more: Seq<char>, a: Seq<char>)
    ensures
        b + here + seq!['}'] + a == b + here + (seq!['}'] + a),
        b + (here + seq![','] + more) + seq!['}'] + a == b + here + (seq![','] + more + seq!['}']
            + a),
        b + here + (seq![','] + more + seq!['}'] + a) == (b + here + seq![',']) + more + seq!['}']
            + a,
{
    assert(b + here + seq!['}'] + a =~= b + here + (seq!['}'] + a));
    assert(b + (here + seq![','] + more) + seq!['}'] + a =~= b + here + (seq![','] + more + seq![
        '}',
    ] + a));
    assert(b + here + (seq![','] + more + seq!['}'] + a) =~= (b + here + seq![',']) + more + seq![
        '}',
    ] + a);
}

proof fn reads_members(
    b: Seq<char>,
    m: Seq<(Seq<char>, Seq<char>)>,
    v: Seq<(Seq<char>, Json)>,
    k: int,
    a: Seq<char>,
    depth: int,
    h: int,
    acc: Map<Seq<char>, Json>,
)
    requires
        0 <= k < m.len(),
        m.len() == v.len(),
        forall|i: int|
            0 <= i < m.len() ==> (#[trigger] m[i]).0 == v[i].0 && reads_as(m[i].1, v[i].1, h),
        0 <= depth,
        depth + h <= MAX_DEPTH,
    ensures
        members_at(
            b + comma_from(member_texts(m), k) + seq!['}'] + a,
            b.len() as int,
            depth,
            acc,
        ) == Ok::<(Json, int), Seq<char>>(
            (
                Json::Object(with_members(acc, v, k)),
                (b.len() + comma_from(member_texts(m), k).len() + 1) as int,
            ),
        ),
    decreases m.len() - k,
{
    let key = m[k].0;
    let t = m[k].1;
    let val = v[k].1;
    let more = comma_from(member_texts(m), k + 1);
    let here = member_text(m[k]);
    assert(member_texts(m)[k] == here);
    assert(m[k].0 == v[k].0 && reads_as(m[k].1, v[k].1, h));
    assert(here == member_text((key, t)));
    members_layout(b, here, more, a);
    if k == m.len() - 1 {
        member_reads_here(b, key, t, val, h, seq!['}'] + a, depth, acc);
        assert(with_members(acc, v, k) == with_members(acc.insert(key, val), v, k + 1));
    } else {
        member_reads_here(b, key, t, val, h, seq![','] + more + seq!['}'] + a, depth, acc);
        reads_members(b + here + seq![','], m, v, k + 1, a, depth, h, acc.insert(key, val));
    }
}

proof fn object_opens(s: Seq<char>, i: int, depth: int)
    requires
        0 <= i,
        i + 1 < s.len(),
        s[i] == '{',
        s[i + 1] == '"',
        0 <= depth < MAX_DEPTH,
    ensures
        value_at(s, i, depth) == members_at(s, i + 1, depth + 1, Map::empty()),
{
    reveal(value_at);
    reveal(members_at);
    assert(skip_blanks(s, i + 1) == i + 1);
}

proof fn array_opens(s: Seq<char>, i: int, depth: int)
    requires
        0 <= i,
        i + 1 < s.len(),
        s[i] == '[',
        !is_blank(s[i + 1]),
        0 <= depth < MAX_DEPTH,
    ensures
        s[i + 1] != ']' ==> value_at(s, i, depth) == elements_at(
            s,
            i + 1,
            depth + 1,
            Seq::empty(),
        ),
        s[i + 1] == ']' ==> value_at(s, i, depth) == Ok::<(Json, int), Seq<char>>(
            (Json::Array(Seq::empty()), i + 2),
        ),
{
    reveal(value_at);
    reveal(elements_at);
    assert(skip_blanks(s, i + 1) == i + 1);
}

proof fn object_reads_here(
    m: Seq<(Seq<char>, Seq<char>)>,
    v: Seq<(Seq<char>, Json)>,
    h: int,
    b: Seq<char>,
    a: Seq<char>,
    d: int,
)
    requires
        0 < m.len(),
        m.len() == v.len(),
        forall|i: int|
            0 <= i < m.len() ==> (#[trigger] m[i]).0 == v[i].0 && reads_as(m[i].1, v[i].1, h),
        0 <= h,
        0 <= d,
        d + (h + 1) <= MAX_DEPTH,
    ensures
        value_at(b + object_text(m) + a, b.len() as int, d) == Ok::<(Json, int), Seq<char>>(
            (
                Json::Object(with_members(Map::empty(), v, 0)),
                (b.len() + object_text(m).len()) as int,
            ),
        ),
{
    reveal(object_text);
    let t = object_text(m);
    let all = comma_from(member_texts(m), 0);
    let s = b + t + a;
    let b2 = b + seq!['{'];
    reads_members(b2, m, v, 0, a, d + 1, h, Map::empty());
    assert(s =~= b2 + all + seq!['}'] + a);
    assert(s[b.len() as int] == '{');
    assert(member_texts(m)[0] == member_text(m[0]));
    let q = quoted(m[0].0);
    assert(q.len() > 0 && q[0] == '"');
    assert(all.len() > 0 && all[0] == q[0]);
    assert(s[b2.len() as int] == all[0]);
    object_opens(s, b.len() as int, d);
}

/// An object put together from members whose texts read as values reads as the object of those
/// values.
pub proof fn reads_object(m: Seq<(Seq<char>, Seq<char>)>, v: Seq<(Seq<char>, Json)>, h: int)
    requires
        0 < m.len(),
        m.len() == v.len(),
        forall|i: int|
            0 <= i < m.len() ==> (#[trigger] m[i]).0 == v[i].0 && reads_as(m[i].1, v[i].1, h),
        0 <= h,
    ensures
        reads_as(object_text(m), Json::Object(with_members(Map::empty(), v, 0)), h + 1),
{
    reveal(object_text);
    let t = object_text(m);
    assert(t[0] == '{');
    assert forall|b: Seq<char>, a: Seq<char>, d: int|
        0 <= d && d + (h + 1) <= MAX_DEPTH && stops(a) implies #[trigger] value_at(
        b + t + a,
        b.len() as int,
        d,
    ) == Ok::<(Json, int), Seq<char>>(
        (Json::Object(with_members(Map::empty(), v, 0)), (b.len() + t.len()) as int),
    ) by {
        object_reads_here(m, v, h, b, a, d);
    }
    reveal(reads_as);
}

proof fn reads_elements(
    b: Seq<char>,
    p: Seq<Seq<char>>,
    v: Seq<Json>,
    k: int,
    a: Seq<char>,
    depth: int,
    h: int,
    acc: Seq<Json>,
)
    requires
        0 <= k < p.len(),
        p.len() == v.len(),
        forall|i: int| 0 <= i < p.len() ==> reads_as(#[trigger] p[i], v[i], h),
        0 <= depth,
        depth + h <= MAX_DEPTH,
    ensures
        elements_at(b + comma_from(p, k) + seq![']'] + a, b.len() as int, depth, acc) == Ok::<
            (Json, int),
            Seq<char>,
        >((Json::Array(acc + v.skip(k)), (b.len() + comma_from(p, k).len() + 1) as int)),
    decreases p.len() - k,
{
    let rest = comma_from(p, k);
    let s = b + rest + seq![']'] + a;
    let i = b.len() as int;
    let t = p[k];
    let last = k == p.len() - 1;
    let tail = if last {
        seq![']'] + a
    } else {
        seq![','] + comma_from(p, k + 1) + seq![']'] + a
    };
    assert(reads_as(p[k], v[k], h));
    assert(s =~= b + t + tail);
    assert(stops(tail));
    read_here(t, v[k], h, b, tail, depth);
    assert(s[i] == t[0]);
    let j = i + t.len();
    assert(s[j] == tail[0]);
    element_step(s, i, depth, acc, v[k], j);
    if last {
        assert(acc.push(v[k]) =~= acc + v.skip(k));
    } else {
        let b3 = b + t + seq![','];
        reads_elements(b3, p, v, k + 1, a, depth, h, acc.push(v[k]));
        assert(s =~= b3 + comma_from(p, k + 1) + seq![']'] + a);
        assert(acc.push(v[k]) + v.skip(k + 1) =~= acc + v.skip(k));
    }
}

proof fn array_reads_here(
    p: Seq<Seq<char>>,
    v: Seq<Json>,
    h: int,
    b: Seq<char>,
    a: Seq<char>,
    d: int,
)
    requires
        p.len() == v.len(),
        forall|i: int| 0 <= i < p.len() ==> reads_as(#[trigger] p[i], v[i], h),
        0 <= h,
        0 <= d,
        d + (h + 1) <= MAX_DEPTH,
    ensures
        value_at(b + array_text(p) + a, b.len() as int, d) == Ok::<(Json, int), Seq<char>>(
            (Json::Array(v), (b.len() + array_text(p).len()) as int),
        ),
{
    reveal(array_text);
    let t = array_text(p);
    let all = comma_from(p, 0);
    let s = b + t + a;
    let b2 = b + seq!['['];
    assert(s =~= b2 + all + seq![']'] + a);
    assert(s[b.len() as int] == '[');
    if p.len() == 0 {
        assert(s[b2.len() as int] == ']');
        assert(v =~= Seq::<Json>::empty());
    } else {
        assert(reads_as(p[0], v[0], h));
        read_here(p[0], v[0], h, Seq::empty(), Seq::empty(), 0);
        if p[0][0] == ']' {
            closing_is_no_value(p[0], v[0], h);
        }
        assert(all[0] == p[0][0]);
        assert(s[b2.len() as int] == all[0]);
        reads_elements(b2, p, v, 0, a, d + 1, h, Seq::empty());
        assert(Seq::<Json>::empty() + v.skip(0) =~= v);
    }
    array_opens(s, b.len() as int, d);
}

/// An array put together from texts that read as values reads as the array of those values.
pub proof fn reads_array(p: Seq<Seq<char>>, v: Seq<Json>, h: int)
    requires
        p.len() == v.len(),
        forall|i: int| 0 <= i < p.len() ==> reads_as(#[trigger] p[i], v[i], h),
        0 <= h,
    ensures
        reads_as(array_text(p), Json::Array(v), h + 1),
{
    reveal(array_text);
    let t = array_text(p);
    assert(t[0] == '[');
    assert forall|b: Seq<char>, a: Seq<char>, d: int|
        0 <= d && d + (h + 1) <= MAX_DEPTH && stops(a) implies #[trigger] value_at(
        b + t + a,
        b.len() as int,
        d,
    ) == Ok::<(Json, int), Seq<char>>((Json::Array(v), (b.len() + t.len()) as int)) by {
        array_reads_here(p, v, h, b, a, d);
    }
    reveal(reads_as);
}

/// What begins with a closing bracket reads as no value.
pub proof fn closing_is_no_value(t: Seq<char>, v: Json, h: int)
    requires
        t.len() > 0,
        t[0] == ']',
        h <= MAX_DEPTH,
    ensures
        !reads_as(t, v, h),
{
    reveal(reads_as);
    reveal(value_at);
    let e = Seq::<char>::empty();
    let s = e + t + e;
    assert(s[0] == ']');
    assert(number_end(s, 0) == 0);
    assert(s.subrange(0, 0).len() == 0);
    let raw = s.subrange(0, 0);
    assert(crate::number::mantissa(raw).len() == 0);
    assert(!is_decimal(raw));
    assert(value_at(s, 0, 0) is Err);
    assert(stops(e));
}

/// A text that reads as a value is a document of that value, alone or as a line.
pub proof fn reads_document(t: Seq<char>, v: Json, h: int)
    requires
        reads_as(t, v, h),
        0 <= h <= MAX_DEPTH,
    ensures
        document(t) == Ok::<Json, Seq<char>>(v),
        document(t + seq!['\n']) == Ok::<Json, Seq<char>>(v),
{
    reveal(reads_as);
    let e = Seq::<char>::empty();
    let nl = seq!['\n'];
    assert(e + t + e =~= t);
    assert(e + t + nl =~= t + nl);
    assert(stops(e) && stops(nl));
    assert(value_at(e + t + e, e.len() as int, 0) == Ok::<(Json, int), Seq<char>>(
        (v, t.len() as int),
    ));
    assert(value_at(e + t + nl, e.len() as int, 0) == Ok::<(Json, int), Seq<char>>(
        (v, t.len() as int),
    ));
    assert(skip_blanks(t, 0) == 0);
    assert((t + nl)[0] == t[0]);
    assert(skip_blanks(t + nl, 0) == 0);
    assert(skip_blanks(t + nl, t.len() as int + 1) == t.len() + 1);
    assert(skip_blanks(t + nl, t.len() as int) == t.len() + 1);
}

/// A member of an object is found under its name, where no later member has the same.
pub proof fn members_are_found(
    acc: Map<Seq<char>, Json>,
    v: Seq<(Seq<char>, Json)>,
    k: int,
    i: int,
)
    requires
        0 <= k <= i < v.len(),
        forall|j: int| i < j < v.len() ==> (#[trigger] v[j]).0 != v[i].0,
    ensures
        with_members(acc, v, k).contains_key(v[i].0),
        with_members(acc, v, k)[v[i].0] == v[i].1,
    decreases v.len() - k,
{
    if k < i {
        members_are_found(acc.insert(v[k].0, v[k].1), v, k + 1, i);
    } else {
        members_are_kept(acc.insert(v[k].0, v[k].1), v, k + 1, v[k].0);
    }
}

proof fn members_are_kept(
    acc: Map<Seq<char>, Json>,
    v: Seq<(Seq<char>, Json)>,
    k: int,
    name: Seq<char>,
)
    requires
        0 <= k <= v.len(),
        acc.contains_key(name),
        forall|j: int| k <= j < v.len() ==> (#[trigger] v[j]).0 != name,
    ensures
        with_members(acc, v, k).contains_key(name),
        with_members(acc, v, k)[name] == acc[name],
    decreases v.len() - k,
{
    if k < v.len() {
        assert(v[k].0 != name);
        members_are_kept(acc.insert(v[k].0, v[k].1), v, k + 1, name);
    }
}

} // verus!
