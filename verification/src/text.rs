//! Text primitives: every other module states its strings through the specifications here.
//!
//! A string is modelled by its sequence of characters. The executable helpers work on a character
//! vector, so an index is always a character index and never splits a multi-byte character.
use vstd::prelude::*;
use vstd::string::*;
use vstd::utf8::*;

verus! {

/// `String::push` appends one character to the end of the string and changes nothing else.
pub assume_specification[ String::push ](s: &mut String, c: char)
    ensures
        final(s)@ == old(s)@.push(c),
;

/// The characters of a string, in order.
pub fn chars_of(s: &str) -> (r: Vec<char>)
    ensures
        r@ == s@,
{
    let mut out: Vec<char> = Vec::new();
    for c in it: s.chars()
        invariant
            out@ == it.seq().take(it.index() as int),
            it.seq() == s@,
    {
        out.push(c);
    }
    assert(out@ =~= s@);
    out
}

/// The string made of the characters from `from` up to but not including `to`.
pub fn slice_text(chars: &Vec<char>, from: usize, to: usize) -> (r: String)
    requires
        from <= to <= chars@.len(),
    ensures
        r@ == chars@.subrange(from as int, to as int),
{
    let mut out = String::new();
    let mut i: usize = from;
    while i < to
        invariant
            from <= i <= to <= chars@.len(),
            out@ == chars@.subrange(from as int, i as int),
        decreases to - i,
    {
        out.push(chars[i]);
        i += 1;
        assert(out@ =~= chars@.subrange(from as int, i as int));
    }
    out
}

/// The string made of all the given characters.
pub fn text_of(chars: &Vec<char>) -> (r: String)
    ensures
        r@ == chars@,
{
    let r = slice_text(chars, 0, chars.len());
    assert(r@ =~= chars@);
    r
}

/// Whether two strings hold the same characters.
pub fn same(a: &str, b: &str) -> (r: bool)
    ensures
        r == (a@ == b@),
{
    let x = a.as_bytes();
    let y = b.as_bytes();
    proof {
        encode_utf8_decode_utf8(a@);
        encode_utf8_decode_utf8(b@);
    }
    if x.len() != y.len() {
        return false;
    }
    let mut i: usize = 0;
    while i < x.len()
        invariant
            i <= x.len(),
            x@.len() == y@.len(),
            x@ == encode_utf8(a@),
            y@ == encode_utf8(b@),
            forall|k: int| 0 <= k < i ==> x@[k] == y@[k],
        decreases x.len() - i,
    {
        if x[i] != y[i] {
            return false;
        }
        i += 1;
    }
    assert(x@ =~= y@);
    true
}

/// The character of a decimal digit.
pub open spec fn digit(d: int) -> char {
    ((48 + d) as u8) as char
}

/// The decimal numeral of a number, without leading zeros.
pub open spec fn dec(n: nat) -> Seq<char>
    decreases n,
{
    if n < 10 {
        seq![digit(n as int)]
    } else {
        dec(n / 10).push(digit((n % 10) as int))
    }
}

/// The decimal numeral of `n`.
pub fn dec_text(n: u128) -> (r: String)
    ensures
        r@ == dec(n as nat),
    decreases n,
{
    let mut out = if n < 10 {
        String::new()
    } else {
        dec_text(n / 10)
    };
    let last: u8 = (n % 10) as u8;
    out.push((48u8 + last) as char);
    assert(out@ =~= dec(n as nat));
    out
}

/// The decimal numeral of a possibly negative number.
pub open spec fn int_dec(n: int) -> Seq<char> {
    if n < 0 {
        seq!['-'] + dec((-n) as nat)
    } else {
        dec(n as nat)
    }
}

/// The decimal numeral of `n`, with a leading `-` when it is negative.
pub fn int_text(n: i64) -> (r: String)
    ensures
        r@ == int_dec(n as int),
{
    if n < 0 {
        let magnitude: i128 = -(n as i128);
        let mut out = String::new();
        out.push('-');
        out.append(dec_text(magnitude as u128).as_str());
        assert(out@ =~= int_dec(n as int));
        out
    } else {
        dec_text(n as u128)
    }
}

/// `s` with zeros put before it until it is `width` characters long.
pub open spec fn pad0(s: Seq<char>, width: nat) -> Seq<char> {
    if s.len() >= width {
        s
    } else {
        Seq::new((width - s.len()) as nat, |i: int| '0') + s
    }
}

/// The decimal numeral of `n`, at least `width` digits long.
pub fn padded_text(n: u128, width: usize) -> (r: String)
    ensures
        r@ == pad0(dec(n as nat), width as nat),
{
    let body = dec_text(n);
    let len: usize = body.as_str().unicode_len();
    if len >= width {
        return body;
    }
    let mut out = String::new();
    let mut i: usize = 0;
    while i < width - len
        invariant
            len < width,
            i <= width - len,
            out@ == Seq::new(i as nat, |k: int| '0'),
        decreases width - len - i,
    {
        out.push('0');
        i += 1;
        assert(out@ =~= Seq::new(i as nat, |k: int| '0'));
    }
    out.append(body.as_str());
    out
}

/// The lowercase character of a hexadecimal digit.
pub open spec fn hex_digit(d: int) -> char {
    if d < 10 {
        digit(d)
    } else {
        ((87 + d) as u8) as char
    }
}

/// The lowercase character of the hexadecimal digit `d`.
pub fn hex_char(d: u8) -> (r: char)
    requires
        d < 16,
    ensures
        r == hex_digit(d as int),
{
    if d < 10 {
        (48u8 + d) as char
    } else {
        (87u8 + d) as char
    }
}

/// The two lowercase hexadecimal digits of a byte.
pub open spec fn hex2(b: u8) -> Seq<char> {
    seq![hex_digit(b as int / 16), hex_digit(b as int % 16)]
}

/// Two lowercase hexadecimal digits for each byte, in order.
pub open spec fn hex(bytes: Seq<u8>) -> Seq<char>
    decreases bytes.len(),
{
    if bytes.len() == 0 {
        Seq::empty()
    } else {
        hex(bytes.drop_last()) + hex2(bytes.last())
    }
}

/// The bytes as lowercase hexadecimal text.
pub fn hex_text(bytes: &[u8]) -> (r: String)
    ensures
        r@ == hex(bytes@),
{
    let mut out = String::new();
    let mut i: usize = 0;
    assert(bytes@.take(0) =~= Seq::<u8>::empty());
    while i < bytes.len()
        invariant
            i <= bytes.len(),
            out@ == hex(bytes@.take(i as int)),
        decreases bytes.len() - i,
    {
        let b: u8 = bytes[i];
        out.push(hex_char(b / 16));
        out.push(hex_char(b % 16));
        proof {
            let next = bytes@.take(i as int + 1);
            assert(next.drop_last() =~= bytes@.take(i as int));
            assert(out@ =~= hex(next));
        }
        i += 1;
    }
    assert(bytes@.take(bytes@.len() as int) =~= bytes@);
    out
}

/// The index of the first `c` at or after `i`, or the length when there is none.
pub open spec fn find_from(s: Seq<char>, c: char, i: int) -> int
    decreases s.len() - i,
{
    if i < 0 || i >= s.len() {
        s.len() as int
    } else if s[i] == c {
        i
    } else {
        find_from(s, c, i + 1)
    }
}

/// The index of the first `c` in `s`, or the length when there is none.
pub open spec fn find(s: Seq<char>, c: char) -> int {
    find_from(s, c, 0)
}

/// `find_from` is the least index at or after `i` that holds `c`.
pub proof fn find_from_is_first(s: Seq<char>, c: char, i: int)
    requires
        0 <= i <= s.len(),
    ensures
        i <= find_from(s, c, i) <= s.len(),
        find_from(s, c, i) < s.len() ==> s[find_from(s, c, i)] == c,
        forall|k: int| i <= k < find_from(s, c, i) ==> s[k] != c,
    decreases s.len() - i,
{
    if i < s.len() && s[i] != c {
        find_from_is_first(s, c, i + 1);
    }
}

/// The index of the first `c` at or after `from`, or the length when there is none.
pub fn find_char(chars: &Vec<char>, c: char, from: usize) -> (r: usize)
    requires
        from <= chars@.len(),
    ensures
        r == find_from(chars@, c, from as int),
        from <= r <= chars@.len(),
{
    let mut i: usize = from;
    while i < chars.len()
        invariant
            from <= i <= chars@.len(),
            find_from(chars@, c, from as int) == find_from(chars@, c, i as int),
        decreases chars.len() - i,
    {
        if chars[i] == c {
            return i;
        }
        i += 1;
    }
    i
}

/// Whether `c` occurs in `s`.
pub fn has_char(s: &str, c: char) -> (r: bool)
    ensures
        r == s@.contains(c),
{
    let chars = chars_of(s);
    let i: usize = find_char(&chars, c, 0);
    proof {
        find_from_is_first(s@, c, 0);
    }
    if i < chars.len() {
        assert(s@[i as int] == c);
        true
    } else {
        assert(!s@.contains(c));
        false
    }
}

/// The text before and after the first `c`, when there is one.
pub open spec fn split_at_first(s: Seq<char>, c: char) -> Option<(Seq<char>, Seq<char>)> {
    let i = find(s, c);
    if i < s.len() {
        Some((s.take(i), s.skip(i + 1)))
    } else {
        None
    }
}

/// The views of an optional pair of strings.
pub open spec fn pair_view(p: Option<(String, String)>) -> Option<(Seq<char>, Seq<char>)> {
    match p {
        Some((a, b)) => Some((a@, b@)),
        None => None,
    }
}

/// The view of an optional string.
pub open spec fn opt_view(o: Option<String>) -> Option<Seq<char>> {
    match o {
        Some(s) => Some(s@),
        None => None,
    }
}

/// The view of an optional borrowed string.
pub open spec fn opt_str_view(o: Option<&str>) -> Option<Seq<char>> {
    match o {
        Some(s) => Some(s@),
        None => None,
    }
}

/// `s` split at its first `c`.
pub fn split_once(s: &str, c: char) -> (r: Option<(String, String)>)
    ensures
        pair_view(r) == split_at_first(s@, c),
{
    let chars = chars_of(s);
    let i: usize = find_char(&chars, c, 0);
    if i < chars.len() {
        let head = slice_text(&chars, 0, i);
        let tail = slice_text(&chars, i + 1, chars.len());
        assert(head@ =~= s@.take(i as int));
        assert(tail@ =~= s@.skip(i as int + 1));
        Some((head, tail))
    } else {
        None
    }
}

/// The index of the last `c` before `i`, or -1 when there is none.
pub open spec fn rfind_before(s: Seq<char>, c: char, i: int) -> int
    decreases i,
{
    if i <= 0 || i > s.len() {
        -1
    } else if s[i - 1] == c {
        i - 1
    } else {
        rfind_before(s, c, i - 1)
    }
}

/// The index of the last `c`, or -1 when there is none.
pub open spec fn rfind(s: Seq<char>, c: char) -> int {
    rfind_before(s, c, s.len() as int)
}

/// `rfind_before` is the greatest index before `i` that holds `c`.
pub proof fn rfind_before_is_last(s: Seq<char>, c: char, i: int)
    requires
        0 <= i <= s.len(),
    ensures
        -1 <= rfind_before(s, c, i) < i || (i == 0 && rfind_before(s, c, i) == -1),
        rfind_before(s, c, i) >= 0 ==> s[rfind_before(s, c, i)] == c,
        forall|k: int| rfind_before(s, c, i) < k < i ==> s[k] != c,
    decreases i,
{
    if i > 0 && s[i - 1] != c {
        rfind_before_is_last(s, c, i - 1);
    }
}

/// The index of the last `c`, when there is one.
pub fn rfind_char(chars: &Vec<char>, c: char) -> (r: Option<usize>)
    ensures
        match r {
            Some(i) => i == rfind(chars@, c) && i < chars@.len(),
            None => rfind(chars@, c) == -1,
        },
{
    let mut i: usize = chars.len();
    while i > 0
        invariant
            i <= chars@.len(),
            rfind(chars@, c) == rfind_before(chars@, c, i as int),
        decreases i,
    {
        if chars[i - 1] == c {
            return Some(i - 1);
        }
        i -= 1;
    }
    None
}

/// The text before and after the last `c`, when there is one.
pub open spec fn split_at_last(s: Seq<char>, c: char) -> Option<(Seq<char>, Seq<char>)> {
    let i = rfind(s, c);
    if i >= 0 {
        Some((s.take(i), s.skip(i + 1)))
    } else {
        None
    }
}

/// `s` split at its last `c`.
pub fn rsplit_once(s: &str, c: char) -> (r: Option<(String, String)>)
    ensures
        pair_view(r) == split_at_last(s@, c),
{
    let chars = chars_of(s);
    match rfind_char(&chars, c) {
        Some(i) => {
            let n: usize = chars.len();
            let head = slice_text(&chars, 0, i);
            let tail = slice_text(&chars, i + 1, n);
            assert(head@ =~= s@.take(i as int));
            assert(tail@ =~= s@.skip(i as int + 1));
            Some((head, tail))
        },
        None => None,
    }
}

/// The views of a sequence of strings.
pub open spec fn views(v: Seq<String>) -> Seq<Seq<char>> {
    Seq::new(v.len(), |i: int| v[i]@)
}

/// The pieces of `s` between the occurrences of `c`.
pub open spec fn split(s: Seq<char>, c: char) -> Seq<Seq<char>>
    decreases s.len(),
{
    let i = find(s, c);
    if 0 <= i < s.len() {
        seq![s.take(i)] + split(s.skip(i + 1), c)
    } else {
        seq![s]
    }
}

/// `find_from` over a suffix, in the whole sequence's indices.
proof fn find_in_suffix(s: Seq<char>, c: char, from: int, i: int)
    requires
        0 <= from <= i <= s.len(),
    ensures
        find_from(s.skip(from), c, i - from) == find_from(s, c, i) - from,
    decreases s.len() - i,
{
    if i < s.len() && s[i] != c {
        find_in_suffix(s, c, from, i + 1);
    }
}

/// The pieces of `s` between the occurrences of `c`, in order; at least one.
pub fn split_text(s: &str, c: char) -> (r: Vec<String>)
    ensures
        views(r@) == split(s@, c),
        r@.len() > 0,
{
    let chars = chars_of(s);
    let mut out: Vec<String> = Vec::new();
    let mut from: usize = 0;
    assert(s@.skip(0) =~= s@);
    assert(views(out@) =~= Seq::<Seq<char>>::empty());
    assert(Seq::<Seq<char>>::empty() + split(s@, c) =~= split(s@, c));
    loop
        invariant
            chars@ == s@,
            from <= s@.len(),
            views(out@) + split(s@.skip(from as int), c) == split(s@, c),
        decreases s@.len() - from,
    {
        let i: usize = find_char(&chars, c, from);
        let piece = slice_text(&chars, from, i);
        let ghost before = views(out@);
        let ghost rest = s@.skip(from as int);
        proof {
            find_in_suffix(s@, c, from as int, from as int);
            assert(piece@ =~= rest.take(i - from));
        }
        out.push(piece);
        assert(views(out@) =~= before.push(piece@));
        if i >= chars.len() {
            assert(piece@ =~= rest);
            assert(views(out@) =~= split(s@, c));
            return out;
        }
        proof {
            assert(rest.skip(i - from + 1) =~= s@.skip(i as int + 1));
            assert(split(rest, c) == seq![piece@] + split(s@.skip(i as int + 1), c));
            assert(views(out@) + split(s@.skip(i as int + 1), c) =~= before + split(rest, c));
        }
        from = i + 1;
    }
}

/// Whether the characters from `at` on begin with `p`.
fn matches_at(chars: &Vec<char>, p: &Vec<char>, at: usize) -> (r: bool)
    requires
        at + p@.len() <= chars@.len(),
    ensures
        r == (chars@.subrange(at as int, at + p@.len()) == p@),
{
    let n: usize = chars.len();
    let mut i: usize = 0;
    while i < p.len()
        invariant
            i <= p@.len(),
            at + p@.len() <= chars@.len(),
            chars@.len() == n,
            forall|k: int| 0 <= k < i ==> chars@[at + k] == p@[k],
        decreases p.len() - i,
    {
        if chars[at + i] != p[i] {
            assert(chars@.subrange(at as int, at + p@.len())[i as int] != p@[i as int]);
            return false;
        }
        i += 1;
    }
    assert(chars@.subrange(at as int, at + p@.len()) =~= p@);
    true
}

/// Whether `s` begins with `p`.
pub fn starts_with(s: &str, p: &str) -> (r: bool)
    ensures
        r == p@.is_prefix_of(s@),
{
    let chars = chars_of(s);
    let prefix = chars_of(p);
    if prefix.len() > chars.len() {
        return false;
    }
    matches_at(&chars, &prefix, 0)
}

/// Whether `s` ends with `p`.
pub fn ends_with(s: &str, p: &str) -> (r: bool)
    ensures
        r == p@.is_suffix_of(s@),
{
    let chars = chars_of(s);
    let suffix = chars_of(p);
    if suffix.len() > chars.len() {
        return false;
    }
    let at: usize = chars.len() - suffix.len();
    matches_at(&chars, &suffix, at)
}

/// What follows the prefix `p` in `s`, when `s` begins with it.
pub open spec fn after_prefix(s: Seq<char>, p: Seq<char>) -> Option<Seq<char>> {
    if p.is_prefix_of(s) {
        Some(s.skip(p.len() as int))
    } else {
        None
    }
}

/// What precedes the suffix `p` in `s`, when `s` ends with it.
pub open spec fn before_suffix(s: Seq<char>, p: Seq<char>) -> Option<Seq<char>> {
    if p.is_suffix_of(s) {
        Some(s.take(s.len() - p.len()))
    } else {
        None
    }
}

/// `s` without the prefix `p`, when `s` begins with it.
pub fn strip_prefix(s: &str, p: &str) -> (r: Option<String>)
    ensures
        opt_view(r) == after_prefix(s@, p@),
{
    if !starts_with(s, p) {
        return None;
    }
    let chars = chars_of(s);
    let n: usize = p.unicode_len();
    let rest = slice_text(&chars, n, chars.len());
    assert(rest@ =~= s@.skip(p@.len() as int));
    Some(rest)
}

/// `s` without the suffix `p`, when `s` ends with it.
pub fn strip_suffix(s: &str, p: &str) -> (r: Option<String>)
    ensures
        opt_view(r) == before_suffix(s@, p@),
{
    if !ends_with(s, p) {
        return None;
    }
    let chars = chars_of(s);
    let n: usize = p.unicode_len();
    let rest = slice_text(&chars, 0, chars.len() - n);
    assert(rest@ =~= s@.take(s@.len() - p@.len()));
    Some(rest)
}

/// Whether `needle` occurs in `s` at or after `i`.
pub open spec fn occurs_from(s: Seq<char>, needle: Seq<char>, i: int) -> bool {
    exists|k: int|
        i <= k <= s.len() - needle.len() && #[trigger] s.subrange(k, k + needle.len()) == needle
}

/// Whether `needle` occurs in `s`.
pub open spec fn occurs(s: Seq<char>, needle: Seq<char>) -> bool {
    occurs_from(s, needle, 0)
}

/// Whether `needle` occurs in `s`.
pub fn contains_text(s: &str, needle: &str) -> (r: bool)
    ensures
        r == occurs(s@, needle@),
{
    let chars = chars_of(s);
    let pattern = chars_of(needle);
    if pattern.len() > chars.len() {
        return false;
    }
    let last: usize = chars.len() - pattern.len();
    let mut i: usize = 0;
    loop
        invariant
            chars@ == s@,
            pattern@ == needle@,
            last == s@.len() - needle@.len(),
            i <= last,
            forall|k: int| 0 <= k < i ==> #[trigger] s@.subrange(k, k + needle@.len()) != needle@,
        decreases last - i,
    {
        if matches_at(&chars, &pattern, i) {
            return true;
        }
        if i == last {
            return false;
        }
        i += 1;
    }
}

/// The Unicode `White_Space` characters.
pub open spec fn is_space(c: char) -> bool {
    let u = c as u32;
    (9 <= u && u <= 13) || u == 0x20 || u == 0x85 || u == 0xa0 || u == 0x1680 || (0x2000 <= u && u
        <= 0x200a) || u == 0x2028 || u == 0x2029 || u == 0x202f || u == 0x205f || u == 0x3000
}

/// Whether `c` is a Unicode `White_Space` character.
pub fn space(c: char) -> (r: bool)
    ensures
        r == is_space(c),
{
    let u: u32 = c as u32;
    (9 <= u && u <= 13) || u == 0x20 || u == 0x85 || u == 0xa0 || u == 0x1680 || (0x2000 <= u && u
        <= 0x200a) || u == 0x2028 || u == 0x2029 || u == 0x202f || u == 0x205f || u == 0x3000
}

/// `s` without the white space at its start.
pub open spec fn trim_start(s: Seq<char>) -> Seq<char>
    decreases s.len(),
{
    if s.len() > 0 && is_space(s[0]) {
        trim_start(s.skip(1))
    } else {
        s
    }
}

/// `s` without the white space at its end.
pub open spec fn trim_end(s: Seq<char>) -> Seq<char>
    decreases s.len(),
{
    if s.len() > 0 && is_space(s.last()) {
        trim_end(s.drop_last())
    } else {
        s
    }
}

/// `s` without the white space at either end.
pub open spec fn trim(s: Seq<char>) -> Seq<char> {
    trim_end(trim_start(s))
}

/// `s` without the white space at either end.
pub fn trim_text(s: &str) -> (r: String)
    ensures
        r@ == trim(s@),
{
    let chars = chars_of(s);
    let mut from: usize = 0;
    assert(s@.skip(0) =~= s@);
    while from < chars.len() && space(chars[from])
        invariant
            chars@ == s@,
            from <= s@.len(),
            trim_start(s@.skip(from as int)) == trim_start(s@),
        decreases s@.len() - from,
    {
        assert(s@.skip(from as int).skip(1) =~= s@.skip(from as int + 1));
        from += 1;
    }
    assert(trim_start(s@) == s@.skip(from as int));
    let mut to: usize = chars.len();
    let ghost rest = s@.skip(from as int);
    assert(rest.take(to - from) =~= rest);
    while to > from && space(chars[to - 1])
        invariant
            chars@ == s@,
            from <= to <= s@.len(),
            rest == s@.skip(from as int),
            trim_end(rest.take(to - from)) == trim_end(rest),
        decreases to,
    {
        assert(rest.take(to - from).last() == chars@[to - 1]);
        assert(rest.take(to - from).drop_last() =~= rest.take(to - 1 - from));
        to -= 1;
    }
    let r = slice_text(&chars, from, to);
    assert(r@ =~= rest.take(to - from));
    r
}

/// The ASCII letter in lower case; any other character unchanged.
pub open spec fn lower_char(c: char) -> char {
    if 'A' <= c && c <= 'Z' {
        ((c as u8 + 32) as u8) as char
    } else {
        c
    }
}

/// The ASCII letter in upper case; any other character unchanged.
pub open spec fn upper_char(c: char) -> char {
    if 'a' <= c && c <= 'z' {
        ((c as u8 - 32) as u8) as char
    } else {
        c
    }
}

/// `s` with its ASCII letters in lower case.
pub open spec fn lower(s: Seq<char>) -> Seq<char> {
    Seq::new(s.len(), |i: int| lower_char(s[i]))
}

/// `s` with its ASCII letters in upper case.
pub open spec fn upper(s: Seq<char>) -> Seq<char> {
    Seq::new(s.len(), |i: int| upper_char(s[i]))
}

/// `s` with its ASCII letters in lower case.
pub fn lower_text(s: &str) -> (r: String)
    ensures
        r@ == lower(s@),
{
    let chars = chars_of(s);
    let mut out = String::new();
    let mut i: usize = 0;
    while i < chars.len()
        invariant
            chars@ == s@,
            i <= s@.len(),
            out@ == lower(s@).take(i as int),
        decreases s@.len() - i,
    {
        let c = chars[i];
        if 'A' <= c && c <= 'Z' {
            out.push((c as u8 + 32u8) as char);
        } else {
            out.push(c);
        }
        i += 1;
        assert(out@ =~= lower(s@).take(i as int));
    }
    assert(out@ =~= lower(s@));
    out
}

/// `s` with its ASCII letters in upper case.
pub fn upper_text(s: &str) -> (r: String)
    ensures
        r@ == upper(s@),
{
    let chars = chars_of(s);
    let mut out = String::new();
    let mut i: usize = 0;
    while i < chars.len()
        invariant
            chars@ == s@,
            i <= s@.len(),
            out@ == upper(s@).take(i as int),
        decreases s@.len() - i,
    {
        let c = chars[i];
        if 'a' <= c && c <= 'z' {
            out.push((c as u8 - 32u8) as char);
        } else {
            out.push(c);
        }
        i += 1;
        assert(out@ =~= upper(s@).take(i as int));
    }
    assert(out@ =~= upper(s@));
    out
}

/// Whether `c` is an ASCII digit.
pub open spec fn is_digit(c: char) -> bool {
    '0' <= c && c <= '9'
}

/// The value of a run of decimal digits.
pub open spec fn digits_value(s: Seq<char>) -> nat
    decreases s.len(),
{
    if s.len() == 0 {
        0
    } else {
        digits_value(s.drop_last()) * 10 + (s.last() as u32 - 48) as nat
    }
}

/// Whether `s` is one or more ASCII digits.
pub open spec fn all_digits(s: Seq<char>) -> bool {
    s.len() > 0 && forall|i: int| 0 <= i < s.len() ==> is_digit(#[trigger] s[i])
}

/// The number that `s` writes out as an unsigned integer no greater than `max`: digits, after an
/// optional `+`.
pub open spec fn parse_uint(s: Seq<char>, max: nat) -> Option<nat> {
    let body = if s.len() > 0 && s[0] == '+' {
        s.skip(1)
    } else {
        s
    };
    if all_digits(body) && digits_value(body) <= max {
        Some(digits_value(body))
    } else {
        None
    }
}

/// A longer run of digits is worth at least as much as any of its beginnings.
pub proof fn digits_value_grows(s: Seq<char>, i: int)
    requires
        0 <= i <= s.len(),
    ensures
        digits_value(s.take(i)) <= digits_value(s),
    decreases s.len() - i,
{
    if i == s.len() {
        assert(s.take(i) =~= s);
    } else {
        assert(s.take(i + 1).drop_last() =~= s.take(i));
        digits_value_grows(s, i + 1);
    }
}

/// The unsigned integer that `s` writes out, when it is one and no greater than `max`.
pub fn parse_uint_text(s: &str, max: u64) -> (r: Option<u64>)
    ensures
        match r {
            Some(n) => parse_uint(s@, max as nat) == Some(n as nat),
            None => parse_uint(s@, max as nat) is None,
        },
{
    let chars = chars_of(s);
    let from: usize = if chars.len() > 0 && chars[0] == '+' {
        1
    } else {
        0
    };
    let ghost body = s@.skip(from as int);
    assert(from == 0 ==> body =~= s@);
    if from >= chars.len() {
        return None;
    }
    let mut acc: u64 = 0;
    let mut i: usize = from;
    assert(body.take(0) =~= Seq::<char>::empty());
    while i < chars.len()
        invariant
            chars@ == s@,
            from <= i <= s@.len(),
            from < s@.len(),
            body == s@.skip(from as int),
            parse_uint(s@, max as nat) == (if all_digits(body) && digits_value(body) <= max as nat {
                Some(digits_value(body))
            } else {
                None
            }),
            forall|k: int| 0 <= k < i - from ==> is_digit(#[trigger] body[k]),
            acc == digits_value(body.take(i - from)),
            acc <= max,
        decreases s@.len() - i,
    {
        let c = chars[i];
        if !('0' <= c && c <= '9') {
            assert(!is_digit(body[i - from]));
            return None;
        }
        let d: u32 = c as u32 - 48;
        let next: u128 = acc as u128 * 10 + d as u128;
        proof {
            assert(body.take(i - from + 1).drop_last() =~= body.take(i - from));
            assert(next == digits_value(body.take(i - from + 1)));
            digits_value_grows(body, i - from + 1);
        }
        if next > max as u128 {
            return None;
        }
        acc = next as u64;
        i += 1;
    }
    assert(body.take(i - from) =~= body);
    Some(acc)
}

/// The number that `s` writes out in digits alone, no greater than `max`.
pub open spec fn number_in_digits(s: Seq<char>, max: nat) -> Option<nat> {
    if all_digits(s) && digits_value(s) <= max {
        Some(digits_value(s))
    } else {
        None
    }
}

/// The number that `s` writes out in digits alone, when it does and is no greater than `max`.
pub fn digits_number(s: &str, max: u64) -> (r: Option<u64>)
    ensures
        match r {
            Some(n) => number_in_digits(s@, max as nat) == Some(n as nat),
            None => number_in_digits(s@, max as nat) is None,
        },
{
    if s.unicode_len() > 0 && s.get_char(0) == '+' {
        assert(!is_digit(s@[0]));
        return None;
    }
    parse_uint_text(s, max)
}

/// The texts one after the other, with `sep` between each two.
pub open spec fn join(parts: Seq<Seq<char>>, sep: Seq<char>) -> Seq<char>
    decreases parts.len(),
{
    if parts.len() == 0 {
        Seq::empty()
    } else if parts.len() == 1 {
        parts[0]
    } else {
        join(parts.drop_last(), sep) + sep + parts.last()
    }
}

/// The texts one after the other, with `sep` between each two.
pub fn join_text(parts: &Vec<String>, sep: &str) -> (r: String)
    ensures
        r@ == join(views(parts@), sep@),
{
    let mut out = String::new();
    let mut i: usize = 0;
    let ghost all = views(parts@);
    assert(join(all.take(0), sep@) =~= Seq::<char>::empty());
    while i < parts.len()
        invariant
            i <= parts@.len(),
            all == views(parts@),
            out@ == join(all.take(i as int), sep@),
        decreases parts@.len() - i,
    {
        proof {
            assert(all.take(i as int + 1).drop_last() =~= all.take(i as int));
            assert(all.take(i as int + 1).last() == parts@[i as int]@);
        }
        if i > 0 {
            out.append(sep);
        }
        out.append(parts[i].as_str());
        proof {
            if i == 0 {
                assert(out@ =~= parts@[0]@);
            }
        }
        i += 1;
    }
    assert(all.take(i as int) =~= all);
    out
}

/// Whether `a` comes before `b` in character order, from index `i` on.
pub open spec fn lex_lt_from(a: Seq<char>, b: Seq<char>, i: int) -> bool
    decreases b.len() - i,
{
    if i < 0 || i >= b.len() {
        false
    } else if i >= a.len() {
        true
    } else if a[i] == b[i] {
        lex_lt_from(a, b, i + 1)
    } else {
        a[i] < b[i]
    }
}

/// Whether `a` comes before `b` in character order.
pub open spec fn lex_lt(a: Seq<char>, b: Seq<char>) -> bool {
    lex_lt_from(a, b, 0)
}

/// Whether `a` comes before `b` in character order.
pub fn before(a: &str, b: &str) -> (r: bool)
    ensures
        r == lex_lt(a@, b@),
{
    let x = chars_of(a);
    let y = chars_of(b);
    let mut i: usize = 0;
    while i < y.len()
        invariant
            x@ == a@,
            y@ == b@,
            i <= y@.len(),
            lex_lt(a@, b@) == lex_lt_from(a@, b@, i as int),
        decreases y@.len() - i,
    {
        if i >= x.len() {
            return true;
        }
        if x[i] != y[i] {
            return x[i] < y[i];
        }
        i += 1;
    }
    false
}

proof fn lex_lt_from_order(a: Seq<char>, b: Seq<char>, c: Seq<char>, i: int)
    requires
        0 <= i,
    ensures
        !lex_lt_from(a, a, i),
        lex_lt_from(a, b, i) ==> !lex_lt_from(b, a, i),
        lex_lt_from(a, b, i) && lex_lt_from(b, c, i) ==> lex_lt_from(a, c, i),
        (i <= a.len() && i <= b.len() && a.take(i) == b.take(i) && !lex_lt_from(a, b, i)
            && !lex_lt_from(b, a, i)) ==> a == b,
    decreases (a.len() + b.len() + c.len()) - i,
{
    if i < a.len() + b.len() + c.len() {
        lex_lt_from_order(a, b, c, i + 1);
    }
    if i <= a.len() && i <= b.len() && a.take(i) == b.take(i) {
        if i < a.len() && i < b.len() {
            if a[i] == b[i] {
                assert(a.take(i + 1) =~= a.take(i).push(a[i]));
                assert(b.take(i + 1) =~= b.take(i).push(b[i]));
            }
        } else if i == a.len() && i == b.len() {
            assert(a =~= a.take(i));
            assert(b =~= b.take(i));
        }
    }
}

/// Character order is a strict total order.
pub proof fn lex_lt_is_total_order(a: Seq<char>, b: Seq<char>, c: Seq<char>)
    ensures
        !lex_lt(a, a),
        lex_lt(a, b) ==> !lex_lt(b, a),
        lex_lt(a, b) && lex_lt(b, c) ==> lex_lt(a, c),
        lex_lt(a, b) || lex_lt(b, a) || a == b,
{
    assert(a.take(0) =~= b.take(0));
    lex_lt_from_order(a, b, c, 0);
}

/// A line's text without a carriage return at its end.
pub open spec fn strip_cr(s: Seq<char>) -> Seq<char> {
    if s.len() > 0 && s.last() == '\r' {
        s.drop_last()
    } else {
        s
    }
}

/// The lines of `s`: each ends with a newline, with a carriage return before it dropped too; text
/// after the last newline is a line of its own when there is any.
pub open spec fn lines(s: Seq<char>) -> Seq<Seq<char>>
    decreases s.len(),
{
    if s.len() == 0 {
        Seq::empty()
    } else {
        let i = find(s, '\n');
        if 0 <= i < s.len() {
            seq![strip_cr(s.take(i))] + lines(s.skip(i + 1))
        } else {
            seq![s]
        }
    }
}

/// The lines of `s`, in order.
pub fn lines_of(s: &str) -> (r: Vec<String>)
    ensures
        views(r@) == lines(s@),
{
    let chars = chars_of(s);
    let mut out: Vec<String> = Vec::new();
    let mut from: usize = 0;
    assert(s@.skip(0) =~= s@);
    assert(views(out@) + lines(s@) =~= lines(s@));
    while from < chars.len()
        invariant
            chars@ == s@,
            from <= s@.len(),
            views(out@) + lines(s@.skip(from as int)) == lines(s@),
        decreases s@.len() - from,
    {
        let i: usize = find_char(&chars, '\n', from);
        let ghost before = views(out@);
        let ghost rest = s@.skip(from as int);
        proof {
            find_in_suffix(s@, '\n', from as int, from as int);
        }
        if i < chars.len() {
            let to: usize = if i > from && chars[i - 1] == '\r' {
                i - 1
            } else {
                i
            };
            let piece = slice_text(&chars, from, to);
            proof {
                let whole = rest.take(i - from);
                assert(piece@ =~= strip_cr(whole));
                assert(rest.skip(i - from + 1) =~= s@.skip(i as int + 1));
                assert(lines(rest) == seq![piece@] + lines(s@.skip(i as int + 1)));
            }
            out.push(piece);
            assert(views(out@) =~= before.push(piece@));
            assert(views(out@) + lines(s@.skip(i as int + 1)) =~= before + lines(rest));
            from = i + 1;
        } else {
            let piece = slice_text(&chars, from, i);
            assert(piece@ =~= rest);
            out.push(piece);
            assert(views(out@) =~= before.push(piece@));
            assert(lines(s@.skip(i as int)) =~= Seq::<Seq<char>>::empty());
            assert(views(out@) + lines(s@.skip(i as int)) =~= before + lines(rest));
            from = i;
        }
    }
    assert(s@.skip(from as int) =~= Seq::<char>::empty());
    assert(views(out@) =~= lines(s@));
    out
}

/// A copy of a borrowed string.
pub fn owned(s: &str) -> (r: String)
    ensures
        r@ == s@,
{
    s.to_owned()
}

/// A borrow of an optional string.
pub fn opt_borrow(s: &Option<String>) -> (r: Option<&str>)
    ensures
        opt_str_view(r) == opt_view(*s),
{
    match s {
        Some(t) => Some(t.as_str()),
        None => None,
    }
}

/// Whether an optional string holds exactly `t`.
pub fn opt_is(s: &Option<String>, t: &str) -> (r: bool)
    ensures
        r == (opt_view(*s) == Some(t@)),
{
    match s {
        Some(v) => same(v.as_str(), t),
        None => false,
    }
}

/// The views of a sequence of pairs of strings.
pub open spec fn pair_views(h: Seq<(String, String)>) -> Seq<(Seq<char>, Seq<char>)> {
    Seq::new(h.len(), |i: int| (h[i].0@, h[i].1@))
}

/// The lines of a text that goes on after a newline.
pub proof fn lines_go_on(a: Seq<char>, b: Seq<char>)
    requires
        a.len() == 0 || a.last() == '\n',
    ensures
        lines(a + b) == lines(a) + lines(b),
    decreases a.len(),
{
    if a.len() == 0 {
        assert(a + b =~= b);
        assert(lines(a) + lines(b) =~= lines(b));
    } else {
        let i = find(a, '\n');
        find_from_is_first(a, '\n', 0);
        find_from_is_first(a + b, '\n', 0);
        if i == a.len() {
            assert(a[a.len() - 1] == '\n');
        }
        let j = find(a + b, '\n');
        assert((a + b)[i] == '\n');
        assert(j == i) by {
            if j < i {
                assert((a + b)[j] == a[j]);
            }
            if i < j {
                assert((a + b)[i] != '\n');
            }
        }
        assert((a + b).take(i) =~= a.take(i));
        let rest = a.skip(i + 1);
        assert((a + b).skip(i + 1) =~= rest + b);
        if rest.len() > 0 {
            assert(rest.last() == a.last());
        }
        lines_go_on(rest, b);
        assert(lines(a + b) =~= lines(a) + lines(b));
    }
}

/// How the standard library's `Debug` formatting writes a text.
pub uninterp spec fn debug_str(s: Seq<char>) -> Seq<char>;

/// `format!("{:?}", s)` of a text: a fixed text for each, in double quotes and escaped where a
/// character is not printable.
#[verifier::external_body]
pub(crate) fn debug_text(s: &str) -> (r: String)
    ensures
        r@ == debug_str(s@),
{
    format!("{:?}", s)
}

/// A text occurs in another exactly where the other is a beginning, the text and an end, one after
/// the other.
pub proof fn occurs_between(s: Seq<char>, needle: Seq<char>)
    ensures
        occurs(s, needle) <==> exists|p: Seq<char>, q: Seq<char>|
            s == #[trigger] p.add(needle).add(q),
{
    let n = needle.len() as int;
    if occurs(s, needle) {
        let k = choose|k: int|
            0 <= k <= s.len() - needle.len() && #[trigger] s.subrange(k, k + needle.len()) == needle;
        let p = s.take(k);
        let q = s.skip(k + n);
        assert(s =~= p.add(s.subrange(k, k + n)).add(q));
        assert(s == p.add(needle).add(q));
    }
    if exists|p: Seq<char>, q: Seq<char>| s == #[trigger] p.add(needle).add(q) {
        let (p, q) = choose|p: Seq<char>, q: Seq<char>| s == #[trigger] p.add(needle).add(q);
        let k = p.len() as int;
        assert(s.subrange(k, k + n) =~= needle);
    }
}

/// Lower case changes the letters from `A` to `Z`, each to the one 32 places on, and nothing else.
pub proof fn lower_case_folds_letters(s: Seq<char>)
    ensures
        lower(s).len() == s.len(),
        forall|i: int|
            0 <= i < s.len() ==> (#[trigger] lower(s)[i]) as u32 == (if 65 <= s[i] as u32 <= 90 {
                s[i] as u32 + 32
            } else {
                s[i] as int
            }),
        lower(lower(s)) == lower(s),
        lower(upper(s)) == lower(s),
{
    assert forall|i: int| 0 <= i < s.len() implies (#[trigger] lower(s)[i]) as u32 == (if 65
        <= s[i] as u32 <= 90 {
        s[i] as u32 + 32
    } else {
        s[i] as int
    }) by {}
    assert(lower(lower(s)) =~= lower(s));
    assert(lower(upper(s)) =~= lower(s)) by {
        assert forall|i: int| 0 <= i < s.len() implies lower(upper(s))[i] == lower(s)[i] by {
            let c = s[i];
            if 'a' <= c && c <= 'z' {
                let u = upper_char(c);
                assert(65 <= u as u32 <= 90);
                assert(lower_char(u) as u32 == c as u32);
            }
        }
    }
}

proof fn ordered_from_where_they_differ(x: Seq<char>, y: Seq<char>, k: int, i: int)
    requires
        0 <= i <= k <= x.len(),
        k < y.len(),
        forall|j: int| i <= j < k ==> x[j] == y[j],
        k == x.len() || x[k] < y[k],
    ensures
        lex_lt_from(x, y, i),
    decreases k - i,
{
    if i < k {
        ordered_from_where_they_differ(x, y, k, i + 1);
    }
}

/// Of two texts that are the same up to a place, the one that ends there or is smaller there comes
/// first.
pub proof fn texts_are_ordered_where_they_differ(x: Seq<char>, y: Seq<char>, k: int)
    requires
        0 <= k <= x.len(),
        k < y.len(),
        x.take(k) == y.take(k),
        k == x.len() || x[k] < y[k],
    ensures
        lex_lt(x, y),
        x != y,
{
    assert forall|j: int| 0 <= j < k implies x[j] == y[j] by {
        assert(x.take(k)[j] == x[j]);
        assert(y.take(k)[j] == y[j]);
    }
    ordered_from_where_they_differ(x, y, k, 0);
}

/// Where two texts stand on either side of a separator, the pieces are those of the one and then
/// those of the other.
pub proof fn pieces_go_on(a: Seq<char>, b: Seq<char>, c: char)
    ensures
        split(a.push(c) + b, c) == split(a, c) + split(b, c),
    decreases a.len(),
{
    let whole = a.push(c) + b;
    find_from_is_first(whole, c, 0);
    find_from_is_first(a, c, 0);
    let i = find(whole, c);
    let k = find(a, c);
    assert(whole[a.len() as int] == c);
    if k < a.len() {
        assert(whole[k] == a[k]);
        assert(i == k) by {
            if i < k {
                assert(whole[i] == a[i]);
            }
        }
        assert(whole.take(i) =~= a.take(k));
        assert(whole.skip(i + 1) =~= a.skip(k + 1).push(c) + b);
        pieces_go_on(a.skip(k + 1), b, c);
        assert(split(whole, c) =~= split(a, c) + split(b, c));
    } else {
        assert(i == a.len()) by {
            if i < a.len() {
                assert(whole[i] == a[i]);
            }
        }
        assert(whole.take(i) =~= a);
        assert(whole.skip(i + 1) =~= b);
        assert(split(a, c) =~= seq![a]);
    }
}

/// A text is its pieces with the separator between each two, and no piece holds the separator.
pub proof fn pieces_join_back(s: Seq<char>, c: char)
    ensures
        split(s, c).len() > 0,
        join(split(s, c), seq![c]) == s,
        forall|i: int| 0 <= i < split(s, c).len() ==> !(#[trigger] split(s, c)[i]).contains(c),
    decreases s.len(),
{
    find_from_is_first(s, c, 0);
    let k = find(s, c);
    let all = split(s, c);
    if k < s.len() {
        let rest = split(s.skip(k + 1), c);
        pieces_join_back(s.skip(k + 1), c);
        assert(all == seq![s.take(k)] + rest);
        join_begins(s.take(k), rest, seq![c]);
        assert(s.take(k) + seq![c] + s.skip(k + 1) =~= s);
        assert forall|i: int| 0 <= i < all.len() implies !(#[trigger] all[i]).contains(c) by {
            if i > 0 {
                assert(all[i] == rest[i - 1]);
            }
        }
    } else {
        assert(all =~= seq![s]);
    }
}

proof fn join_begins(first: Seq<char>, rest: Seq<Seq<char>>, sep: Seq<char>)
    requires
        rest.len() > 0,
    ensures
        join(seq![first] + rest, sep) == first + sep + join(rest, sep),
    decreases rest.len(),
{
    let all = seq![first] + rest;
    assert(all.last() == rest.last());
    if rest.len() == 1 {
        assert(all.drop_last() =~= seq![first]);
        assert(join(all.drop_last(), sep) == first);
        assert(join(rest, sep) == rest[0]);
    } else {
        assert(all.drop_last() =~= seq![first] + rest.drop_last());
        join_begins(first, rest.drop_last(), sep);
        assert(join(all, sep) =~= first + sep + join(rest, sep));
    }
}

/// A text splits at the first of a character: what stands before it holds none, and what follows it is
/// all the rest.
pub proof fn splits_at_the_first(a: Seq<char>, b: Seq<char>, c: char)
    requires
        !a.contains(c),
    ensures
        split_at_first(a.push(c) + b, c) == Some((a, b)),
        split_at_first(a, c) is None,
        split(a, c) == seq![a],
{
    let s = a.push(c) + b;
    find_from_is_first(s, c, 0);
    find_from_is_first(a, c, 0);
    let i = find(s, c);
    assert(s[a.len() as int] == c);
    if i < a.len() {
        assert(a[i] == s[i]);
        assert(a.contains(c));
    }
    if find(a, c) < a.len() {
        assert(a.contains(a[find(a, c)]));
    }
    assert(s.take(i) =~= a);
    assert(s.skip(i + 1) =~= b);
}

/// A text splits at the last of a character: what follows it holds none, and what stands before it is
/// all the rest.
pub proof fn splits_at_the_last(a: Seq<char>, b: Seq<char>, c: char)
    requires
        !b.contains(c),
    ensures
        split_at_last(a.push(c) + b, c) == Some((a, b)),
        split_at_last(b, c) is None,
{
    let s = a.push(c) + b;
    rfind_before_is_last(s, c, s.len() as int);
    rfind_before_is_last(b, c, b.len() as int);
    let i = rfind(s, c);
    assert(s[a.len() as int] == c);
    if i > a.len() {
        assert(b[i - a.len() - 1] == s[i]);
        assert(b.contains(c));
    }
    if rfind(b, c) >= 0 {
        assert(b.contains(b[rfind(b, c)]));
    }
    assert(i == a.len());
    assert(s.take(i) =~= a);
    assert(s.skip(i + 1) =~= b);
}

/// What is put before or after a text can be taken off again.
pub proof fn what_is_added_comes_off(s: Seq<char>, p: Seq<char>)
    ensures
        after_prefix(p + s, p) == Some(s),
        before_suffix(s + p, p) == Some(s),
{
    assert(p =~= (p + s).subrange(0, p.len() as int));
    assert((p + s).skip(p.len() as int) =~= s);
    let t = s + p;
    assert(p =~= t.subrange(t.len() - p.len(), t.len() as int));
    assert(t.take(t.len() - p.len()) =~= s);
}

/// Whether a text is nothing but white space.
pub open spec fn is_blank(s: Seq<char>) -> bool {
    forall|i: int| 0 <= i < s.len() ==> is_space(#[trigger] s[i])
}

proof fn blank_start_goes(a: Seq<char>, s: Seq<char>)
    requires
        is_blank(a),
        s.len() > 0 ==> !is_space(s[0]),
    ensures
        trim_start(a + s) == s,
    decreases a.len(),
{
    if a.len() > 0 {
        assert(is_space(a[0]));
        assert((a + s)[0] == a[0]);
        assert((a + s).skip(1) =~= a.skip(1) + s);
        assert forall|i: int| 0 <= i < a.skip(1).len() implies is_space(#[trigger] a.skip(1)[i]) by {
            assert(a.skip(1)[i] == a[i + 1]);
        }
        blank_start_goes(a.skip(1), s);
    } else {
        assert(a + s =~= s);
    }
}

proof fn blank_end_goes(s: Seq<char>, b: Seq<char>)
    requires
        is_blank(b),
        s.len() > 0 ==> !is_space(s.last()),
    ensures
        trim_end(s + b) == s,
    decreases b.len(),
{
    if b.len() > 0 {
        assert(is_space(b[b.len() - 1]));
        assert((s + b).drop_last() =~= s + b.drop_last());
        assert forall|i: int| 0 <= i < b.drop_last().len() implies is_space(
            #[trigger] b.drop_last()[i],
        ) by {
            assert(b.drop_last()[i] == b[i]);
        }
        blank_end_goes(s, b.drop_last());
    } else {
        assert(s + b =~= s);
    }
}

/// Trimming takes off the white space around a text and nothing of the text itself.
pub proof fn trimming_takes_off_blanks(a: Seq<char>, s: Seq<char>, b: Seq<char>)
    requires
        is_blank(a),
        is_blank(b),
        s.len() > 0,
        !is_space(s[0]),
        !is_space(s.last()),
    ensures
        trim(a + s + b) == s,
        trim(a) == Seq::<char>::empty(),
{
    assert(a + s + b =~= a + (s + b));
    blank_start_goes(a, s + b);
    blank_end_goes(s, b);
    blank_start_goes(a, Seq::empty());
    assert(a + Seq::<char>::empty() =~= a);
    assert(trim_end(Seq::<char>::empty()) =~= Seq::empty());
}

/// A numeral reads back as its number where that is in range, and so it does after a plus sign where
/// one is allowed.
pub proof fn numerals_read_back(n: nat, max: nat)
    requires
        n <= max,
    ensures
        number_in_digits(dec(n), max) == Some(n),
        parse_uint(dec(n), max) == Some(n),
        parse_uint(seq!['+'] + dec(n), max) == Some(n),
        number_in_digits(Seq::empty(), max) is None,
        dec(n).len() > 0,
{
    crate::json_writer::dec_value(n);
    crate::json_writer::dec_is_digits(n);
    assert(is_digit(dec(n)[0]));
    assert((seq!['+'] + dec(n)).skip(1) =~= dec(n));
}

/// Texts join to their pieces one after the other, with the separator between each two.
pub proof fn joining_goes_on(parts: Seq<Seq<char>>, one: Seq<char>, sep: Seq<char>)
    ensures
        join(seq![one], sep) == one,
        join(Seq::empty(), sep) == Seq::<char>::empty(),
        parts.len() > 0 ==> join(parts.push(one), sep) == join(parts, sep) + sep + one,
{
    assert(parts.push(one).drop_last() =~= parts);
}

/// Two hexadecimal digits stand for each byte, in order, and two different sequences of bytes are
/// never written alike.
pub proof fn bytes_are_told_apart(a: Seq<u8>, b: Seq<u8>)
    ensures
        hex(a).len() == 2 * a.len(),
        forall|i: int|
            0 <= i < a.len() ==> hex2(#[trigger] a[i]) == hex(a).subrange(2 * i, 2 * i + 2),
        hex(a) == hex(b) ==> a == b,
    decreases a.len(),
{
    hex_by_byte(a);
    hex_by_byte(b);
    if hex(a) == hex(b) {
        assert(a.len() == b.len());
        assert forall|i: int| 0 <= i < a.len() implies a[i] == b[i] by {
            assert(hex2(a[i]) == hex(a).subrange(2 * i, 2 * i + 2));
            assert(hex2(b[i]) == hex(b).subrange(2 * i, 2 * i + 2));
            assert(hex2(a[i])[0] == hex2(b[i])[0] && hex2(a[i])[1] == hex2(b[i])[1]);
            digits_are_told_apart(a[i] as int / 16, b[i] as int / 16);
            digits_are_told_apart(a[i] as int % 16, b[i] as int % 16);
        }
        assert(a =~= b);
    }
}

proof fn digits_are_told_apart(x: int, y: int)
    requires
        0 <= x < 16,
        0 <= y < 16,
        hex_digit(x) == hex_digit(y),
    ensures
        x == y,
{
}

proof fn hex_by_byte(a: Seq<u8>)
    ensures
        hex(a).len() == 2 * a.len(),
        forall|i: int|
            0 <= i < a.len() ==> hex2(#[trigger] a[i]) == hex(a).subrange(2 * i, 2 * i + 2),
    decreases a.len(),
{
    if a.len() > 0 {
        let front = a.drop_last();
        hex_by_byte(front);
        assert forall|i: int| 0 <= i < a.len() implies hex2(#[trigger] a[i]) == hex(a).subrange(
            2 * i,
            2 * i + 2,
        ) by {
            if i < front.len() {
                assert(front[i] == a[i]);
                assert(hex2(front[i]) == hex(front).subrange(2 * i, 2 * i + 2));
                assert(hex(a).subrange(2 * i, 2 * i + 2) =~= hex(front).subrange(2 * i, 2 * i + 2));
            } else {
                assert(hex(a).subrange(2 * i, 2 * i + 2) =~= hex2(a[i]));
            }
        }
    }
}

/// Whatever is joined stands in the whole, each part as it is.
pub proof fn joined_parts_are_there(parts: Seq<Seq<char>>, sep: Seq<char>, k: int)
    requires
        0 <= k < parts.len(),
    ensures
        exists|p: Seq<char>, q: Seq<char>| #[trigger] p.add(parts[k]).add(q) == join(parts, sep),
    decreases parts.len(),
{
    let front = parts.drop_last();
    let last = parts.last();
    joining_goes_on(front, last, sep);
    assert(parts =~= front.push(last));
    if front.len() == 0 {
        assert(parts =~= seq![last]);
        assert(Seq::<char>::empty().add(parts[k]).add(Seq::empty()) =~= join(parts, sep));
    } else if k == parts.len() - 1 {
        assert((join(front, sep) + sep).add(parts[k]).add(Seq::empty()) =~= join(parts, sep));
    } else {
        joined_parts_are_there(front, sep, k);
        let (p, q) = choose|p: Seq<char>, q: Seq<char>| #[trigger]
            p.add(front[k]).add(q) == join(front, sep);
        assert(front[k] == parts[k]);
        assert(p.add(parts[k]).add(q + sep + last) =~= join(parts, sep));
    }
}

} // verus!
