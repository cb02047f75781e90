//! The small part of HTTP/1.1 that streaming a file needs: one request per connection, no body.
use vstd::prelude::*;
use vstd::string::*;
use vstd::utf8::*;

use crate::media::Container;
use crate::text::{
    after_prefix,
    all_digits,
    chars_of,
    dec,
    dec_text,
    digits_number,
    has_char,
    is_digit,
    lower,
    lower_text,
    number_in_digits,
    numerals_read_back,
    opt_str_view,
    opt_view,
    owned,
    pair_views,
    parse_uint,
    parse_uint_text,
    pieces_go_on,
    same,
    slice_text,
    split,
    split_at_first,
    split_once,
    split_text,
    splits_at_the_first,
    strip_prefix,
    trim,
    trim_text,
    views,
    what_is_added_comes_off,
};

verus! {

/// `std::str::from_utf8` accepts exactly the well-formed UTF-8 byte sequences, and gives the text
/// that they encode.
#[verifier::external_body]
pub(crate) fn utf8_text(bytes: &[u8]) -> (r: Option<String>)
    ensures
        r is Some <==> valid_utf8(bytes@),
        r is Some ==> r->0@ == decode_utf8(bytes@),
{
    match std::str::from_utf8(bytes) {
        Ok(s) => Some(s.to_string()),
        Err(_) => None,
    }
}

/// The text that the standard library makes of bytes when it puts replacement characters in the
/// place of what is not UTF-8.
pub uninterp spec fn lossy_text(bytes: Seq<u8>) -> Seq<char>;

/// `String::from_utf8_lossy`: a fixed text for each byte sequence, and the encoded text itself
/// where the bytes are well-formed UTF-8.
#[verifier::external_body]
pub(crate) fn lossy(bytes: &[u8]) -> (r: String)
    ensures
        r@ == lossy_text(bytes@),
        valid_utf8(bytes@) ==> r@ == decode_utf8(bytes@),
{
    String::from_utf8_lossy(bytes).into_owned()
}

/// The value of a byte that is a hexadecimal digit.
pub open spec fn hex_byte(b: u8) -> Option<u8> {
    if 48 <= b <= 57 {
        Some((b - 48) as u8)
    } else if 97 <= b <= 102 {
        Some((b - 87) as u8)
    } else if 65 <= b <= 70 {
        Some((b - 55) as u8)
    } else {
        None
    }
}

fn hex_byte_of(b: u8) -> (r: Option<u8>)
    ensures
        r == hex_byte(b),
        r is Some ==> r->0 < 16,
{
    if 48 <= b && b <= 57 {
        Some(b - 48)
    } else if 97 <= b && b <= 102 {
        Some(b - 87)
    } else if 65 <= b && b <= 70 {
        Some(b - 55)
    } else {
        None
    }
}

/// The byte that an escape's two characters write out, both hexadecimal digits.
pub open spec fn escaped_byte(hi: u8, lo: u8) -> Option<u8> {
    match (hex_byte(hi), hex_byte(lo)) {
        (Some(h), Some(l)) => Some((16 * h + l) as u8),
        _ => None,
    }
}

/// The bytes with every well-formed `%XX` escape replaced by the byte that it writes out. What is
/// not a well-formed escape is passed through.
pub open spec fn unescaped(b: Seq<u8>) -> Seq<u8>
    decreases b.len(),
{
    if b.len() == 0 {
        Seq::empty()
    } else if b[0] == 37 && b.len() > 2 && escaped_byte(b[1], b[2]) is Some {
        seq![escaped_byte(b[1], b[2])->0] + unescaped(b.skip(3))
    } else {
        seq![b[0]] + unescaped(b.skip(1))
    }
}

/// A text with its `%XX` escapes decoded.
pub open spec fn percent_decoded(s: Seq<char>) -> Seq<char> {
    lossy_text(unescaped(encode_utf8(s)))
}

/// The bytes of a text with its `%XX` escapes decoded.
fn unescape(s: &str) -> (out: Vec<u8>)
    ensures
        out@ == unescaped(encode_utf8(s@)),
{
    let bytes = s.as_bytes();
    let ghost all = encode_utf8(s@);
    let mut out: Vec<u8> = Vec::new();
    let mut i: usize = 0;
    assert(all.skip(0) =~= all);
    assert(out@ + unescaped(all) =~= unescaped(all));
    while i < bytes.len()
        invariant
            bytes@ == all,
            i <= all.len(),
            out@ + unescaped(all.skip(i as int)) == unescaped(all),
        decreases all.len() - i,
    {
        let ghost known = out@;
        let ghost rest = all.skip(i as int);
        let b: u8 = bytes[i];
        let mut step: usize = 1;
        let mut byte: u8 = b;
        if b == 37 && bytes.len() - i > 2 {
            let hi: u8 = bytes[i + 1];
            let lo: u8 = bytes[i + 2];
            assert(rest[1] == hi && rest[2] == lo);
            match (hex_byte_of(hi), hex_byte_of(lo)) {
                (Some(h), Some(l)) => {
                    byte = 16 * h + l;
                    step = 3;
                },
                _ => {},
            }
        }
        out.push(byte);
        proof {
            assert(rest.skip(step as int) =~= all.skip(i + step));
            assert(unescaped(rest) == seq![byte] + unescaped(all.skip(i + step)));
            assert(out@ + unescaped(all.skip(i + step)) =~= known + unescaped(rest));
        }
        i += step;
    }
    assert(out@ + unescaped(all.skip(i as int)) =~= out@);
    out
}

/// Decodes `%XX` escapes. A malformed escape is passed through as it stands.
pub fn percent_decode(s: &str) -> (r: String)
    ensures
        r@ == percent_decoded(s@),
        valid_utf8(unescaped(encode_utf8(s@))) ==> r@ == decode_utf8(unescaped(encode_utf8(s@))),
{
    let out = unescape(s);
    lossy(out.as_slice())
}

/// A character other than `%` has no byte 37 in its UTF-8 form.
proof fn only_percent_has_its_byte(c: char)
    requires
        c != '%',
    ensures
        forall|i: int|
            0 <= i < encode_scalar(c as u32).len() ==> #[trigger] encode_scalar(c as u32)[i] != 37,
{
    let u = c as u32;
    char_is_scalar(c);
    assert(u != 37) by {
        if u == 37 {
            char_u32_cast(c, u);
        }
    }
    if u <= 0x7f {
        assert(u & 0x7f == u) by (bit_vector)
            requires
                u <= 0x7f,
        ;
    } else {
        assert(forall|x: u8| #![auto] 0xc0u8 | x != 37) by (bit_vector);
        assert(forall|x: u8| #![auto] 0xe0u8 | x != 37) by (bit_vector);
        assert(forall|x: u8| #![auto] 0xf0u8 | x != 37) by (bit_vector);
        assert(forall|x: u8| #![auto] 0x80u8 | x != 37) by (bit_vector);
    }
}

proof fn no_percent_byte(s: Seq<char>)
    requires
        !s.contains('%'),
    ensures
        !encode_utf8(s).contains(37u8),
    decreases s.len(),
{
    if s.len() > 0 {
        let head = encode_scalar(s[0] as u32);
        let rest = encode_utf8(s.drop_first());
        assert(s.contains(s[0]));
        only_percent_has_its_byte(s[0]);
        assert(!s.drop_first().contains('%')) by {
            if s.drop_first().contains('%') {
                let k = choose|k: int| 0 <= k < s.drop_first().len() && s.drop_first()[k] == '%';
                assert(s[k + 1] == '%');
            }
        }
        no_percent_byte(s.drop_first());
        let all = encode_utf8(s);
        assert(all =~= head + rest);
        if all.contains(37u8) {
            let k = choose|k: int| 0 <= k < all.len() && all[k] == 37u8;
            if k < head.len() {
                assert(head[k] == 37);
            } else {
                assert(rest[k - head.len()] == 37u8);
                assert(rest.contains(37u8));
            }
        }
    }
}

proof fn nothing_to_unescape(b: Seq<u8>)
    requires
        !b.contains(37u8),
    ensures
        unescaped(b) == b,
    decreases b.len(),
{
    if b.len() > 0 {
        assert(b.contains(b[0]));
        assert(!b.skip(1).contains(37u8)) by {
            if b.skip(1).contains(37u8) {
                let k = choose|k: int| 0 <= k < b.skip(1).len() && b.skip(1)[k] == 37u8;
                assert(b[k + 1] == 37u8);
            }
        }
        nothing_to_unescape(b.skip(1));
        assert(unescaped(b) =~= b);
    } else {
        assert(unescaped(b) =~= b);
    }
}

/// A text without a percent sign holds no escape: its bytes decode to themselves.
pub proof fn plain_text_needs_no_decoding(s: Seq<char>)
    requires
        !s.contains('%'),
    ensures
        unescaped(encode_utf8(s)) == encode_utf8(s),
        valid_utf8(unescaped(encode_utf8(s))),
        decode_utf8(unescaped(encode_utf8(s))) == s,
{
    no_percent_byte(s);
    nothing_to_unescape(encode_utf8(s));
    encode_utf8_valid_utf8(s);
    encode_utf8_decode_utf8(s);
}

/// The index of the first `\r\n` at or after `i`, or the length when there is none.
pub open spec fn crlf_from(s: Seq<char>, i: int) -> int
    decreases s.len() - i,
{
    if i < 0 || i + 1 >= s.len() {
        s.len() as int
    } else if s[i] == '\r' && s[i + 1] == '\n' {
        i
    } else {
        crlf_from(s, i + 1)
    }
}

/// The lines of a header block: the pieces between its `\r\n`s.
pub open spec fn header_lines(s: Seq<char>) -> Seq<Seq<char>>
    decreases s.len(),
{
    let i = crlf_from(s, 0);
    if 0 <= i && i + 2 <= s.len() {
        seq![s.take(i)] + header_lines(s.skip(i + 2))
    } else {
        seq![s]
    }
}

proof fn crlf_in_suffix(s: Seq<char>, from: int, i: int)
    requires
        0 <= from <= i <= s.len(),
    ensures
        crlf_from(s.skip(from), i - from) == crlf_from(s, i) - from,
        i <= crlf_from(s, i) <= s.len(),
        crlf_from(s, i) < s.len() ==> crlf_from(s, i) + 2 <= s.len(),
    decreases s.len() - i,
{
    if i + 1 < s.len() && !(s[i] == '\r' && s[i + 1] == '\n') {
        crlf_in_suffix(s, from, i + 1);
    }
}

/// The lines of a header block.
fn header_lines_of(text: &str) -> (r: Vec<String>)
    ensures
        views(r@) == header_lines(text@),
        r@.len() > 0,
{
    let chars = chars_of(text);
    let ghost s = text@;
    let n: usize = chars.len();
    let mut out: Vec<String> = Vec::new();
    let mut from: usize = 0;
    assert(s.skip(0) =~= s);
    assert(views(out@) + header_lines(s) =~= header_lines(s));
    loop
        invariant
            chars@ == s,
            s == text@,
            n == s.len(),
            from <= n,
            views(out@) + header_lines(s.skip(from as int)) == header_lines(s),
        decreases n - from,
    {
        let ghost known = views(out@);
        let ghost rest = s.skip(from as int);
        let mut i: usize = from;
        while n - i > 1 && !(chars[i] == '\r' && chars[i + 1] == '\n')
            invariant
                chars@ == s,
                n == s.len(),
                from <= i <= n,
                crlf_from(s, from as int) == crlf_from(s, i as int),
            decreases n - i,
        {
            i += 1;
        }
        proof {
            crlf_in_suffix(s, from as int, from as int);
        }
        if n - i <= 1 {
            let piece = slice_text(&chars, from, n);
            assert(piece@ =~= rest);
            out.push(piece);
            assert(views(out@) =~= known.push(rest));
            assert(views(out@) =~= header_lines(s));
            return out;
        }
        let piece = slice_text(&chars, from, i);
        proof {
            assert(piece@ =~= rest.take(i - from));
            assert(rest.skip(i - from + 2) =~= s.skip(i as int + 2));
            assert(header_lines(rest) == seq![piece@] + header_lines(s.skip(i as int + 2)));
        }
        out.push(piece);
        assert(views(out@) =~= known.push(piece@));
        assert(views(out@) + header_lines(s.skip(i as int + 2)) =~= known + header_lines(rest));
        from = i + 2;
    }
}

/// The name and value of a header line: what stands before and after its first colon, trimmed, the
/// name in lower case.
pub open spec fn header_of(line: Seq<char>) -> Option<(Seq<char>, Seq<char>)> {
    match split_at_first(line, ':') {
        Some((k, v)) => Some((lower(trim(k)), trim(v))),
        None => None,
    }
}

/// The headers that lines make up, in order.
pub open spec fn headers_of(rows: Seq<Seq<char>>) -> Seq<(Seq<char>, Seq<char>)>
    decreases rows.len(),
{
    if rows.len() == 0 {
        Seq::empty()
    } else {
        let rest = headers_of(rows.drop_last());
        match header_of(rows.last()) {
            Some(h) => rest.push(h),
            None => rest,
        }
    }
}

/// The value of the last header named `name`.
pub open spec fn header_value(h: Seq<(Seq<char>, Seq<char>)>, name: Seq<char>) -> Option<Seq<char>>
    decreases h.len(),
{
    if h.len() == 0 {
        None
    } else if h.last().0 == name {
        Some(h.last().1)
    } else {
        header_value(h.drop_last(), name)
    }
}

/// A request, without its body.
#[derive(Debug, Clone, PartialEq)]
pub struct HttpRequest {
    pub method: String,
    /// The path, decoded, without the query.
    pub path: String,
    /// The query as it was sent, without the `?`.
    pub query: String,
    /// The headers in order, names in lower case.
    pub headers: Vec<(String, String)>,
}

/// What a request holds.
pub struct Request {
    pub method: Seq<char>,
    pub path: Seq<char>,
    pub query: Seq<char>,
    pub headers: Seq<(Seq<char>, Seq<char>)>,
}

/// What the text of a header block asks for: its first line holds a method, a target and something
/// more, with single spaces between them.
pub open spec fn request_in(text: Seq<char>) -> Option<Request> {
    let rows = header_lines(text);
    let parts = split(rows[0], ' ');
    if parts.len() < 3 {
        None
    } else {
        let (path, query) = match split_at_first(parts[1], '?') {
            Some((p, q)) => (p, q),
            None => (parts[1], Seq::empty()),
        };
        Some(
            Request {
                method: parts[0],
                path: percent_decoded(path),
                query,
                headers: headers_of(rows.skip(1)),
            },
        )
    }
}

impl HttpRequest {
    /// What the request holds.
    pub open spec fn content(self) -> Request {
        Request {
            method: self.method@,
            path: self.path@,
            query: self.query@,
            headers: pair_views(self.headers@),
        }
    }

    /// Reads a header block; `None` on anything malformed or incomplete.
    pub fn parse(head: &[u8]) -> (r: Option<Self>)
        ensures
            r is Some <==> valid_utf8(head@) && request_in(decode_utf8(head@)) is Some,
            r is Some ==> request_in(decode_utf8(head@)) == Some(r->0.content()),
    {
        let text = match utf8_text(head) {
            Some(text) => text,
            None => {
                return None;
            },
        };
        let rows = header_lines_of(text.as_str());
        let ghost all = header_lines(text@);
        let parts = split_text(rows[0].as_str(), ' ');
        proof {
            assert(all[0] == rows@[0]@);
            assert(views(parts@) == split(all[0], ' '));
        }
        if parts.len() < 3 {
            return None;
        }
        let method = parts[0].clone();
        assert(views(parts@)[0] == method@);
        assert(views(parts@)[1] == parts@[1]@);
        let (raw_path, query) = match split_once(parts[1].as_str(), '?') {
            Some((p, q)) => (p, q),
            None => (parts[1].clone(), String::new()),
        };
        let path = percent_decode(raw_path.as_str());
        let mut headers: Vec<(String, String)> = Vec::new();
        let mut i: usize = 1;
        let ghost tail = all.skip(1);
        assert(tail.take(0) =~= Seq::<Seq<char>>::empty());
        assert(pair_views(headers@) =~= Seq::<(Seq<char>, Seq<char>)>::empty());
        while i < rows.len()
            invariant
                1 <= i <= rows@.len(),
                all == views(rows@),
                tail == all.skip(1),
                pair_views(headers@) == headers_of(tail.take(i - 1)),
            decreases rows@.len() - i,
        {
            let ghost known = pair_views(headers@);
            proof {
                assert(tail.take(i as int).drop_last() =~= tail.take(i - 1));
                assert(tail.take(i as int).last() == rows@[i as int]@);
            }
            match split_once(rows[i].as_str(), ':') {
                Some((k, v)) => {
                    let name = lower_text(trim_text(k.as_str()).as_str());
                    let value = trim_text(v.as_str());
                    headers.push((name, value));
                    assert(pair_views(headers@) =~= known.push((name@, value@)));
                },
                None => {},
            }
            i += 1;
        }
        assert(tail.take(i - 1) =~= tail);
        Some(HttpRequest { method, path, query, headers })
    }

    /// The value of the header `name`, which is in lower case; of several the last.
    pub fn header(&self, name: &str) -> (r: Option<&str>)
        ensures
            opt_str_view(r) == header_value(self.content().headers, name@),
    {
        let ghost h = pair_views(self.headers@);
        let mut i: usize = self.headers.len();
        assert(h.take(i as int) =~= h);
        while i > 0
            invariant
                i <= self.headers@.len(),
                h == pair_views(self.headers@),
                header_value(h, name@) == header_value(h.take(i as int), name@),
            decreases i,
        {
            proof {
                assert(h.take(i as int).drop_last() =~= h.take(i - 1));
                assert(h.take(i as int).last() == h[i - 1]);
            }
            if same(self.headers[i - 1].0.as_str(), name) {
                return Some(self.headers[i - 1].1.as_str());
            }
            i -= 1;
        }
        None
    }
}

/// Whether bytes begin with the method of a request that is answered here.
pub open spec fn begins_request(b: Seq<u8>) -> bool {
    seq![71u8, 69u8, 84u8, 32u8].is_prefix_of(b) || seq![72u8, 69u8, 65u8, 68u8, 32u8].is_prefix_of(
        b,
    )
}

/// Whether `head` begins with `GET ` or `HEAD `: enough to route a fresh connection.
pub fn looks_like_http_request(head: &[u8]) -> (r: bool)
    ensures
        r == begins_request(head@),
{
    let get = head.len() >= 4 && head[0] == 71 && head[1] == 69 && head[2] == 84 && head[3] == 32;
    let has_head = head.len() >= 5 && head[0] == 72 && head[1] == 69 && head[2] == 65 && head[3]
        == 68 && head[4] == 32;
    proof {
        let g = seq![71u8, 69u8, 84u8, 32u8];
        let h = seq![72u8, 69u8, 65u8, 68u8, 32u8];
        if get {
            assert(g =~= head@.subrange(0, 4));
        } else if g.is_prefix_of(head@) {
            assert(forall|i: int| 0 <= i < 4 ==> head@[i] == head@.subrange(0, 4)[i]);
        }
        if has_head {
            assert(h =~= head@.subrange(0, 5));
        } else if h.is_prefix_of(head@) {
            assert(forall|i: int| 0 <= i < 5 ==> head@[i] == head@.subrange(0, 5)[i]);
        }
    }
    get || has_head
}

/// Whether an empty line ends the headers at `i`: the four bytes `\r\n\r\n`.
pub open spec fn blank_line_at(b: Seq<u8>, i: int) -> bool {
    0 <= i && i + 4 <= b.len() && b[i] == 13 && b[i + 1] == 10 && b[i + 2] == 13 && b[i + 3] == 10
}

/// The index just past the first empty line, when the header block is complete.
pub fn find_header_end(buf: &[u8]) -> (r: Option<usize>)
    ensures
        match r {
            Some(end) => blank_line_at(buf@, end - 4) && forall|i: int|
                0 <= i < end - 4 ==> !blank_line_at(buf@, i),
            None => forall|i: int| !blank_line_at(buf@, i),
        },
{
    let n: usize = buf.len();
    let mut i: usize = 0;
    while i < n && n - i >= 4
        invariant
            n == buf@.len(),
            i <= n,
            forall|k: int| 0 <= k < i ==> !blank_line_at(buf@, k),
        decreases n - i,
    {
        if buf[i] == 13 && buf[i + 1] == 10 && buf[i + 2] == 13 && buf[i + 3] == 10 {
            return Some(i + 4);
        }
        i += 1;
    }
    None
}

/// The first and last byte that a `Range` header asks for out of `total` bytes; `None` for a header
/// that is malformed, asks for several ranges, or lies outside the file.
pub open spec fn range_in(header: Seq<char>, total: nat) -> Option<(nat, nat)> {
    match after_prefix(header, "bytes="@) {
        None => None,
        Some(spec_text) => if spec_text.contains(',') || total == 0 {
            None
        } else {
            match split_at_first(spec_text, '-') {
                None => None,
                Some((a, b)) => {
                    let asked: Option<(nat, nat)> = if a.len() == 0 {
                        match number_in_digits(b, u64::MAX as nat) {
                            Some(n) => Some(
                                (
                                    if n >= total {
                                        0nat
                                    } else {
                                        (total - n) as nat
                                    },
                                    (total - 1) as nat,
                                ),
                            ),
                            None => None,
                        }
                    } else {
                        match (
                            number_in_digits(a, u64::MAX as nat),
                            if b.len() == 0 {
                                Some((total - 1) as nat)
                            } else {
                                number_in_digits(b, u64::MAX as nat)
                            },
                        ) {
                            (Some(s), Some(e)) => Some((s, e)),
                            _ => None,
                        }
                    };
                    match asked {
                        Some((s, e)) => if s <= e && s < total {
                            Some(
                                (
                                    s,
                                    if e < total {
                                        e
                                    } else {
                                        (total - 1) as nat
                                    },
                                ),
                            )
                        } else {
                            None
                        },
                        None => None,
                    }
                },
            }
        },
    }
}

/// Reads `bytes=START-END`, the only form that a player sends to seek.
pub fn parse_range(header: &str, total_len: u64) -> (r: Option<(u64, u64)>)
    ensures
        match r {
            Some((s, e)) => range_in(header@, total_len as nat) == Some((s as nat, e as nat)) && s
                <= e < total_len,
            None => range_in(header@, total_len as nat) is None,
        },
{
    let body = match strip_prefix(header, "bytes=") {
        Some(body) => body,
        None => {
            return None;
        },
    };
    if has_char(body.as_str(), ',') || total_len == 0 {
        return None;
    }
    let (a, b) = match split_once(body.as_str(), '-') {
        Some(pair) => pair,
        None => {
            return None;
        },
    };
    let (start, end): (u64, u64) = if a.as_str().is_empty() {
        match digits_number(b.as_str(), u64::MAX) {
            Some(n) => (
                if n >= total_len {
                    0
                } else {
                    total_len - n
                },
                total_len - 1,
            ),
            None => {
                return None;
            },
        }
    } else {
        let first: u64 = match digits_number(a.as_str(), u64::MAX) {
            Some(s) => s,
            None => {
                return None;
            },
        };
        let last: u64 = if b.as_str().is_empty() {
            total_len - 1
        } else {
            match digits_number(b.as_str(), u64::MAX) {
                Some(e) => e,
                None => {
                    return None;
                },
            }
        };
        (first, last)
    };
    if start <= end && start < total_len {
        Some(
            (
                start,
                if end < total_len {
                    end
                } else {
                    total_len - 1
                },
            ),
        )
    } else {
        None
    }
}

/// The decoded value of the first parameter named `key` among the pieces of a query from the
/// `i`-th on.
pub open spec fn param_from(pairs: Seq<Seq<char>>, key: Seq<char>, i: int) -> Option<Seq<char>>
    decreases pairs.len() - i,
{
    if i < 0 || i >= pairs.len() {
        None
    } else {
        match split_at_first(pairs[i], '=') {
            Some((k, v)) => if k == key {
                Some(percent_decoded(v))
            } else {
                param_from(pairs, key, i + 1)
            },
            None => param_from(pairs, key, i + 1),
        }
    }
}

/// The decoded value of the first parameter named `key` in a query.
pub fn query_param(query: &str, key: &str) -> (r: Option<String>)
    ensures
        opt_view(r) == param_from(split(query@, '&'), key@, 0),
{
    let pairs = split_text(query, '&');
    let ghost all = split(query@, '&');
    let mut i: usize = 0;
    while i < pairs.len()
        invariant
            i <= pairs@.len(),
            views(pairs@) == all,
            all == split(query@, '&'),
            param_from(all, key@, 0) == param_from(all, key@, i as int),
        decreases pairs@.len() - i,
    {
        assert(all[i as int] == pairs@[i as int]@);
        match split_once(pairs[i].as_str(), '=') {
            Some((k, v)) => {
                if same(k.as_str(), key) {
                    return Some(percent_decode(v.as_str()));
                }
            },
            None => {},
        }
        i += 1;
    }
    assert(all.len() == pairs@.len());
    None
}

/// The media type of a file: by the container that it was scanned as, else by its extension where
/// that names an audio format, else the generic one.
pub open spec fn media_type(container: Option<Container>, ext: Option<Seq<char>>) -> Seq<char> {
    match container {
        Some(Container::Matroska) => "video/x-matroska"@,
        Some(Container::WebM) => "video/webm"@,
        Some(Container::Mp4) => "video/mp4"@,
        Some(Container::FragmentedMp4) => "video/mp4"@,
        Some(Container::MpegTs) => "video/mp2t"@,
        Some(Container::MpegPs) => "video/mpeg"@,
        Some(Container::Avi) => "video/x-msvideo"@,
        Some(Container::Asf) => "video/x-ms-asf"@,
        Some(Container::Flv) => "video/x-flv"@,
        Some(Container::Ogg) => "video/ogg"@,
        _ => match ext {
            Some(e) => if lower(e) == "mp3"@ {
                "audio/mpeg"@
            } else if lower(e) == "flac"@ {
                "audio/flac"@
            } else if lower(e) == "aac"@ {
                "audio/aac"@
            } else if lower(e) == "wav"@ {
                "audio/wav"@
            } else if lower(e) == "m4a"@ {
                "audio/mp4"@
            } else {
                "application/octet-stream"@
            },
            None => "application/octet-stream"@,
        },
    }
}

/// The media type of a file.
pub fn content_type_for(container: Option<Container>, ext: Option<&str>) -> (r: &'static str)
    ensures
        r@ == media_type(container, opt_str_view(ext)),
{
    match container {
        Some(Container::Matroska) => "video/x-matroska",
        Some(Container::WebM) => "video/webm",
        Some(Container::Mp4) => "video/mp4",
        Some(Container::FragmentedMp4) => "video/mp4",
        Some(Container::MpegTs) => "video/mp2t",
        Some(Container::MpegPs) => "video/mpeg",
        Some(Container::Avi) => "video/x-msvideo",
        Some(Container::Asf) => "video/x-ms-asf",
        Some(Container::Flv) => "video/x-flv",
        Some(Container::Ogg) => "video/ogg",
        _ => match ext {
            Some(e) => {
                let low = lower_text(e);
                if same(low.as_str(), "mp3") {
                    "audio/mpeg"
                } else if same(low.as_str(), "flac") {
                    "audio/flac"
                } else if same(low.as_str(), "aac") {
                    "audio/aac"
                } else if same(low.as_str(), "wav") {
                    "audio/wav"
                } else if same(low.as_str(), "m4a") {
                    "audio/mp4"
                } else {
                    "application/octet-stream"
                }
            },
            None => "application/octet-stream",
        },
    }
}

/// A whole response that refuses a request: the reason is both the status text and the body.
pub open spec fn error_response(code: nat, reason: Seq<char>) -> Seq<char> {
    "HTTP/1.1 "@ + dec(code) + " "@ + reason + "\r\nContent-Type: text/plain\r\nContent-Length: "@
        + dec(encode_utf8(reason).len()) + "\r\nConnection: close\r\n\r\n"@ + reason
}

/// A whole response that refuses a request.
pub fn error_text(code: u16, reason: &str) -> (r: String)
    ensures
        r@ == error_response(code as nat, reason@),
{
    let mut out = owned("HTTP/1.1 ");
    out.append(dec_text(code as u128).as_str());
    out.append(" ");
    out.append(reason);
    out.append("\r\nContent-Type: text/plain\r\nContent-Length: ");
    let bytes = reason.as_bytes();
    out.append(dec_text(bytes.len() as u128).as_str());
    out.append("\r\nConnection: close\r\n\r\n");
    out.append(reason);
    out
}

/// A whole response to a range that cannot be served out of `total` bytes.
pub open spec fn unsatisfiable_response(total: nat) -> Seq<char> {
    "HTTP/1.1 416 Range Not Satisfiable\r\nContent-Range: bytes */"@ + dec(total)
        + "\r\nContent-Type: text/plain\r\nContent-Length: 21\r\nConnection: close\r\n\r\nRange Not Satisfiable"@
}

/// A whole response to a range that cannot be served.
pub fn unsatisfiable_text(total_len: u64) -> (r: String)
    ensures
        r@ == unsatisfiable_response(total_len as nat),
{
    let mut out = owned("HTTP/1.1 416 Range Not Satisfiable\r\nContent-Range: bytes */");
    out.append(dec_text(total_len as u128).as_str());
    out.append(
        "\r\nContent-Type: text/plain\r\nContent-Length: 21\r\nConnection: close\r\n\r\nRange Not Satisfiable",
    );
    out
}

/// The head of a response with a whole body of `len` bytes.
pub open spec fn ok_head(content_type: Seq<char>, len: nat) -> Seq<char> {
    "HTTP/1.1 200 OK\r\nContent-Type: "@ + content_type + "\r\nContent-Length: "@ + dec(len)
        + "\r\nConnection: close\r\n\r\n"@
}

/// The head of a response with a whole body of `len` bytes.
pub fn ok_head_text(content_type: &str, len: usize) -> (r: String)
    ensures
        r@ == ok_head(content_type@, len as nat),
{
    let mut out = owned("HTTP/1.1 200 OK\r\nContent-Type: ");
    out.append(content_type);
    out.append("\r\nContent-Length: ");
    out.append(dec_text(len as u128).as_str());
    out.append("\r\nConnection: close\r\n\r\n");
    out
}

/// What is sent for a file: a response's head, and which part of the file follows it, by its first
/// byte and its length.
pub struct FileResponse {
    pub head: String,
    pub body: Option<(u64, u64)>,
}

/// The head of a response with `len` bytes of a file, and the range that they are. `extra` is
/// further header lines.
pub open spec fn file_head(
    content_type: Seq<char>,
    extra: Seq<char>,
    len: nat,
    range: Option<(nat, nat)>,
    total: nat,
) -> Seq<char> {
    let status = if range is Some {
        "HTTP/1.1 206 Partial Content\r\n"@
    } else {
        "HTTP/1.1 200 OK\r\n"@
    };
    let plain = status + "Content-Type: "@ + content_type + "\r\nContent-Length: "@ + dec(len)
        + "\r\nAccept-Ranges: bytes\r\n"@ + extra;
    let ranged = match range {
        Some((s, e)) => plain + "Content-Range: bytes "@ + dec(s) + "-"@ + dec(e) + "/"@ + dec(total)
            + "\r\n"@,
        None => plain,
    };
    ranged + "Connection: close\r\n\r\n"@
}

/// What is sent for a file of `total` bytes. A `Range` header that cannot be served is answered
/// with a refusal, never with the whole file.
pub open spec fn file_sent(
    total: nat,
    content_type: Seq<char>,
    extra: Seq<char>,
    range: Option<Seq<char>>,
    method: Seq<char>,
) -> (Seq<char>, Option<(nat, nat)>) {
    let asked = match range {
        Some(h) => range_in(h, total),
        None => None,
    };
    if range is Some && asked is None {
        (unsatisfiable_response(total), None)
    } else {
        let (start, len) = match asked {
            Some((s, e)) => (s, (e - s + 1) as nat),
            None => (0nat, total),
        };
        (
            file_head(content_type, extra, len, asked, total),
            if method == "HEAD"@ || len == 0 {
                None
            } else {
                Some((start, len))
            },
        )
    }
}

/// Decides what is sent for a file of `total_len` bytes. `extra` is further header lines.
pub fn serve_file(
    total_len: u64,
    content_type: &str,
    extra: &str,
    range_header: Option<&str>,
    method: &str,
) -> (r: FileResponse)
    ensures
        ({
            let sent = file_sent(
                total_len as nat,
                content_type@,
                extra@,
                opt_str_view(range_header),
                method@,
            );
            &&& r.head@ == sent.0
            &&& match r.body {
                Some((start, len)) => sent.1 == Some((start as nat, len as nat)) && len > 0 && start
                    + len <= total_len,
                None => sent.1 is None,
            }
        }),
{
    let range = match range_header {
        Some(h) => {
            match parse_range(h, total_len) {
                Some(r) => Some(r),
                None => {
                    return FileResponse { head: unsatisfiable_text(total_len), body: None };
                },
            }
        },
        None => None,
    };
    let (start, len): (u64, u64) = match range {
        Some((s, e)) => (s, e - s + 1),
        None => (0, total_len),
    };
    let mut head = match range {
        Some(_) => owned("HTTP/1.1 206 Partial Content\r\n"),
        None => owned("HTTP/1.1 200 OK\r\n"),
    };
    head.append("Content-Type: ");
    head.append(content_type);
    head.append("\r\nContent-Length: ");
    head.append(dec_text(len as u128).as_str());
    head.append("\r\nAccept-Ranges: bytes\r\n");
    head.append(extra);
    match range {
        Some((s, e)) => {
            head.append("Content-Range: bytes ");
            head.append(dec_text(s as u128).as_str());
            head.append("-");
            head.append(dec_text(e as u128).as_str());
            head.append("/");
            head.append(dec_text(total_len as u128).as_str());
            head.append("\r\n");
        },
        None => {},
    }
    head.append("Connection: close\r\n\r\n");
    let body = if same(method, "HEAD") || len == 0 {
        None
    } else {
        Some((start, len))
    };
    FileResponse { head, body }
}

/// How large a header block may grow, in bytes.
pub const MAX_HEADER_BYTES: usize = 16_384;

/// How long a request may take to come in, in nanoseconds.
pub const HEADER_READ_TIMEOUT: u64 = 10_000_000_000;

/// What to do with what has come in of a request.
#[derive(Debug, Clone, Copy, PartialEq, Eq, Structural)]
pub enum HeadStep {
    /// The header block is complete and ends before this index.
    Complete(usize),
    TooLarge,
    GiveUp,
    ReadMore,
}

/// Decides what to do with what has come in of a request. A complete header block is taken however
/// late it is; without one, a block too large or a peer too slow ends the waiting.
pub fn head_step(pending: &[u8], late: bool) -> (r: HeadStep)
    ensures
        match r {
            HeadStep::Complete(end) => blank_line_at(pending@, end - 4) && forall|i: int|
                0 <= i < end - 4 ==> !blank_line_at(pending@, i),
            HeadStep::TooLarge => pending@.len() > MAX_HEADER_BYTES,
            HeadStep::GiveUp => pending@.len() <= MAX_HEADER_BYTES && late,
            HeadStep::ReadMore => pending@.len() <= MAX_HEADER_BYTES && !late,
        },
        !(r is Complete) <==> (forall|i: int| !blank_line_at(pending@, i)),
{
    match find_header_end(pending) {
        Some(end) => HeadStep::Complete(end),
        None => if pending.len() > MAX_HEADER_BYTES {
            HeadStep::TooLarge
        } else if late {
            HeadStep::GiveUp
        } else {
            HeadStep::ReadMore
        },
    }
}

/// What a header block's bytes ask for; nothing where they are not UTF-8 or malformed.
pub open spec fn parsed_head(b: Seq<u8>) -> Option<Request> {
    if valid_utf8(b) {
        request_in(decode_utf8(b))
    } else {
        None
    }
}

/// What has come in of a request comes to.
#[derive(Debug, Clone)]
pub enum Incoming {
    /// A request, and where what follows its header block begins.
    Request { request: HttpRequest, end: usize },
    Refuse { code: u16, reason: &'static str },
    GiveUp,
    ReadMore,
}

/// Takes a request out of what has come in, as soon as its header block is complete.
pub fn take_request(pending: &[u8], late: bool) -> (r: Incoming)
    ensures
        match r {
            Incoming::Request { request, end } => {
                &&& end <= pending@.len()
                &&& blank_line_at(pending@, end - 4)
                &&& forall|i: int| 0 <= i < end - 4 ==> !blank_line_at(pending@, i)
                &&& parsed_head(pending@.take(end as int)) == Some(request.content())
            },
            Incoming::Refuse { code, reason } => {
                ||| code == 400 && reason@ == "Bad Request"@ && exists|end: int|
                    {
                        &&& 4 <= end <= pending@.len()
                        &&& blank_line_at(pending@, end - 4)
                        &&& (forall|i: int| 0 <= i < end - 4 ==> !blank_line_at(pending@, i))
                        &&& #[trigger] parsed_head(pending@.take(end)) is None
                    }
                ||| code == 431 && reason@ == "Request Header Fields Too Large"@ && (forall|i: int|
                    !blank_line_at(pending@, i)) && pending@.len() > MAX_HEADER_BYTES
            },
            Incoming::GiveUp => (forall|i: int| !blank_line_at(pending@, i)) && pending@.len()
                <= MAX_HEADER_BYTES && late,
            Incoming::ReadMore => (forall|i: int| !blank_line_at(pending@, i)) && pending@.len()
                <= MAX_HEADER_BYTES && !late,
        },
{
    match head_step(pending, late) {
        HeadStep::Complete(end) => {
            let head = vstd::slice::slice_subrange(pending, 0, end);
            let ghost taken = pending@.take(end as int);
            assert(head@ =~= taken);
            match HttpRequest::parse(head) {
                Some(request) => {
                    assert(parsed_head(taken) == Some(request.content()));
                    Incoming::Request { request, end }
                },
                None => {
                    assert(parsed_head(taken) is None);
                    Incoming::Refuse { code: 400, reason: "Bad Request" }
                },
            }
        },
        HeadStep::TooLarge => Incoming::Refuse {
            code: 431,
            reason: "Request Header Fields Too Large",
        },
        HeadStep::GiveUp => Incoming::GiveUp,
        HeadStep::ReadMore => Incoming::ReadMore,
    }
}

/// How long a request says its body is; zero when it does not say, or not in digits.
pub open spec fn body_length(req: Request) -> nat {
    match header_value(req.headers, "content-length"@) {
        Some(v) => match parse_uint(v, u64::MAX as nat) {
            Some(n) => n,
            None => 0,
        },
        None => 0,
    }
}

/// How long a request says its body is.
pub fn content_length(req: &HttpRequest) -> (r: u64)
    ensures
        r == body_length(req.content()),
{
    match req.header("content-length") {
        Some(v) => match parse_uint_text(v, u64::MAX) {
            Some(n) => n,
            None => 0,
        },
        None => 0,
    }
}

proof fn range_parts(a: Seq<char>, b: Seq<char>)
    requires
        all_digits(a) || a.len() == 0,
        all_digits(b) || b.len() == 0,
    ensures
        ({
            let text = a.push('-') + b;
            &&& after_prefix("bytes="@ + text, "bytes="@) == Some(text)
            &&& !text.contains(',')
            &&& split_at_first(text, '-') == Some((a, b))
        }),
{
    let text = a.push('-') + b;
    what_is_added_comes_off(text, "bytes="@);
    if text.contains(',') {
        let i = choose|i: int| 0 <= i < text.len() && text[i] == ',';
        if i < a.len() {
            assert(is_digit(a[i]));
        } else if i > a.len() {
            assert(is_digit(b[i - a.len() - 1]));
        }
    }
    if a.contains('-') {
        let i = choose|i: int| 0 <= i < a.len() && a[i] == '-';
        assert(is_digit(a[i]));
    }
    splits_at_the_first(a, b, '-');
}

/// A range that lies in the file is served as it was asked for, one that runs past the end up to the
/// end, and one that begins past the end or is turned round not at all. A range without an end goes on
/// to the end of the file, and one without a start is that many bytes at the end.
pub proof fn ranges_are_served_as_asked(s: nat, e: nat, total: nat)
    requires
        s <= u64::MAX,
        e <= u64::MAX,
        0 < total <= u64::MAX,
    ensures
        range_in("bytes="@ + (dec(s).push('-') + dec(e)), total) == (if s <= e && s < total {
            Some(
                (
                    s,
                    if e < total {
                        e
                    } else {
                        (total - 1) as nat
                    },
                ),
            )
        } else {
            None
        }),
        range_in("bytes="@ + dec(s).push('-'), total) == (if s < total {
            Some((s, (total - 1) as nat))
        } else {
            None
        }),
        0 < s <= total ==> range_in("bytes="@ + (seq!['-'] + dec(s)), total) == Some(
            ((total - s) as nat, (total - 1) as nat),
        ),
        s > total ==> range_in("bytes="@ + (seq!['-'] + dec(s)), total) == Some(
            (0nat, (total - 1) as nat),
        ),
{
    numerals_read_back(s, u64::MAX as nat);
    numerals_read_back(e, u64::MAX as nat);
    crate::json_writer::dec_is_digits(s);
    crate::json_writer::dec_is_digits(e);
    let none = Seq::<char>::empty();
    range_parts(dec(s), dec(e));
    range_parts(dec(s), none);
    range_parts(none, dec(s));
    assert(dec(s).push('-') + none =~= dec(s).push('-'));
    assert(none.push('-') + dec(s) =~= seq!['-'] + dec(s));
}

/// What follows a response's head is what the head says: with a range that can be served exactly its
/// bytes, without one the whole file, with one that cannot be served nothing. Asking for the head alone
/// gives the same head and no bytes.
pub proof fn the_body_is_what_was_asked(
    total: nat,
    content_type: Seq<char>,
    extra: Seq<char>,
    range: Option<Seq<char>>,
    method: Seq<char>,
)
    requires
        method != "HEAD"@,
    ensures
        ({
            let sent = file_sent(total, content_type, extra, range, method);
            let head = file_sent(total, content_type, extra, range, "HEAD"@);
            &&& head.0 == sent.0
            &&& head.1 is None
            &&& range is None && total > 0 ==> sent.1 == Some((0nat, total))
            &&& total == 0 ==> sent.1 is None
            &&& match range {
                Some(h) => match range_in(h, total) {
                    Some((s, e)) => s <= e < total && sent.1 == Some((s, (e - s + 1) as nat)),
                    None => sent.1 is None && sent.0 == unsatisfiable_response(total),
                },
                None => true,
            }
            &&& match sent.1 {
                Some((start, len)) => start + len <= total && len > 0 && (exists|
                    p: Seq<char>,
                    q: Seq<char>,
                |
                    sent.0 == #[trigger] p.add("Content-Length: "@ + dec(len) + "\r\n"@).add(q)),
                None => true,
            }
        }),
{
    let sent = file_sent(total, content_type, extra, range, method);
    let asked = match range {
        Some(h) => range_in(h, total),
        None => None,
    };
    if !(range is Some && asked is None) {
        let len = match asked {
            Some((s, e)) => (e - s + 1) as nat,
            None => total,
        };
        let status = if asked is Some {
            "HTTP/1.1 206 Partial Content\r\n"@
        } else {
            "HTTP/1.1 200 OK\r\n"@
        };
        reveal_strlit("\r\nContent-Length: ");
        reveal_strlit("Content-Length: ");
        reveal_strlit("\r\nAccept-Ranges: bytes\r\n");
        reveal_strlit("\r\n");
        let crlf = "\r\n"@;
        let p = status + "Content-Type: "@ + content_type + crlf;
        let rest = "\r\nAccept-Ranges: bytes\r\n"@.skip(2) + extra + (match asked {
            Some((s, e)) => "Content-Range: bytes "@ + dec(s) + "-"@ + dec(e) + "/"@ + dec(total)
                + "\r\n"@,
            None => Seq::empty(),
        }) + "Connection: close\r\n\r\n"@;
        assert("\r\nContent-Length: "@ =~= crlf + "Content-Length: "@);
        assert("\r\nAccept-Ranges: bytes\r\n"@ =~= crlf + "\r\nAccept-Ranges: bytes\r\n"@.skip(2));
        assert(sent.0 =~= p.add("Content-Length: "@ + dec(len) + "\r\n"@).add(rest));
    }
}

/// The byte of a hexadecimal digit.
pub open spec fn digit_byte(d: int) -> u8 {
    if d < 10 {
        (48 + d) as u8
    } else {
        (55 + d) as u8
    }
}

/// The bytes with every one of them escaped.
pub open spec fn escaped(b: Seq<u8>) -> Seq<u8>
    decreases b.len(),
{
    if b.len() == 0 {
        Seq::empty()
    } else {
        seq![37u8, digit_byte(b[0] as int / 16), digit_byte(b[0] as int % 16)] + escaped(b.skip(1))
    }
}

/// Whatever bytes are escaped, decoding gives them back; and a byte that is no percent sign decodes to
/// itself.
pub proof fn escapes_decode(b: Seq<u8>, c: u8, rest: Seq<u8>)
    ensures
        unescaped(escaped(b)) == b,
        c != 37 ==> unescaped(seq![c] + rest) == seq![c] + unescaped(rest),
    decreases b.len(),
{
    assert((seq![c] + rest).skip(1) =~= rest);
    if b.len() > 0 {
        let h = b[0] as int / 16;
        let l = b[0] as int % 16;
        let tail = escaped(b.skip(1));
        let e = escaped(b);
        escapes_decode(b.skip(1), c, rest);
        assert(e.len() >= 3 && e[0] == 37 && e[1] == digit_byte(h) && e[2] == digit_byte(l));
        assert(hex_byte(digit_byte(h)) == Some(h as u8));
        assert(hex_byte(digit_byte(l)) == Some(l as u8));
        assert(escaped_byte(e[1], e[2]) == Some(b[0]));
        assert(e.skip(3) =~= tail);
        assert(unescaped(e) =~= b);
    }
}

/// Lower-case hexadecimal digits are worth as much as upper-case ones, and no other byte is a digit.
pub proof fn hexadecimal_case_is_free(b: u8)
    ensures
        97 <= b <= 102 ==> hex_byte(b) == hex_byte((b - 32) as u8),
        48 <= b <= 57 ==> hex_byte(b) == Some((b - 48) as u8),
        hex_byte(b) is Some ==> hex_byte(b)->0 < 16,
        hex_byte(b) is Some <==> (48 <= b <= 57 || 65 <= b <= 70 || 97 <= b <= 102),
{
}

/// A header is found by its name in lower case, however it was written and whatever blanks stand
/// around its value; of several the last counts, and other headers have no say.
pub proof fn headers_are_found_by_name(
    rows: Seq<Seq<char>>,
    name: Seq<char>,
    value: Seq<char>,
    other: Seq<char>,
)
    requires
        !name.contains(':'),
    ensures
        header_value(
            headers_of(rows.push(name.push(':') + value)),
            lower(trim(name)),
        ) == Some(trim(value)),
        other != lower(trim(name)) ==> header_value(
            headers_of(rows.push(name.push(':') + value)),
            other,
        ) == header_value(headers_of(rows), other),
        header_value(Seq::empty(), other) is None,
{
    splits_at_the_first(name, value, ':');
    let line = name.push(':') + value;
    assert(rows.push(line).drop_last() =~= rows);
    let h = headers_of(rows);
    assert(header_of(line) == Some((lower(trim(name)), trim(value))));
    let all = h.push((lower(trim(name)), trim(value)));
    assert(all.drop_last() =~= h);
}

proof fn params_shift(a: Seq<char>, pairs: Seq<Seq<char>>, key: Seq<char>, i: int)
    requires
        0 <= i <= pairs.len(),
    ensures
        param_from(seq![a] + pairs, key, i + 1) == param_from(pairs, key, i),
    decreases pairs.len() - i,
{
    if i < pairs.len() {
        params_shift(a, pairs, key, i + 1);
        assert((seq![a] + pairs)[i + 1] == pairs[i]);
    }
}

/// The first parameter of a name gives its value, decoded; a parameter of another name is passed over.
pub proof fn parameters_are_found_by_name(
    key: Seq<char>,
    value: Seq<char>,
    wanted: Seq<char>,
    rest: Seq<char>,
)
    requires
        !key.contains('='),
        !key.contains('&'),
        !value.contains('&'),
    ensures
        key == wanted ==> param_from(
            split((key.push('=') + value).push('&') + rest, '&'),
            wanted,
            0,
        ) == Some(percent_decoded(value)),
        key == wanted ==> param_from(split(key.push('=') + value, '&'), wanted, 0) == Some(
            percent_decoded(value),
        ),
        key != wanted ==> param_from(
            split((key.push('=') + value).push('&') + rest, '&'),
            wanted,
            0,
        ) == param_from(split(rest, '&'), wanted, 0),
        key != wanted ==> param_from(split(key.push('=') + value, '&'), wanted, 0) is None,
{
    let one = key.push('=') + value;
    splits_at_the_first(key, value, '=');
    if one.contains('&') {
        let i = choose|i: int| 0 <= i < one.len() && one[i] == '&';
        if i < key.len() {
            assert(key[i] == '&');
        } else if i > key.len() {
            assert(value[i - key.len() - 1] == '&');
        }
    }
    splits_at_the_first(one, rest, '&');
    pieces_go_on(one, rest, '&');
    let pairs = seq![one] + split(rest, '&');
    assert(split(one.push('&') + rest, '&') == pairs);
    params_shift(one, split(rest, '&'), wanted, 0);
    assert(pairs[0] == one);
    assert(param_from(seq![one], wanted, 1) is None);
}

proof fn first_row(line: Seq<char>, rest: Seq<char>, i: int)
    requires
        !line.contains('\r'),
        0 <= i <= line.len(),
    ensures
        crlf_from(line + seq!['\r', '\n'] + rest, i) == line.len(),
    decreases line.len() - i,
{
    let s = line + seq!['\r', '\n'] + rest;
    if i < line.len() {
        assert(s[i] == line[i]);
        assert(line.contains(line[i]));
        first_row(line, rest, i + 1);
    } else {
        assert(s[i] == '\r' && s[i + 1] == '\n');
    }
}

/// A request asks with the method that its first line begins with, for the path up to the question
/// mark, with the query after it; what else the block holds makes up the headers.
pub proof fn the_first_line_asks(
    method: Seq<char>,
    path: Seq<char>,
    query: Seq<char>,
    version: Seq<char>,
    rest: Seq<char>,
)
    requires
        !method.contains(' ') && !path.contains(' ') && !query.contains(' '),
        !method.contains('\r') && !path.contains('\r') && !query.contains('\r'),
        !version.contains('\r'),
        !path.contains('?'),
    ensures
        ({
            let line = method.push(' ') + ((path.push('?') + query).push(' ') + version);
            request_in(line + seq!['\r', '\n'] + rest) == Some(
                Request {
                    method,
                    path: percent_decoded(path),
                    query,
                    headers: headers_of(header_lines(rest)),
                },
            )
        }),
        ({
            let line = method.push(' ') + (path.push(' ') + version);
            request_in(line + seq!['\r', '\n'] + rest) == Some(
                Request {
                    method,
                    path: percent_decoded(path),
                    query: Seq::empty(),
                    headers: headers_of(header_lines(rest)),
                },
            )
        }),
{
    let target = path.push('?') + query;
    a_line_asks(method, target, version, rest);
    a_line_asks(method, path, version, rest);
    assert(!target.contains(' ')) by {
        if target.contains(' ') {
            let i = choose|i: int| 0 <= i < target.len() && target[i] == ' ';
            if i < path.len() {
                assert(path[i] == ' ');
            } else if i > path.len() {
                assert(query[i - path.len() - 1] == ' ');
            }
        }
    }
    assert(!target.contains('\r')) by {
        if target.contains('\r') {
            let i = choose|i: int| 0 <= i < target.len() && target[i] == '\r';
            if i < path.len() {
                assert(path[i] == '\r');
            } else if i > path.len() {
                assert(query[i - path.len() - 1] == '\r');
            }
        }
    }
    splits_at_the_first(path, query, '?');
}

proof fn a_line_asks(
    method: Seq<char>,
    target: Seq<char>,
    version: Seq<char>,
    rest: Seq<char>,
)
    ensures
        !method.contains(' ') && !target.contains(' ') && !method.contains('\r') && !target.contains(
            '\r',
        ) && !version.contains('\r') ==> ({
            let line = method.push(' ') + (target.push(' ') + version);
            let text = line + seq!['\r', '\n'] + rest;
            let rows = header_lines(text);
            &&& rows.len() > 0
            &&& split(rows[0], ' ').len() >= 3
            &&& split(rows[0], ' ')[0] == method
            &&& split(rows[0], ' ')[1] == target
            &&& rows.skip(1) == header_lines(rest)
        }),
{
    if !method.contains(' ') && !target.contains(' ') && !method.contains('\r') && !target.contains(
        '\r',
    ) && !version.contains('\r') {
        let line = method.push(' ') + (target.push(' ') + version);
        let text = line + seq!['\r', '\n'] + rest;
        assert(!line.contains('\r')) by {
            if line.contains('\r') {
                let i = choose|i: int| 0 <= i < line.len() && line[i] == '\r';
                let m = method.len();
                let t = target.len();
                if i < m {
                    assert(method[i] == '\r');
                } else if m < i < m + 1 + t {
                    assert(target[i - m - 1] == '\r');
                } else if i > m + 1 + t {
                    assert(version[i - m - t - 2] == '\r');
                }
            }
        }
        first_row(line, rest, 0);
        assert(text.take(line.len() as int) =~= line);
        assert(text.skip(line.len() as int + 2) =~= rest);
        let rows = header_lines(text);
        assert(rows == seq![line] + header_lines(rest));
        assert(rows.skip(1) =~= header_lines(rest));
        pieces_go_on(method, target.push(' ') + version, ' ');
        pieces_go_on(target, version, ' ');
        splits_at_the_first(method, version, ' ');
        splits_at_the_first(target, version, ' ');
        crate::text::pieces_join_back(version, ' ');
        assert(split(line, ' ') =~= seq![method, target] + split(version, ' '));
    }
}

/// A file's media type goes by the container that it was recognised as, whatever its extension says;
/// containers of different families have different types; and where no container decides, the letter
/// case of the extension does not either.
pub proof fn media_types_go_by_container(
    a: Container,
    b: Container,
    e: Option<Seq<char>>,
    f: Option<Seq<char>>,
    x: Seq<char>,
)
    ensures
        media_type(Some(a), None) != "application/octet-stream"@ ==> media_type(Some(a), e)
            == media_type(Some(a), f),
        media_type(Some(a), None) != "application/octet-stream"@ && media_type(Some(a), e)
            == media_type(Some(b), None) ==> a == b || ((a == Container::Mp4 || a
            == Container::FragmentedMp4) && (b == Container::Mp4 || b == Container::FragmentedMp4)),
        media_type(None, Some(x)) == media_type(None, Some(crate::text::upper(x))),
        media_type(None, None) == "application/octet-stream"@,
{
    crate::text::lower_case_folds_letters(x);
    reveal_strlit("video/x-matroska");
    reveal_strlit("video/webm");
    reveal_strlit("video/mp4");
    reveal_strlit("video/mp2t");
    reveal_strlit("video/mpeg");
    reveal_strlit("video/x-msvideo");
    reveal_strlit("video/x-ms-asf");
    reveal_strlit("video/x-flv");
    reveal_strlit("video/ogg");
    reveal_strlit("application/octet-stream");
    assert("video/x-matroska"@.len() == 16 && "video/webm"@.len() == 10 && "video/mp4"@.len() == 9);
    assert("video/mp2t"@.len() == 10 && "video/mpeg"@.len() == 10 && "video/x-msvideo"@.len() == 15);
    assert("video/x-ms-asf"@.len() == 14 && "video/x-flv"@.len() == 11 && "video/ogg"@.len() == 9);
    assert("application/octet-stream"@.len() == 24);
    assert("video/webm"@[6] == 'w' && "video/mp2t"@[6] == 'm' && "video/mpeg"@[6] == 'm');
    assert("video/mp2t"@[8] == '2' && "video/mpeg"@[8] == 'e');
    assert("video/mp4"@[6] == 'm' && "video/ogg"@[6] == 'o');
}

/// The length of a body is what its header says in digits, and none where the header says nothing.
pub proof fn bodies_are_as_long_as_said(req: Request, n: nat)
    requires
        n <= u64::MAX,
    ensures
        header_value(req.headers, "content-length"@) == Some(dec(n)) ==> body_length(req) == n,
        header_value(req.headers, "content-length"@) is None ==> body_length(req) == 0,
{
    numerals_read_back(n, u64::MAX as nat);
}

/// A refusal begins with its status, says how many bytes follow, and ends in the reason after an empty
/// line; a whole body is announced with its type and its length.
pub proof fn responses_say_what_follows(code: nat, reason: Seq<char>, kind: Seq<char>, len: nat)
    ensures
        ("HTTP/1.1 "@ + dec(code) + " "@ + reason + "\r\n"@).is_prefix_of(
            error_response(code, reason),
        ),
        (dec(encode_utf8(reason).len()) + "\r\nConnection: close\r\n\r\n"@
            + reason).is_suffix_of(error_response(code, reason)),
        ("HTTP/1.1 200 OK\r\nContent-Type: "@ + kind + "\r\nContent-Length: "@ + dec(len)
            + "\r\n"@).is_prefix_of(ok_head(kind, len)),
        "\r\n\r\n"@.is_suffix_of(ok_head(kind, len)),
{
    reveal_strlit("\r\n");
    reveal_strlit("\r\n\r\n");
    reveal_strlit("\r\nContent-Type: text/plain\r\nContent-Length: ");
    reveal_strlit("\r\nConnection: close\r\n\r\n");
    let r = error_response(code, reason);
    let head = "HTTP/1.1 "@ + dec(code) + " "@ + reason + "\r\n"@;
    assert(r.subrange(0, head.len() as int) =~= head);
    let tail = dec(encode_utf8(reason).len()) + "\r\nConnection: close\r\n\r\n"@ + reason;
    assert(r.subrange(r.len() - tail.len(), r.len() as int) =~= tail);
    let o = ok_head(kind, len);
    let begun = "HTTP/1.1 200 OK\r\nContent-Type: "@ + kind + "\r\nContent-Length: "@ + dec(len)
        + "\r\n"@;
    assert(o.subrange(0, begun.len() as int) =~= begun);
    assert(o.subrange(o.len() - 4, o.len() as int) =~= "\r\n\r\n"@);
}

/// A part of a file is announced as a part, with its first and its last byte and how many there are in
/// all; a whole file is not. Either way the type and the length are there, and what the caller adds.
pub proof fn parts_are_announced(
    kind: Seq<char>,
    extra: Seq<char>,
    len: nat,
    s: nat,
    e: nat,
    total: nat,
)
    ensures
        ("HTTP/1.1 206 Partial Content\r\nContent-Type: "@ + kind + "\r\nContent-Length: "@ + dec(
            len,
        ) + "\r\n"@).is_prefix_of(file_head(kind, extra, len, Some((s, e)), total)),
        (extra + "Content-Range: bytes "@ + dec(s) + "-"@ + dec(e) + "/"@ + dec(total)
            + "\r\nConnection: close\r\n\r\n"@).is_suffix_of(
            file_head(kind, extra, len, Some((s, e)), total),
        ),
        ("HTTP/1.1 200 OK\r\nContent-Type: "@ + kind + "\r\nContent-Length: "@ + dec(len)
            + "\r\n"@).is_prefix_of(file_head(kind, extra, len, None, total)),
        (extra + "Connection: close\r\n\r\n"@).is_suffix_of(
            file_head(kind, extra, len, None, total),
        ),
{
    reveal_strlit("HTTP/1.1 206 Partial Content\r\n");
    reveal_strlit("HTTP/1.1 200 OK\r\n");
    reveal_strlit("Content-Type: ");
    reveal_strlit("HTTP/1.1 206 Partial Content\r\nContent-Type: ");
    reveal_strlit("HTTP/1.1 200 OK\r\nContent-Type: ");
    reveal_strlit("\r\n");
    reveal_strlit("Connection: close\r\n\r\n");
    reveal_strlit("\r\nConnection: close\r\n\r\n");
    reveal_strlit("\r\nAccept-Ranges: bytes\r\n");
    assert("HTTP/1.1 206 Partial Content\r\n"@ + "Content-Type: "@
        =~= "HTTP/1.1 206 Partial Content\r\nContent-Type: "@);
    assert("HTTP/1.1 200 OK\r\n"@ + "Content-Type: "@ =~= "HTTP/1.1 200 OK\r\nContent-Type: "@);
    assert("\r\n"@ + "Connection: close\r\n\r\n"@ =~= "\r\nConnection: close\r\n\r\n"@);
    let part = file_head(kind, extra, len, Some((s, e)), total);
    let whole = file_head(kind, extra, len, None, total);
    let a = "HTTP/1.1 206 Partial Content\r\nContent-Type: "@ + kind + "\r\nContent-Length: "@ + dec(
        len,
    ) + "\r\n"@;
    assert(part.subrange(0, a.len() as int) =~= a);
    let b = extra + "Content-Range: bytes "@ + dec(s) + "-"@ + dec(e) + "/"@ + dec(total)
        + "\r\nConnection: close\r\n\r\n"@;
    assert(part.subrange(part.len() - b.len(), part.len() as int) =~= b);
    let c = "HTTP/1.1 200 OK\r\nContent-Type: "@ + kind + "\r\nContent-Length: "@ + dec(len)
        + "\r\n"@;
    assert(whole.subrange(0, c.len() as int) =~= c);
    let d = extra + "Connection: close\r\n\r\n"@;
    assert(whole.subrange(whole.len() - d.len(), whole.len() as int) =~= d);
}

/// Sound files that no container was recognised in go by their extension, letter case aside.
pub proof fn sound_goes_by_extension(e: Seq<char>)
    ensures
        lower(e) == "mp3"@ ==> media_type(None, Some(e)) == "audio/mpeg"@,
        lower(e) == "flac"@ ==> media_type(None, Some(e)) == "audio/flac"@,
        lower(e) == "aac"@ ==> media_type(None, Some(e)) == "audio/aac"@,
        lower(e) == "wav"@ ==> media_type(None, Some(e)) == "audio/wav"@,
        lower(e) == "m4a"@ ==> media_type(None, Some(e)) == "audio/mp4"@,
        media_type(Some(Container::Matroska), Some(e)) == "video/x-matroska"@,
        media_type(Some(Container::Mp4), Some(e)) == "video/mp4"@,
        media_type(Some(Container::WebM), Some(e)) == "video/webm"@,
        media_type(Some(Container::MpegTs), Some(e)) == "video/mp2t"@,
{
    reveal_strlit("mp3");
    reveal_strlit("flac");
    reveal_strlit("aac");
    reveal_strlit("wav");
    reveal_strlit("m4a");
    assert("mp3"@.len() == 3 && "mp3"@[0] == 'm' && "mp3"@[1] == 'p');
    assert("flac"@.len() == 4);
    assert("aac"@.len() == 3 && "aac"@[0] == 'a');
    assert("wav"@.len() == 3 && "wav"@[0] == 'w');
    assert("m4a"@.len() == 3 && "m4a"@[0] == 'm' && "m4a"@[1] == '4');
}

/// A connection begins a request exactly where its first bytes are `GET ` or `HEAD `, whatever follows;
/// the end of the headers is where it is whatever comes after it.
pub proof fn the_first_bytes_decide(b: Seq<u8>, more: Seq<u8>, i: int)
    ensures
        begins_request(b) <==> (b.len() >= 4 && b[0] == 71 && b[1] == 69 && b[2] == 84 && b[3] == 32)
            || (b.len() >= 5 && b[0] == 72 && b[1] == 69 && b[2] == 65 && b[3] == 68 && b[4] == 32),
        begins_request(b) ==> begins_request(b + more),
        blank_line_at(b, i) ==> blank_line_at(b + more, i),
        blank_line_at(b + seq![13u8, 10u8, 13u8, 10u8] + more, b.len() as int),
        !blank_line_at(b, i) && i + 4 <= b.len() ==> !blank_line_at(b + more, i),
{
    first_bytes(b);
    first_bytes(b + more);
}

proof fn first_bytes(b: Seq<u8>)
    ensures
        begins_request(b) <==> (b.len() >= 4 && b[0] == 71 && b[1] == 69 && b[2] == 84 && b[3] == 32)
            || (b.len() >= 5 && b[0] == 72 && b[1] == 69 && b[2] == 65 && b[3] == 68 && b[4] == 32),
{
    let g = seq![71u8, 69u8, 84u8, 32u8];
    let h = seq![72u8, 69u8, 65u8, 68u8, 32u8];
    if b.len() >= 4 && b[0] == 71 && b[1] == 69 && b[2] == 84 && b[3] == 32 {
        assert(g =~= b.subrange(0, 4));
    }
    if b.len() >= 5 && b[0] == 72 && b[1] == 69 && b[2] == 65 && b[3] == 68 && b[4] == 32 {
        assert(h =~= b.subrange(0, 5));
    }
    if g.is_prefix_of(b) {
        assert(forall|i: int| 0 <= i < 4 ==> b[i] == b.subrange(0, 4)[i]);
        assert(b.subrange(0, 4)[0] == g[0] && b.subrange(0, 4)[1] == g[1]);
        assert(b.subrange(0, 4)[2] == g[2] && b.subrange(0, 4)[3] == g[3]);
    }
    if h.is_prefix_of(b) {
        assert(forall|i: int| 0 <= i < 5 ==> b[i] == b.subrange(0, 5)[i]);
        assert(b.subrange(0, 5)[0] == h[0] && b.subrange(0, 5)[1] == h[1]);
        assert(b.subrange(0, 5)[2] == h[2] && b.subrange(0, 5)[3] == h[3]);
        assert(b.subrange(0, 5)[4] == h[4]);
    }
}

} // verus!
