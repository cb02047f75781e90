//! JSON laid out over lines: one member or element on each, indented.
use vstd::prelude::*;
use vstd::string::*;

use crate::json::{
    elements_at,
    is_blank,
    members_at,
    quote,
    quoted,
    quoted_text_reads_back,
    skip_blanks,
    string_at,
    value_at,
    Json,
    MAX_DEPTH,
};
use crate::json_writer::{closing_is_no_value, pairs_view, read_here, reads_as, stops, with_members};
use crate::text::{owned, views};

verus! {

/// The texts from the `k`-th on, each on a line of its own, with commas between them.
pub open spec fn lines_from(parts: Seq<Seq<char>>, indent: Seq<char>, k: int) -> Seq<char>
    decreases parts.len() - k,
{
    if k < 0 || k >= parts.len() {
        Seq::empty()
    } else if k == parts.len() - 1 {
        indent + parts[k]
    } else {
        indent + parts[k] + ",\n"@ + lines_from(parts, indent, k + 1)
    }
}

/// A member of an object: its quoted name, a colon and a space, its value's text.
pub open spec fn laid_member(m: (Seq<char>, Seq<char>)) -> Seq<char> {
    quoted(m.0) + ": "@ + m.1
}

/// The texts of the members.
pub open spec fn laid_members(m: Seq<(Seq<char>, Seq<char>)>) -> Seq<Seq<char>> {
    Seq::new(m.len(), |i: int| laid_member(m[i]))
}

/// An object over lines: its members indented by `indent`, its end by `outer`.
#[verifier::opaque]
pub open spec fn laid_object(
    m: Seq<(Seq<char>, Seq<char>)>,
    indent: Seq<char>,
    outer: Seq<char>,
) -> Seq<char> {
    "{\n"@ + lines_from(laid_members(m), indent, 0) + "\n"@ + outer + "}"@
}

/// An array over lines: its elements indented by `indent`, its end by `outer`.
#[verifier::opaque]
pub open spec fn laid_array(
    parts: Seq<Seq<char>>,
    indent: Seq<char>,
    outer: Seq<char>,
) -> Seq<char> {
    "[\n"@ + lines_from(parts, indent, 0) + "\n"@ + outer + "]"@
}

fn lines_list(parts: &Vec<String>, indent: &str) -> (r: String)
    ensures
        r@ == lines_from(views(parts@), indent@, 0),
{
    let mut out = String::new();
    let mut k: usize = 0;
    let ghost all = views(parts@);
    assert(out@ + lines_from(all, indent@, 0) =~= lines_from(all, indent@, 0));
    while k < parts.len()
        invariant
            k <= parts@.len(),
            all == views(parts@),
            out@ + lines_from(all, indent@, k as int) == lines_from(all, indent@, 0),
        decreases parts@.len() - k,
    {
        let ghost known = out@;
        out.append(indent);
        out.append(parts[k].as_str());
        if k + 1 < parts.len() {
            out.append(",\n");
        }
        assert(out@ + lines_from(all, indent@, k + 1) =~= known + lines_from(
            all,
            indent@,
            k as int,
        ));
        k += 1;
    }
    assert(out@ + lines_from(all, indent@, k as int) =~= out@);
    out
}

/// An array over lines, from the texts of its elements.
pub fn lay_array(parts: &Vec<String>, indent: &str, outer: &str) -> (r: String)
    ensures
        r@ == laid_array(views(parts@), indent@, outer@),
{
    proof {
        reveal(laid_array);
    }
    let mut out = owned("[\n");
    out.append(lines_list(parts, indent).as_str());
    out.append("\n");
    out.append(outer);
    out.append("]");
    out
}

/// An object over lines, from the names and value texts of its members.
pub fn lay_object(m: &Vec<(&str, String)>, indent: &str, outer: &str) -> (r: String)
    ensures
        r@ == laid_object(pairs_view(m@), indent@, outer@),
{
    proof {
        reveal(laid_object);
    }
    let mut parts: Vec<String> = Vec::new();
    let mut k: usize = 0;
    while k < m.len()
        invariant
            k <= m@.len(),
            parts@.len() == k,
            forall|i: int| 0 <= i < k ==> (#[trigger] parts@[i])@ == laid_member(pairs_view(m@)[i]),
        decreases m@.len() - k,
    {
        let mut part = quote(m[k].0);
        part.append(": ");
        part.append(m[k].1.as_str());
        assert(part@ == laid_member(pairs_view(m@)[k as int]));
        parts.push(part);
        k += 1;
    }
    assert(views(parts@) =~= laid_members(pairs_view(m@)));
    let mut out = owned("{\n");
    out.append(lines_list(&parts, indent).as_str());
    out.append("\n");
    out.append(outer);
    out.append("}");
    out
}

/// Whether a text is white space alone.
pub open spec fn blanks(s: Seq<char>) -> bool {
    forall|i: int| 0 <= i < s.len() ==> is_blank(#[trigger] s[i])
}

proof fn skip_over(b: Seq<char>, w: Seq<char>, a: Seq<char>)
    requires
        blanks(w),
        a.len() > 0,
        !is_blank(a[0]),
    ensures
        skip_blanks(b + w + a, b.len() as int) == b.len() + w.len(),
        (b + w + a)[(b.len() + w.len()) as int] == a[0],
    decreases w.len(),
{
    let s = b + w + a;
    if w.len() == 0 {
        assert(s[b.len() as int] == a[0]);
    } else {
        assert(s[b.len() as int] == w[0]);
        assert(is_blank(w[0]));
        let b2 = b.push(w[0]);
        let w2 = w.skip(1);
        assert forall|i: int| 0 <= i < w2.len() implies is_blank(#[trigger] w2[i]) by {
            assert(w2[i] == w[i + 1]);
        }
        skip_over(b2, w2, a);
        assert(b2 + w2 + a =~= s);
    }
}

proof fn member_step(
    s: Seq<char>,
    i: int,
    at: int,
    depth: int,
    acc: Map<Seq<char>, Json>,
    key: Seq<char>,
    colon: int,
    begin: int,
    val: Json,
    j: int,
    end: int,
)
    requires
        skip_blanks(s, i) == at,
        0 <= i,
        i < end < s.len(),
        string_at(s, at) == Ok::<(Seq<char>, int), Seq<char>>((key, colon)),
        0 <= colon < s.len(),
        s[colon] == ':',
        skip_blanks(s, colon + 1) == begin,
        value_at(s, begin, depth) == Ok::<(Json, int), Seq<char>>((val, j)),
        skip_blanks(s, j) == end,
        s[end] == ',' || s[end] == '}',
    ensures
        s[end] == ',' ==> members_at(s, i, depth, acc) == members_at(
            s,
            end + 1,
            depth,
            acc.insert(key, val),
        ),
        s[end] == '}' ==> members_at(s, i, depth, acc) == Ok::<(Json, int), Seq<char>>(
            (Json::Object(acc.insert(key, val)), end + 1),
        ),
{
    reveal(members_at);
    reveal(value_at);
    assert(skip_blanks(s, colon) == colon);
}

proof fn element_step(
    s: Seq<char>,
    i: int,
    at: int,
    depth: int,
    acc: Seq<Json>,
    val: Json,
    j: int,
    end: int,
)
    requires
        skip_blanks(s, i) == at,
        0 <= i,
        i < end < s.len(),
        value_at(s, at, depth) == Ok::<(Json, int), Seq<char>>((val, j)),
        skip_blanks(s, j) == end,
        s[end] == ',' || s[end] == ']',
    ensures
        s[end] == ',' ==> elements_at(s, i, depth, acc) == elements_at(
            s,
            end + 1,
            depth,
            acc.push(val),
        ),
        s[end] == ']' ==> elements_at(s, i, depth, acc) == Ok::<(Json, int), Seq<char>>(
            (Json::Array(acc.push(val)), end + 1),
        ),
{
    reveal(elements_at);
    reveal(value_at);
}

/// One member with white space before it and behind it, read in place.
proof fn member_reads_here(
    b: Seq<char>,
    before: Seq<char>,
    key: Seq<char>,
    t: Seq<char>,
    val: Json,
    h: int,
    behind: Seq<char>,
    tail: Seq<char>,
    depth: int,
    acc: Map<Seq<char>, Json>,
)
    requires
        reads_as(t, val, h),
        0 <= depth,
        depth + h <= MAX_DEPTH,
        blanks(before),
        blanks(behind),
        tail.len() > 0,
        tail[0] == ',' || tail[0] == '}',
    ensures
        ({
            let s = b + before + laid_member((key, t)) + behind + tail;
            let end = (b.len() + before.len() + laid_member((key, t)).len() + behind.len()) as int;
            &&& tail[0] == ',' ==> members_at(s, b.len() as int, depth, acc) == members_at(
                s,
                end + 1,
                depth,
                acc.insert(key, val),
            )
            &&& tail[0] == '}' ==> members_at(s, b.len() as int, depth, acc) == Ok::<
                (Json, int),
                Seq<char>,
            >((Json::Object(acc.insert(key, val)), end + 1))
        }),
{
    reveal_strlit(": ");
    let q = quoted(key);
    let s = b + before + laid_member((key, t)) + behind + tail;
    assert(q.len() > 0 && q[0] == '"');
    let b1 = b + before;
    let rest1 = ": "@ + t + behind + tail;
    assert(s =~= b + before + (q + rest1));
    skip_over(b, before, q + rest1);
    assert(s =~= b1 + q + rest1);
    quoted_text_reads_back(b1, key, rest1);
    let colon = (b1.len() + q.len()) as int;
    assert(s[colon] == rest1[0]);
    assert(rest1[0] == ':');
    let b2 = b1 + q + seq![':'];
    let a2 = behind + tail;
    let space = seq![' '];
    assert(stops(a2)) by {
        if behind.len() > 0 {
            assert(is_blank(behind[0]));
            assert(a2[0] == behind[0]);
        } else {
            assert(a2[0] == tail[0]);
        }
    }
    let b3 = b2 + space;
    read_here(t, val, h, b3, a2, depth);
    assert(s =~= b2 + space + (t + a2));
    assert(s =~= b3 + t + a2);
    skip_over(b2, space, t + a2);
    let b4 = b3 + t;
    assert(s =~= b4 + behind + tail);
    skip_over(b4, behind, tail);
    let end = (b4.len() + behind.len()) as int;
    assert(end == b.len() + before.len() + laid_member((key, t)).len() + behind.len());
    member_step(
        s,
        b.len() as int,
        b1.len() as int,
        depth,
        acc,
        key,
        colon,
        b3.len() as int,
        val,
        b4.len() as int,
        end,
    );
}

/// What follows the `k`-th text, up to the end of the object or array.
spec fn rest_after(
    parts: Seq<Seq<char>>,
    indent: Seq<char>,
    outer: Seq<char>,
    k: int,
    close: Seq<char>,
) -> Seq<char> {
    if k >= parts.len() - 1 {
        "\n"@ + outer + close
    } else {
        ",\n"@ + lines_from(parts, indent, k + 1) + "\n"@ + outer + close
    }
}

proof fn newline_and(w: Seq<char>)
    requires
        blanks(w),
    ensures
        blanks("\n"@ + w),
        "\n"@.len() == 1,
        "\n"@[0] == '\n',
{
    reveal_strlit("\n");
    let t = "\n"@ + w;
    assert forall|i: int| 0 <= i < t.len() implies is_blank(#[trigger] t[i]) by {
        if i > 0 {
            assert(t[i] == w[i - 1]);
        }
    }
}

/// The text after an element, split at the next one.
proof fn rest_layout(
    parts: Seq<Seq<char>>,
    indent: Seq<char>,
    outer: Seq<char>,
    k: int,
    close: Seq<char>,
)
    requires
        0 <= k < parts.len() - 1,
    ensures
        rest_after(parts, indent, outer, k, close) == seq![','] + ("\n"@ + indent) + parts[k + 1]
            + rest_after(parts, indent, outer, k + 1, close),
{
    reveal_strlit("\n");
    reveal_strlit(",\n");
    assert(rest_after(parts, indent, outer, k, close) =~= seq![','] + ("\n"@ + indent) + parts[k
        + 1] + rest_after(parts, indent, outer, k + 1, close));
}

proof fn reads_members(
    b: Seq<char>,
    lead: Seq<char>,
    m: Seq<(Seq<char>, Seq<char>)>,
    v: Seq<(Seq<char>, Json)>,
    indent: Seq<char>,
    outer: Seq<char>,
    k: int,
    a: Seq<char>,
    depth: int,
    h: int,
    acc: Map<Seq<char>, Json>,
)
    requires
        0 <= k < m.len(),
        m.len() == v.len(),
        forall|i: int|
            0 <= i < m.len() ==> (#[trigger] m[i]).0 == v[i].0 && reads_as(m[i].1, v[i].1, h),
        0 <= depth,
        depth + h <= MAX_DEPTH,
        blanks(lead),
        blanks(indent),
        blanks(outer),
    ensures
        ({
            let t = lead + laid_members(m)[k] + rest_after(laid_members(m), indent, outer, k, "}"@);
            members_at(b + t + a, b.len() as int, depth, acc) == Ok::<(Json, int), Seq<char>>(
                (Json::Object(with_members(acc, v, k)), (b.len() + t.len()) as int),
            )
        }),
    decreases m.len() - k,
{
    reveal_strlit("}");
    let key = m[k].0;
    let t = m[k].1;
    let val = v[k].1;
    let all = laid_members(m);
    let here = laid_member((key, t));
    let rest = rest_after(all, indent, outer, k, "}"@);
    let s = b + (lead + all[k] + rest) + a;
    assert(all[k] == here);
    assert(m[k].0 == v[k].0 && reads_as(m[k].1, v[k].1, h));
    if k == m.len() - 1 {
        let behind = "\n"@ + outer;
        newline_and(outer);
        member_reads_here(b, lead, key, t, val, h, behind, "}"@ + a, depth, acc);
        assert(s =~= b + lead + here + behind + ("}"@ + a));
        assert(with_members(acc, v, k) == with_members(acc.insert(key, val), v, k + 1));
    } else {
        let none = Seq::<char>::empty();
        rest_layout(all, indent, outer, k, "}"@);
        newline_and(indent);
        let next = ("\n"@ + indent) + all[k + 1] + rest_after(all, indent, outer, k + 1, "}"@);
        let tail = seq![','] + next + a;
        member_reads_here(b, lead, key, t, val, h, none, tail, depth, acc);
        assert(s =~= b + lead + here + none + tail);
        let b2 = b + lead + here + seq![','];
        reads_members(
            b2,
            "\n"@ + indent,
            m,
            v,
            indent,
            outer,
            k + 1,
            a,
            depth,
            h,
            acc.insert(key, val),
        );
        assert(s =~= b2 + next + a);
    }
}

proof fn reads_elements(
    b: Seq<char>,
    lead: Seq<char>,
    p: Seq<Seq<char>>,
    v: Seq<Json>,
    indent: Seq<char>,
    outer: Seq<char>,
    k: int,
    a: Seq<char>,
    depth: int,
    h: int,
    acc: Seq<Json>,
)
    requires
        0 <= k < p.len(),
        p.len() == v.len(),
        forall|i: int| 0 <= i < p.len() ==> reads_as(#[trigger] p[i], v[i], h),
        0 <= depth,
        depth + h <= MAX_DEPTH,
        blanks(lead),
        blanks(indent),
        blanks(outer),
    ensures
        ({
            let t = lead + p[k] + rest_after(p, indent, outer, k, "]"@);
            elements_at(b + t + a, b.len() as int, depth, acc) == Ok::<(Json, int), Seq<char>>(
                (Json::Array(acc + v.skip(k)), (b.len() + t.len()) as int),
            )
        }),
    decreases p.len() - k,
{
    reveal_strlit("]");
    let t = p[k];
    let rest = rest_after(p, indent, outer, k, "]"@);
    let s = b + (lead + t + rest) + a;
    assert(reads_as(p[k], v[k], h));
    let last = k == p.len() - 1;
    newline_and(outer);
    newline_and(indent);
    let next = ("\n"@ + indent) + p[k + 1] + rest_after(p, indent, outer, k + 1, "]"@);
    let behind = if last {
        "\n"@ + outer
    } else {
        Seq::empty()
    };
    let tail = if last {
        "]"@ + a
    } else {
        seq![','] + next + a
    };
    if !last {
        rest_layout(p, indent, outer, k, "]"@);
    }
    let after = behind + tail;
    assert(after =~= rest + a);
    assert(stops(after)) by {
        if last {
            assert(after[0] == '\n');
        } else {
            assert(after[0] == ',');
        }
    }
    let b1 = b + lead;
    read_here(t, v[k], h, b1, after, depth);
    assert(s =~= b1 + t + after);
    assert(s =~= b + lead + (t + after));
    skip_over(b, lead, t + after);
    let b2 = b1 + t;
    assert(s =~= b2 + behind + tail);
    skip_over(b2, behind, tail);
    let end = (b2.len() + behind.len()) as int;
    element_step(
        s,
        b.len() as int,
        b1.len() as int,
        depth,
        acc,
        v[k],
        b2.len() as int,
        end,
    );
    if last {
        assert(acc.push(v[k]) =~= acc + v.skip(k));
    } else {
        let b3 = b2 + seq![','];
        reads_elements(b3, "\n"@ + indent, p, v, indent, outer, k + 1, a, depth, h, acc.push(v[k]));
        assert(s =~= b3 + next + a);
        assert(acc.push(v[k]) + v.skip(k + 1) =~= acc + v.skip(k));
    }
}

proof fn object_opens(s: Seq<char>, i: int, k: int, depth: int)
    requires
        0 <= i < k < s.len(),
        s[i] == '{',
        skip_blanks(s, i + 1) == k,
        s[k] == '"',
        0 <= depth < MAX_DEPTH,
    ensures
        value_at(s, i, depth) == members_at(s, k, depth + 1, Map::empty()),
{
    reveal(value_at);
    reveal(members_at);
}

proof fn array_opens(s: Seq<char>, i: int, k: int, depth: int)
    requires
        0 <= i < k < s.len(),
        s[i] == '[',
        skip_blanks(s, i + 1) == k,
        0 <= depth < MAX_DEPTH,
    ensures
        s[k] != ']' ==> value_at(s, i, depth) == elements_at(s, k, depth + 1, Seq::empty()),
        s[k] == ']' ==> value_at(s, i, depth) == Ok::<(Json, int), Seq<char>>(
            (Json::Array(Seq::empty()), k + 1),
        ),
{
    reveal(value_at);
    reveal(elements_at);
}

/// What is laid out, as its first text with what stands before and behind it.
proof fn first_layout(
    parts: Seq<Seq<char>>,
    indent: Seq<char>,
    outer: Seq<char>,
    close: Seq<char>,
)
    requires
        parts.len() > 0,
    ensures
        lines_from(parts, indent, 0) + "\n"@ + outer + close == indent + parts[0] + rest_after(
            parts,
            indent,
            outer,
            0,
            close,
        ),
{
    assert(lines_from(parts, indent, 0) + "\n"@ + outer + close =~= indent + parts[0] + rest_after(
        parts,
        indent,
        outer,
        0,
        close,
    ));
}

/// An object laid out over lines, put together from members whose texts read as values, reads as
/// the object of those values.
pub proof fn reads_laid_object(
    m: Seq<(Seq<char>, Seq<char>)>,
    v: Seq<(Seq<char>, Json)>,
    indent: Seq<char>,
    outer: Seq<char>,
    h: int,
)
    requires
        0 < m.len(),
        m.len() == v.len(),
        forall|i: int|
            0 <= i < m.len() ==> (#[trigger] m[i]).0 == v[i].0 && reads_as(m[i].1, v[i].1, h),
        0 <= h,
        blanks(indent),
        blanks(outer),
    ensures
        reads_as(
            laid_object(m, indent, outer),
            Json::Object(with_members(Map::empty(), v, 0)),
            h + 1,
        ),
{
    reveal(laid_object);
    reveal_strlit("{\n");
    newline_and(indent);
    let t = laid_object(m, indent, outer);
    let all = laid_members(m);
    let lead = "\n"@ + indent;
    let none = Seq::<char>::empty();
    let inner = none + all[0] + rest_after(all, indent, outer, 0, "}"@);
    first_layout(all, indent, outer, "}"@);
    assert(t =~= seq!['{'] + lead + inner) by {
        assert(t =~= "{\n"@ + (lines_from(all, indent, 0) + "\n"@ + outer + "}"@));
    }
    let q = quoted(m[0].0);
    assert(q.len() > 0 && q[0] == '"');
    assert(all[0] == laid_member(m[0]));
    assert(inner[0] == q[0]);
    assert forall|b: Seq<char>, a: Seq<char>, d: int|
        0 <= d && d + (h + 1) <= MAX_DEPTH && stops(a) implies #[trigger] value_at(
        b + t + a,
        b.len() as int,
        d,
    ) == Ok::<(Json, int), Seq<char>>(
        (Json::Object(with_members(Map::empty(), v, 0)), (b.len() + t.len()) as int),
    ) by {
        let s = b + t + a;
        let b1 = b + seq!['{'];
        let b2 = b1 + lead;
        assert(s =~= b1 + lead + (inner + a));
        skip_over(b1, lead, inner + a);
        assert(s =~= b2 + inner + a);
        reads_members(b2, none, m, v, indent, outer, 0, a, d + 1, h, Map::empty());
        assert(s[b.len() as int] == '{');
        object_opens(s, b.len() as int, b2.len() as int, d);
    }
    reveal(reads_as);
}

/// An array laid out over lines, put together from texts that read as values, reads as the array
/// of those values.
pub proof fn reads_laid_array(
    p: Seq<Seq<char>>,
    v: Seq<Json>,
    indent: Seq<char>,
    outer: Seq<char>,
    h: int,
)
    requires
        p.len() == v.len(),
        forall|i: int| 0 <= i < p.len() ==> reads_as(#[trigger] p[i], v[i], h),
        0 <= h < MAX_DEPTH,
        blanks(indent),
        blanks(outer),
    ensures
        reads_as(laid_array(p, indent, outer), Json::Array(v), h + 1),
{
    reveal(laid_array);
    reveal_strlit("[\n");
    reveal_strlit("]");
    newline_and(indent);
    newline_and(outer);
    let t = laid_array(p, indent, outer);
    let none = Seq::<char>::empty();
    let empty = p.len() == 0;
    let lead = if empty {
        "\n"@ + ("\n"@ + outer)
    } else {
        "\n"@ + indent
    };
    if empty {
        newline_and("\n"@ + outer);
    }
    let inner = if empty {
        "]"@
    } else {
        none + p[0] + rest_after(p, indent, outer, 0, "]"@)
    };
    if empty {
        assert(t =~= seq!['['] + lead + inner);
        assert(v =~= Seq::<Json>::empty());
    } else {
        first_layout(p, indent, outer, "]"@);
        assert(t =~= "[\n"@ + (lines_from(p, indent, 0) + "\n"@ + outer + "]"@));
        assert(t =~= seq!['['] + lead + inner);
        assert(reads_as(p[0], v[0], h));
        read_here(p[0], v[0], h, none, none, 0);
        if p[0][0] == ']' {
            closing_is_no_value(p[0], v[0], h);
        }
        assert(inner[0] == p[0][0]);
    }
    assert forall|b: Seq<char>, a: Seq<char>, d: int|
        0 <= d && d + (h + 1) <= MAX_DEPTH && stops(a) implies #[trigger] value_at(
        b + t + a,
        b.len() as int,
        d,
    ) == Ok::<(Json, int), Seq<char>>((Json::Array(v), (b.len() + t.len()) as int)) by {
        let s = b + t + a;
        let b1 = b + seq!['['];
        let b2 = b1 + lead;
        assert(s =~= b1 + lead + (inner + a));
        skip_over(b1, lead, inner + a);
        assert(s =~= b2 + inner + a);
        assert(s[b.len() as int] == '[');
        array_opens(s, b.len() as int, b2.len() as int, d);
        if !empty {
            reads_elements(b2, none, p, v, indent, outer, 0, a, d + 1, h, Seq::empty());
            assert(Seq::<Json>::empty() + v.skip(0) =~= v);
        }
    }
    reveal(reads_as);
}

} // verus!
