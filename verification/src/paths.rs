//! File paths as text, with `/` between their components.
use vstd::prelude::*;
use vstd::string::*;

use crate::text::{
    chars_of,
    lex_lt,
    lex_lt_is_total_order,
    opt_view,
    owned,
    pieces_go_on,
    pieces_join_back,
    rfind,
    rfind_char,
    same,
    slice_text,
    split,
    split_text,
    views,
};

verus! {

/// Whether a path begins at the root.
pub open spec fn is_absolute(p: Seq<char>) -> bool {
    p.len() > 0 && p[0] == '/'
}

/// `rel` taken from the directory `base`: an absolute `rel` stands for itself.
pub open spec fn joined(base: Seq<char>, rel: Seq<char>) -> Seq<char> {
    if is_absolute(rel) || base.len() == 0 {
        rel
    } else if base.last() == '/' {
        base + rel
    } else {
        base + seq!['/'] + rel
    }
}

/// `rel` taken from the directory `base`.
pub fn join(base: &str, rel: &str) -> (r: String)
    ensures
        r@ == joined(base@, rel@),
{
    let b = chars_of(base);
    let t = chars_of(rel);
    if (t.len() > 0 && t[0] == '/') || b.len() == 0 {
        return owned(rel);
    }
    let mut out = owned(base);
    if b[b.len() - 1] != '/' {
        out.push('/');
        assert(out@ =~= base@ + seq!['/']);
    }
    out.append(rel);
    out
}

/// The pieces that name something: neither empty nor `.`.
pub open spec fn named(pieces: Seq<Seq<char>>) -> Seq<Seq<char>>
    decreases pieces.len(),
{
    if pieces.len() == 0 {
        Seq::empty()
    } else {
        let rest = named(pieces.drop_last());
        if pieces.last().len() == 0 || pieces.last() == "."@ {
            rest
        } else {
            rest.push(pieces.last())
        }
    }
}

/// The components of a path: `/` for the root of an absolute path, `.` where a path begins with
/// that component, then each name in turn.
pub open spec fn components(p: Seq<char>) -> Seq<Seq<char>> {
    let pieces = split(p, '/');
    let lead = if is_absolute(p) {
        seq!["/"@]
    } else if pieces[0] == "."@ {
        seq!["."@]
    } else {
        Seq::empty()
    };
    lead + named(pieces)
}

/// The components of a path.
pub fn components_of(p: &str) -> (r: Vec<String>)
    ensures
        views(r@) == components(p@),
{
    let pieces = split_text(p, '/');
    let chars = chars_of(p);
    let mut out: Vec<String> = Vec::new();
    let ghost all = views(pieces@);
    let ghost lead: Seq<Seq<char>> = Seq::empty();
    if chars.len() > 0 && chars[0] == '/' {
        out.push(owned("/"));
        proof {
            lead = seq!["/"@];
        }
    } else if same(pieces[0].as_str(), ".") {
        out.push(owned("."));
        proof {
            lead = seq!["."@];
        }
    }
    assert(views(out@) =~= lead);
    let mut i: usize = 0;
    assert(lead + named(all.take(0)) =~= lead);
    while i < pieces.len()
        invariant
            i <= pieces@.len(),
            all == views(pieces@),
            views(out@) == lead + named(all.take(i as int)),
        decreases pieces@.len() - i,
    {
        let piece = pieces[i].as_str();
        let ghost known = views(out@);
        proof {
            assert(all.take(i as int + 1).drop_last() =~= all.take(i as int));
            assert(all.take(i as int + 1).last() == pieces@[i as int]@);
        }
        if !piece.is_empty() && !same(piece, ".") {
            out.push(owned(piece));
            assert(views(out@) =~= known.push(pieces@[i as int]@));
            assert(views(out@) =~= lead + named(all.take(i as int + 1)));
        }
        i += 1;
    }
    assert(all.take(i as int) =~= all);
    assert(all[0] == pieces@[0]@);
    out
}

/// Whether `p` lies at or below `base`, component by component.
pub open spec fn within(p: Seq<char>, base: Seq<char>) -> bool {
    components(base).is_prefix_of(components(p))
}

/// Whether `p` lies at or below `base`, component by component.
pub fn starts_with(p: &str, base: &str) -> (r: bool)
    ensures
        r == within(p@, base@),
{
    let a = components_of(p);
    let b = components_of(base);
    if b.len() > a.len() {
        return false;
    }
    let mut i: usize = 0;
    while i < b.len()
        invariant
            i <= b@.len() <= a@.len(),
            views(a@) == components(p@),
            views(b@) == components(base@),
            forall|k: int| 0 <= k < i ==> components(p@)[k] == components(base@)[k],
        decreases b@.len() - i,
    {
        if !same(a[i].as_str(), b[i].as_str()) {
            assert(views(a@)[i as int] != views(b@)[i as int]);
            assert(components(p@).subrange(0, b@.len() as int)[i as int] != components(
                base@,
            )[i as int]);
            return false;
        }
        assert(views(a@)[i as int] == views(b@)[i as int]);
        i += 1;
    }
    assert(components(base@) =~= components(p@).subrange(0, b@.len() as int));
    true
}

/// The last component, when it is a name.
pub open spec fn name_of(p: Seq<char>) -> Option<Seq<char>> {
    let c = components(p);
    if c.len() > 0 && c.last() != "/"@ && c.last() != "."@ && c.last() != ".."@ {
        Some(c.last())
    } else {
        None
    }
}

/// The last component, when it is a name.
pub fn file_name(p: &str) -> (r: Option<String>)
    ensures
        opt_view(r) == name_of(p@),
{
    let c = components_of(p);
    if c.len() == 0 {
        return None;
    }
    let last = c[c.len() - 1].as_str();
    assert(components(p@).last() == last@);
    if same(last, "/") || same(last, ".") || same(last, "..") {
        return None;
    }
    Some(owned(last))
}

/// The part of a name after its last dot, unless that dot begins the name.
pub open spec fn suffix_of(name: Seq<char>) -> Option<Seq<char>> {
    let i = rfind(name, '.');
    if i > 0 {
        Some(name.skip(i + 1))
    } else {
        None
    }
}

/// The extension of a path's file name.
pub open spec fn extension_of(p: Seq<char>) -> Option<Seq<char>> {
    match name_of(p) {
        Some(name) => suffix_of(name),
        None => None,
    }
}

/// The extension of a path's file name.
pub fn extension(p: &str) -> (r: Option<String>)
    ensures
        opt_view(r) == extension_of(p@),
{
    let name = match file_name(p) {
        Some(name) => name,
        None => {
            return None;
        },
    };
    let chars = chars_of(name.as_str());
    match rfind_char(&chars, '.') {
        Some(i) => if i > 0 {
            let n: usize = chars.len();
            let tail = slice_text(&chars, i + 1, n);
            assert(tail@ =~= name@.skip(i as int + 1));
            Some(tail)
        } else {
            None
        },
        None => None,
    }
}

/// Whether the components `a` come before the components `b`, from the `i`-th on.
pub open spec fn components_lt(a: Seq<Seq<char>>, b: Seq<Seq<char>>, i: int) -> bool
    decreases b.len() - i,
{
    if i < 0 || i >= b.len() {
        false
    } else if i >= a.len() {
        true
    } else if a[i] == b[i] {
        components_lt(a, b, i + 1)
    } else {
        lex_lt(a[i], b[i])
    }
}

/// Whether path `a` comes before path `b`: component by component, names in character order.
pub open spec fn path_lt(a: Seq<char>, b: Seq<char>) -> bool {
    components_lt(components(a), components(b), 0)
}

/// Whether path `a` comes before path `b`.
pub fn before(a: &str, b: &str) -> (r: bool)
    ensures
        r == path_lt(a@, b@),
{
    let x = components_of(a);
    let y = components_of(b);
    let ghost ca = components(a@);
    let ghost cb = components(b@);
    let mut i: usize = 0;
    while i < y.len()
        invariant
            i <= y@.len(),
            ca == components(a@),
            cb == components(b@),
            views(x@) == ca,
            views(y@) == cb,
            components_lt(ca, cb, 0) == components_lt(ca, cb, i as int),
        decreases y@.len() - i,
    {
        if i >= x.len() {
            assert(ca.len() == x@.len());
            return true;
        }
        assert(views(x@)[i as int] == x@[i as int]@ && views(y@)[i as int] == y@[i as int]@);
        if !same(x[i].as_str(), y[i].as_str()) {
            return crate::text::before(x[i].as_str(), y[i].as_str());
        }
        i += 1;
    }
    assert(cb.len() == y@.len());
    false
}

proof fn components_lt_order(a: Seq<Seq<char>>, b: Seq<Seq<char>>, c: Seq<Seq<char>>, i: int)
    requires
        0 <= i,
    ensures
        !components_lt(a, a, i),
        components_lt(a, b, i) ==> !components_lt(b, a, i),
        components_lt(a, b, i) && components_lt(b, c, i) ==> components_lt(a, c, i),
    decreases (a.len() + b.len() + c.len()) - i,
{
    if i < a.len() + b.len() + c.len() {
        components_lt_order(a, b, c, i + 1);
    }
    if i < a.len() && i < b.len() {
        lex_lt_is_total_order(a[i], b[i], b[i]);
        if i < c.len() {
            lex_lt_is_total_order(a[i], b[i], c[i]);
            lex_lt_is_total_order(b[i], c[i], a[i]);
            lex_lt_is_total_order(a[i], c[i], c[i]);
        }
    }
}

/// Path order is a strict order.
pub proof fn path_lt_is_order(a: Seq<char>, b: Seq<char>, c: Seq<char>)
    ensures
        !path_lt(a, a),
        path_lt(a, b) ==> !path_lt(b, a),
        path_lt(a, b) && path_lt(b, c) ==> path_lt(a, c),
{
    components_lt_order(components(a), components(b), components(c), 0);
}

proof fn components_lt_total(a: Seq<Seq<char>>, b: Seq<Seq<char>>, i: int)
    requires
        0 <= i <= a.len(),
        i <= b.len(),
        a.take(i) == b.take(i),
    ensures
        components_lt(a, b, i) || components_lt(b, a, i) || a == b,
    decreases a.len() - i,
{
    if i < a.len() && i < b.len() {
        lex_lt_is_total_order(a[i], b[i], b[i]);
        if a[i] == b[i] {
            assert(a.take(i + 1) =~= a.take(i).push(a[i]));
            assert(b.take(i + 1) =~= b.take(i).push(b[i]));
            components_lt_total(a, b, i + 1);
        }
    } else if i == a.len() && i == b.len() {
        assert(a =~= a.take(i));
        assert(b =~= b.take(i));
    }
}

/// Not coming before is transitive: two paths that neither comes before the other have the same
/// components.
pub proof fn path_order_is_weak(a: Seq<char>, b: Seq<char>, c: Seq<char>)
    ensures
        !path_lt(a, b) && !path_lt(b, c) ==> !path_lt(a, c),
        !path_lt(a, b) && !path_lt(b, a) ==> components(a) == components(b),
{
    let x = components(a);
    let y = components(b);
    assert(x.take(0) =~= y.take(0));
    components_lt_total(x, y, 0);
    path_lt_is_order(b, a, c);
}

proof fn named_go_on(a: Seq<Seq<char>>, b: Seq<Seq<char>>)
    ensures
        named(a + b) == named(a) + named(b),
    decreases b.len(),
{
    if b.len() == 0 {
        assert(a + b =~= a);
        assert(named(a) + named(b) =~= named(a));
    } else {
        assert((a + b).drop_last() =~= a + b.drop_last());
        named_go_on(a, b.drop_last());
        assert(named(a + b) =~= named(a) + named(b));
    }
}

proof fn nothing_named_is_empty(pieces: Seq<Seq<char>>, c: char)
    requires
        forall|i: int| 0 <= i < pieces.len() ==> !(#[trigger] pieces[i]).contains(c),
    ensures
        forall|i: int|
            0 <= i < named(pieces).len() ==> (#[trigger] named(pieces)[i]).len() > 0 && named(
                pieces,
            )[i] != "."@ && !named(pieces)[i].contains(c),
    decreases pieces.len(),
{
    if pieces.len() > 0 {
        let front = pieces.drop_last();
        assert forall|i: int| 0 <= i < front.len() implies !(#[trigger] front[i]).contains(c) by {
            assert(front[i] == pieces[i]);
        }
        nothing_named_is_empty(front, c);
        assert(!pieces[pieces.len() - 1].contains(c));
        let rest = named(front);
        assert forall|i: int| 0 <= i < named(pieces).len() implies (#[trigger] named(
            pieces,
        )[i]).len() > 0 && named(pieces)[i] != "."@ && !named(pieces)[i].contains(c) by {
            if i < rest.len() {
                assert(named(pieces)[i] == rest[i]);
            }
        }
    }
}

/// Whether a text can be the name of a file: not empty, without a slash, and no step on the way.
pub open spec fn is_name(n: Seq<char>) -> bool {
    n.len() > 0 && !n.contains('/') && n != "."@ && n != ".."@
}

/// A name in a directory is the directory's components and then the name, so it lies within the
/// directory, and it is what the path is called.
pub proof fn names_stand_in_their_directory(dir: Seq<char>, name: Seq<char>)
    requires
        is_name(name),
        dir.len() > 0,
    ensures
        components(dir.push('/') + name) == components(dir).push(name),
        within(dir.push('/') + name, dir),
        name_of(dir.push('/') + name) == Some(name),
        name_of(name) == Some(name),
{
    let p = dir.push('/') + name;
    reveal_strlit(".");
    reveal_strlit("/");
    pieces_go_on(dir, name, '/');
    pieces_join_back(dir, '/');
    lone_piece(name);
    named_go_on(split(dir, '/'), split(name, '/'));
    let one = seq![name];
    assert(one.drop_last() =~= Seq::<Seq<char>>::empty());
    assert(named(one.drop_last()) =~= Seq::<Seq<char>>::empty());
    assert(one.last() == name);
    assert(named(one) =~= seq![name]);
    assert(is_absolute(p) == is_absolute(dir)) by {
        assert(p[0] == dir[0]);
    }
    assert(split(p, '/')[0] == split(dir, '/')[0]);
    assert(components(p) =~= components(dir).push(name));
    assert(components(dir) =~= components(p).subrange(0, components(dir).len() as int));
    assert(!is_absolute(name)) by {
        if is_absolute(name) {
            assert(name.contains(name[0]));
        }
    }
    assert("/"@.contains('/')) by {
        assert("/"@[0] == '/');
    }
    assert(components(name) =~= seq![name]);
}

proof fn lone_piece(name: Seq<char>)
    requires
        !name.contains('/'),
    ensures
        split(name, '/') == seq![name],
{
    crate::text::find_from_is_first(name, '/', 0);
    let i = crate::text::find(name, '/');
    if i < name.len() {
        assert(name.contains(name[i]));
    }
}

/// What a path is called is a name: it holds no slash, and so leads out of no directory. Where the
/// name has an extension, the name is a stem, a dot and the extension, and the extension holds no dot.
pub proof fn what_a_path_is_called_is_a_name(p: Seq<char>)
    ensures
        name_of(p) is Some ==> is_name(name_of(p)->0),
        extension_of(p) is Some ==> name_of(p) is Some && !extension_of(p)->0.contains('.') && exists|
            stem: Seq<char>,
        | stem.len() > 0 && name_of(p)->0 == #[trigger] stem.push('.') + extension_of(p)->0,
        name_of(p) is Some && extension_of(p) is None ==> forall|i: int|
            0 < i < name_of(p)->0.len() ==> #[trigger] name_of(p)->0[i] != '.',
{
    pieces_join_back(p, '/');
    nothing_named_is_empty(split(p, '/'), '/');
    if let Some(n) = name_of(p) {
        let c = components(p);
        let all = named(split(p, '/'));
        assert(c.last() == n);
        let lead = c.len() - all.len();
        if all.len() == 0 {
            assert(lead <= 1);
        } else {
            assert(c.last() == all[all.len() - 1]);
        }
        crate::text::rfind_before_is_last(n, '.', n.len() as int);
        let i = rfind(n, '.');
        if i > 0 {
            let stem = n.take(i);
            let ext = n.skip(i + 1);
            assert(n =~= stem.push('.') + ext);
            if ext.contains('.') {
                let k = choose|k: int| 0 <= k < ext.len() && ext[k] == '.';
                assert(n[i + 1 + k] == '.');
            }
        }
    }
}

/// The extension of a file is what follows the last dot of its name, where something stands before
/// that; a name without a dot has none, nor has one whose only dot begins it.
pub proof fn extensions_follow_the_last_dot(dir: Seq<char>, stem: Seq<char>, ext: Seq<char>)
    requires
        dir.len() > 0,
        stem.len() > 0,
        !stem.contains('/'),
        !ext.contains('/'),
        !ext.contains('.'),
        ext.len() > 0,
    ensures
        extension_of(dir.push('/') + (stem.push('.') + ext)) == Some(ext),
        extension_of(dir.push('/') + ext) is None,
        extension_of(dir.push('/') + (seq!['.'] + ext)) is None,
{
    reveal_strlit(".");
    reveal_strlit("..");
    let name = stem.push('.') + ext;
    let hidden = seq!['.'] + ext;
    assert(name.len() >= 3 && hidden.len() >= 2);
    assert(hidden[1] == ext[0]);
    assert(ext.contains(ext[0]));
    assert(!name.contains('/')) by {
        if name.contains('/') {
            let i = choose|i: int| 0 <= i < name.len() && name[i] == '/';
            if i < stem.len() {
                assert(stem[i] == '/');
            } else if i > stem.len() {
                assert(ext[i - stem.len() - 1] == '/');
            }
        }
    }
    assert(!hidden.contains('/')) by {
        if hidden.contains('/') {
            let i = choose|i: int| 0 <= i < hidden.len() && hidden[i] == '/';
            assert(ext[i - 1] == '/');
        }
    }
    names_stand_in_their_directory(dir, name);
    crate::text::splits_at_the_last(stem, ext, '.');
    let k = rfind(name, '.');
    crate::text::rfind_before_is_last(name, '.', name.len() as int);
    assert(name[stem.len() as int] == '.');
    if k > stem.len() {
        assert(ext[k - stem.len() - 1] == name[k]);
        assert(ext.contains('.'));
    }
    assert(name.skip(k + 1) =~= ext);
    names_stand_in_their_directory(dir, ext);
    crate::text::rfind_before_is_last(ext, '.', ext.len() as int);
    if rfind(ext, '.') >= 0 {
        assert(ext.contains(ext[rfind(ext, '.')]));
    }
    names_stand_in_their_directory(dir, hidden);
    crate::text::rfind_before_is_last(hidden, '.', hidden.len() as int);
    let h = rfind(hidden, '.');
    if h > 0 {
        assert(ext[h - 1] == hidden[h]);
        assert(ext.contains('.'));
    }
}

proof fn same_lead(a: Seq<Seq<char>>, b: Seq<Seq<char>>, c: Seq<Seq<char>>, i: int)
    requires
        0 <= i <= a.len(),
    ensures
        components_lt(a + b, a + c, i) == components_lt(a + b, a + c, a.len() as int),
    decreases a.len() - i,
{
    if i < a.len() {
        assert((a + b)[i] == a[i] && (a + c)[i] == a[i]);
        same_lead(a, b, c, i + 1);
    }
}

/// Paths of one directory are ordered by their names, and a directory comes before what is in it.
pub proof fn paths_are_ordered_by_name(dir: Seq<char>, a: Seq<char>, b: Seq<char>)
    requires
        dir.len() > 0,
        is_name(a),
        is_name(b),
    ensures
        a != b ==> path_lt(dir.push('/') + a, dir.push('/') + b) == lex_lt(a, b),
        path_lt(dir, dir.push('/') + a),
        !path_lt(dir.push('/') + a, dir),
{
    names_stand_in_their_directory(dir, a);
    names_stand_in_their_directory(dir, b);
    let c = components(dir);
    let none = Seq::<Seq<char>>::empty();
    assert(c.push(a) =~= c + seq![a]);
    assert(c.push(b) =~= c + seq![b]);
    assert(c =~= c + none);
    same_lead(c, seq![a], seq![b], 0);
    same_lead(c, none, seq![a], 0);
    same_lead(c, seq![a], none, 0);
    let n = c.len() as int;
    assert((c + seq![a])[n] == a && (c + seq![b])[n] == b);
}

/// A name joined to a directory stands in that directory; an absolute path stands for itself.
pub proof fn joining_enters_the_directory(dir: Seq<char>, name: Seq<char>)
    requires
        is_name(name),
        dir.len() > 0,
    ensures
        dir.last() != '/' ==> joined(dir, name) == dir.push('/') + name,
        dir.last() == '/' ==> joined(dir, name) == dir + name,
        joined(dir, seq!['/'] + name) == seq!['/'] + name,
        dir.last() != '/' ==> name_of(joined(dir, name)) == Some(name),
{
    assert(name.contains(name[0]));
    assert(dir + seq!['/'] + name =~= dir.push('/') + name);
    names_stand_in_their_directory(dir, name);
}

} // verus!
