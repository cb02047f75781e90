//! Listing and revoking the devices that were paired.
use vstd::prelude::*;
use vstd::string::*;

use crate::args::Unpair;
use crate::json::{byte_at, byte_count};
use crate::remote::pairing::{beginning_with, TokenStore};
use crate::text::{
    before,
    chars_of,
    debug_str,
    debug_text,
    dec,
    dec_text,
    lex_lt,
    lex_lt_is_total_order,
    owned,
    slice_text,
    views,
};

verus! {

/// How many characters of a token are shown: as many as eight bytes hold.
pub open spec fn shown_length(t: Seq<char>, k: int) -> int
    decreases t.len() - k,
{
    if 0 <= k < t.len() && byte_at(t, k + 1) <= 8 {
        shown_length(t, k + 1)
    } else {
        k
    }
}

/// The beginning of a token, as it is shown.
pub open spec fn beginning(t: Seq<char>) -> Seq<char> {
    t.take(shown_length(t, 0))
}

proof fn shown_length_is_small(t: Seq<char>, k: int)
    requires
        0 <= k <= t.len(),
        k <= 8,
    ensures
        k <= shown_length(t, k) <= t.len(),
        shown_length(t, k) <= 8,
    decreases t.len() - k,
{
    if k < t.len() && byte_at(t, k + 1) <= 8 {
        crate::json::encoding_is_no_shorter(t.take(k + 1));
        shown_length_is_small(t, k + 1);
    }
}

/// No more of a token is shown than its first eight characters.
pub proof fn tokens_are_shown_in_part(t: Seq<char>)
    ensures
        beginning(t).is_prefix_of(t),
        beginning(t).len() <= 8,
{
    shown_length_is_small(t, 0);
}

fn beginning_of(t: &str) -> (r: String)
    ensures
        r@ == beginning(t@),
{
    let chars = chars_of(t);
    let mut k: usize = 0;
    while k < chars.len()
        invariant
            k <= chars@.len(),
            chars@ == t@,
            shown_length(t@, 0) == shown_length(t@, k as int),
        decreases chars@.len() - k,
    {
        assert(chars@.subrange(0, k + 1) =~= chars@.take(k + 1));
        if byte_count(&chars, 0, k + 1) > 8 {
            assert(chars@.subrange(0, k as int) =~= chars@.take(k as int));
            return slice_text(&chars, 0, k);
        }
        k += 1;
    }
    assert(chars@.subrange(0, k as int) =~= chars@.take(k as int));
    slice_text(&chars, 0, k)
}

/// Where a text belongs in an ordered list: before the first that comes after it.
pub open spec fn slot(list: Seq<Seq<char>>, t: Seq<char>, i: int) -> int
    decreases list.len() - i,
{
    if i < 0 || i >= list.len() || lex_lt(t, list[i]) {
        i
    } else {
        slot(list, t, i + 1)
    }
}

/// Texts in order.
pub open spec fn ordered(list: Seq<Seq<char>>) -> Seq<Seq<char>>
    decreases list.len(),
{
    if list.len() == 0 {
        Seq::empty()
    } else {
        let rest = ordered(list.drop_last());
        rest.insert(slot(rest, list.last(), 0), list.last())
    }
}

proof fn slot_is_inside(list: Seq<Seq<char>>, t: Seq<char>, i: int)
    requires
        0 <= i <= list.len(),
    ensures
        i <= slot(list, t, i) <= list.len(),
        forall|k: int| i <= k < slot(list, t, i) ==> !lex_lt(t, list[k]),
        slot(list, t, i) < list.len() ==> lex_lt(t, list[slot(list, t, i)]),
    decreases list.len() - i,
{
    if i < list.len() && !lex_lt(t, list[i]) {
        slot_is_inside(list, t, i + 1);
    }
}

/// Ordering texts keeps them all, and leaves none before one that comes ahead of it.
pub proof fn ordering_orders(list: Seq<Seq<char>>)
    ensures
        ordered(list).to_multiset() == list.to_multiset(),
        forall|i: int, j: int|
            0 <= i < j < ordered(list).len() ==> !lex_lt(
                #[trigger] ordered(list)[j],
                #[trigger] ordered(list)[i],
            ),
    decreases list.len(),
{
    broadcast use vstd::seq_lib::group_to_multiset_ensures;

    if list.len() > 0 {
        let less = list.drop_last();
        let t = list.last();
        let rest = ordered(less);
        ordering_orders(less);
        slot_is_inside(rest, t, 0);
        let p = slot(rest, t, 0);
        let all = ordered(list);
        assert(all == rest.insert(p, t));
        assert(less.push(t) =~= list);
        assert forall|i: int, j: int| 0 <= i < j < all.len() implies !lex_lt(
            #[trigger] all[j],
            #[trigger] all[i],
        ) by {
            let a = if i < p {
                i
            } else {
                i - 1
            };
            let b = if j < p {
                j
            } else {
                j - 1
            };
            if i == p {
                // What stands behind its place comes after the text.
                lex_lt_is_total_order(t, rest[p], rest[b]);
                lex_lt_is_total_order(rest[b], t, t);
                lex_lt_is_total_order(rest[b], t, rest[p]);
                if b > p {
                    assert(!lex_lt(rest[b], rest[p]));
                }
            } else if j == p {
                assert(!lex_lt(t, rest[i]));
            } else {
                assert(!lex_lt(rest[b], rest[a]));
            }
        }
    }
}

fn in_order(list: &Vec<String>) -> (r: Vec<String>)
    ensures
        views(r@) == ordered(views(list@)),
{
    let ghost all = views(list@);
    let mut out: Vec<String> = Vec::new();
    let mut i: usize = 0;
    assert(all.take(0) =~= Seq::<Seq<char>>::empty());
    assert(views(out@) =~= Seq::<Seq<char>>::empty());
    while i < list.len()
        invariant
            i <= list@.len(),
            all == views(list@),
            views(out@) == ordered(all.take(i as int)),
        decreases list@.len() - i,
    {
        let t = list[i].clone();
        let ghost had = views(out@);
        let ghost text = t@;
        let mut p: usize = 0;
        while p < out.len() && !before(t.as_str(), out[p].as_str())
            invariant
                p <= out@.len(),
                had == views(out@),
                text == t@,
                slot(had, text, 0) == slot(had, text, p as int),
            decreases out@.len() - p,
        {
            p += 1;
        }
        proof {
            assert(all.take(i as int + 1).drop_last() =~= all.take(i as int));
            assert(all.take(i as int + 1).last() == text);
            assert(slot(had, text, 0) == p);
        }
        out.insert(p, t);
        assert(views(out@) =~= had.insert(p as int, text));
        i += 1;
    }
    assert(all.take(i as int) =~= all);
    out
}

/// The lines of the first `n` tokens, by how they begin.
pub open spec fn token_lines(t: Seq<Seq<char>>, n: nat) -> Seq<char>
    decreases n,
{
    if n == 0 || n > t.len() {
        Seq::empty()
    } else {
        token_lines(t, (n - 1) as nat) + "  "@ + beginning(t[n - 1]) + "…\n"@
    }
}

/// `s` unless there is exactly one.
pub open spec fn plural(n: nat) -> Seq<char> {
    if n == 1 {
        ""@
    } else {
        "s"@
    }
}

fn plural_text(n: usize) -> (r: &'static str)
    ensures
        r@ == plural(n as nat),
{
    if n == 1 {
        ""
    } else {
        "s"
    }
}

/// The list of paired devices, for the console.
pub open spec fn device_list(tokens: Seq<Seq<char>>) -> Seq<char> {
    if tokens.len() == 0 {
        "no devices are currently paired\n"@
    } else {
        dec(tokens.len()) + " paired device"@ + plural(tokens.len()) + ":\n"@ + token_lines(
            ordered(tokens),
            ordered(tokens).len(),
        ) + "\nrevoke one with: lumen unpair <prefix-shown-above>\n"@
    }
}

/// The list of paired devices, for the console: how each token begins, never the whole of it.
pub fn list_devices(store: &TokenStore) -> (r: String)
    ensures
        r@ == device_list(store.list()),
{
    let tokens = store.tokens();
    assert(store.list().len() == tokens@.len());
    if tokens.len() == 0 {
        return owned("no devices are currently paired\n");
    }
    let mut s = dec_text(tokens.len() as u128);
    s.append(" paired device");
    s.append(plural_text(tokens.len()));
    s.append(":\n");
    let ghost head = s@;
    let shown = in_order(tokens);
    let ghost o = ordered(store.list());
    assert(o.len() == shown@.len());
    let mut i: usize = 0;
    assert(head + token_lines(o, 0) =~= head);
    while i < shown.len()
        invariant
            i <= shown@.len(),
            o == views(shown@),
            s@ == head + token_lines(o, i as nat),
        decreases shown@.len() - i,
    {
        s.append("  ");
        s.append(beginning_of(shown[i].as_str()).as_str());
        s.append("…\n");
        i += 1;
        assert(s@ =~= head + token_lines(o, i as nat));
    }
    s.append("\nrevoke one with: lumen unpair <prefix-shown-above>\n");
    s
}

/// What became of a request about paired devices.
#[derive(Debug, Clone)]
pub struct Revoked {
    /// What to say.
    pub text: String,
    /// Whether the tokens changed and are to be written back.
    pub changed: bool,
}

/// Lists or revokes paired devices. A prefix that no token begins with is an error, and changes
/// nothing.
pub fn unpair(store: &mut TokenStore, asked: &Unpair) -> (r: Result<Revoked, String>)
    requires
        old(store).wf(),
    ensures
        final(store).wf(),
        match *asked {
            Unpair::All => {
                &&& final(store).list() == Seq::<Seq<char>>::empty()
                &&& r is Ok
                &&& r->Ok_0.changed
                &&& r->Ok_0.text@ == "revoked "@ + dec(old(store).list().len()) + " paired device"@
                    + plural(old(store).list().len()) + "\n"@
            },
            Unpair::List => {
                &&& final(store).list() == old(store).list()
                &&& r is Ok
                &&& !r->Ok_0.changed
                &&& r->Ok_0.text@ == device_list(old(store).list())
            },
            Unpair::Matching(target) => {
                let gone = beginning_with(old(store).list(), target@);
                &&& forall|t: Seq<char>| #[trigger]
                    final(store).set().contains(t) == (old(store).set().contains(t)
                        && !target@.is_prefix_of(t))
                &&& match r {
                    Ok(done) => gone.len() > 0 && done.changed && done.text@ == "revoked "@ + dec(
                        gone.len(),
                    ) + " device"@ + plural(gone.len()) + "\n"@,
                    Err(e) => gone.len() == 0 && e@ == "no paired device matches "@ + debug_str(
                        target@,
                    ),
                }
            },
        },
{
    match asked {
        Unpair::All => {
            let n: usize = store.clear();
            let mut s = owned("revoked ");
            s.append(dec_text(n as u128).as_str());
            s.append(" paired device");
            s.append(plural_text(n));
            s.append("\n");
            Ok(Revoked { text: s, changed: true })
        },
        Unpair::List => Ok(Revoked { text: list_devices(store), changed: false }),
        Unpair::Matching(target) => {
            let gone = store.remove_matching(target.as_str());
            assert(views(gone@).len() == gone@.len());
            if gone.len() == 0 {
                let mut s = owned("no paired device matches ");
                s.append(debug_text(target.as_str()).as_str());
                return Err(s);
            }
            let mut s = owned("revoked ");
            s.append(dec_text(gone.len() as u128).as_str());
            s.append(" device");
            s.append(plural_text(gone.len()));
            s.append("\n");
            Ok(Revoked { text: s, changed: true })
        },
    }
}

/// A list of devices shows each token once, in order, on a line of its own by how it begins: one line
/// more for each token.
pub proof fn every_device_has_its_line(t: Seq<Seq<char>>, n: nat)
    requires
        n < t.len(),
    ensures
        token_lines(t, n + 1) == token_lines(t, n) + "  "@ + beginning(t[n as int]) + "…\n"@,
        token_lines(t, 0) == Seq::<char>::empty(),
        dec(t.len()).is_prefix_of(device_list(t)),
        plural(1) == Seq::<char>::empty(),
        n != 1 ==> plural(n) == "s"@,
{
    reveal_strlit("");
    let all = device_list(t);
    assert(all.subrange(0, dec(t.len()).len() as int) =~= dec(t.len()));
    assert(""@ =~= Seq::<char>::empty());
}

} // verus!
