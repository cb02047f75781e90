//! Counting names: how often each occurs, the most frequent first.
use vstd::prelude::*;
use vstd::string::*;

use crate::text::{
    before,
    dec,
    dec_text,
    join,
    join_text,
    lex_lt,
    lex_lt_is_total_order,
    owned,
    same,
    views,
};

verus! {

/// The first index at or after `i` whose name does not come before `name`.
pub open spec fn name_slot(t: Seq<(Seq<char>, nat)>, name: Seq<char>, i: int) -> int
    decreases t.len() - i,
{
    if i < 0 || i >= t.len() {
        t.len() as int
    } else if lex_lt(t[i].0, name) {
        name_slot(t, name, i + 1)
    } else {
        i
    }
}

/// The counts with one more of a name.
pub open spec fn with_name(t: Seq<(Seq<char>, nat)>, name: Seq<char>) -> Seq<(Seq<char>, nat)> {
    let p = name_slot(t, name, 0);
    if p < t.len() && t[p].0 == name {
        t.update(p, (name, t[p].1 + 1))
    } else {
        t.insert(p, (name, 1nat))
    }
}

/// How often each name occurs, in the order of the names.
pub open spec fn tally(names: Seq<Seq<char>>) -> Seq<(Seq<char>, nat)>
    decreases names.len(),
{
    if names.len() == 0 {
        Seq::empty()
    } else {
        with_name(tally(names.drop_last()), names.last())
    }
}

/// The first index at or after `i` whose count is not above `n`.
pub open spec fn count_slot(t: Seq<(Seq<char>, nat)>, n: nat, i: int) -> int
    decreases t.len() - i,
{
    if i < 0 || i >= t.len() {
        t.len() as int
    } else if t[i].1 > n {
        count_slot(t, n, i + 1)
    } else {
        i
    }
}

/// The counts from the `k`-th on, the greatest first; equal counts keep their order.
pub open spec fn by_count(t: Seq<(Seq<char>, nat)>, k: int) -> Seq<(Seq<char>, nat)>
    decreases t.len() - k,
{
    if k < 0 || k >= t.len() {
        Seq::empty()
    } else {
        let rest = by_count(t, k + 1);
        rest.insert(count_slot(rest, t[k].1, 0), t[k])
    }
}

/// Each name and its count, with a space between them.
pub open spec fn count_texts(t: Seq<(Seq<char>, nat)>) -> Seq<Seq<char>> {
    Seq::new(t.len(), |i: int| t[i].0 + " "@ + dec(t[i].1))
}

/// The names with their counts, the most frequent first, with commas between them.
pub open spec fn summary(names: Seq<Seq<char>>) -> Seq<char> {
    join(count_texts(by_count(tally(names), 0)), ", "@)
}

/// The names and counts.
spec fn counts_view(t: Seq<(String, usize)>) -> Seq<(Seq<char>, nat)> {
    Seq::new(t.len(), |i: int| (t[i].0@, t[i].1 as nat))
}

fn tally_of(names: &Vec<String>) -> (r: Vec<(String, usize)>)
    ensures
        counts_view(r@) == tally(views(names@)),
{
    let ghost all = views(names@);
    let mut out: Vec<(String, usize)> = Vec::new();
    let mut i: usize = 0;
    assert(all.take(0) =~= Seq::<Seq<char>>::empty());
    assert(counts_view(out@) =~= Seq::<(Seq<char>, nat)>::empty());
    while i < names.len()
        invariant
            i <= names@.len(),
            all == views(names@),
            counts_view(out@) == tally(all.take(i as int)),
            forall|k: int| 0 <= k < out@.len() ==> (#[trigger] out@[k]).1 <= i,
        decreases names@.len() - i,
    {
        let name = names[i].as_str();
        let ghost t = counts_view(out@);
        let ghost was = out@;
        proof {
            assert(all.take(i as int + 1).drop_last() =~= all.take(i as int));
            assert(all.take(i as int + 1).last() == names@[i as int]@);
        }
        let mut p: usize = 0;
        while p < out.len() && before(out[p].0.as_str(), name)
            invariant
                p <= out@.len(),
                out@ == was,
                t == counts_view(was),
                name_slot(t, name@, 0) == name_slot(t, name@, p as int),
            decreases out@.len() - p,
        {
            p += 1;
        }
        assert(name_slot(t, name@, 0) == p) by {
            if p < out@.len() {
                assert(t[p as int].0 == out@[p as int].0@);
            }
        }
        if p < out.len() && same(out[p].0.as_str(), name) {
            assert(was[p as int].1 <= i);
            let n: usize = out[p].1 + 1;
            out.set(p, (owned(name), n));
            assert(counts_view(out@) =~= t.update(p as int, (name@, n as nat)));
        } else {
            out.insert(p, (owned(name), 1));
            assert(counts_view(out@) =~= t.insert(p as int, (name@, 1nat)));
        }
        assert forall|k: int| 0 <= k < out@.len() implies (#[trigger] out@[k]).1 <= i + 1 by {
            let j = if out@.len() == was.len() || k < p {
                k
            } else {
                k - 1
            };
            if k != p {
                assert(out@[k] == was[j]);
                assert(was[j].1 <= i);
            }
        }
        i += 1;
    }
    assert(all.take(i as int) =~= all);
    out
}

/// The names with their counts, the most frequent first, with commas between them.
pub fn summary_text(names: &Vec<String>) -> (r: String)
    ensures
        r@ == summary(views(names@)),
{
    let counts = tally_of(names);
    let ghost t = counts_view(counts@);
    let mut sorted: Vec<(String, usize)> = Vec::new();
    let mut k: usize = counts.len();
    assert(counts_view(sorted@) =~= Seq::<(Seq<char>, nat)>::empty());
    while k > 0
        invariant
            k <= counts@.len(),
            t == counts_view(counts@),
            counts_view(sorted@) == by_count(t, k as int),
        decreases k,
    {
        k -= 1;
        let ghost rest = counts_view(sorted@);
        let n: usize = counts[k].1;
        assert(t[k as int] == (counts@[k as int].0@, n as nat));
        let mut p: usize = 0;
        while p < sorted.len() && sorted[p].1 > n
            invariant
                p <= sorted@.len(),
                rest == counts_view(sorted@),
                count_slot(rest, n as nat, 0) == count_slot(rest, n as nat, p as int),
            decreases sorted@.len() - p,
        {
            p += 1;
        }
        assert(count_slot(rest, n as nat, 0) == p) by {
            if p < sorted@.len() {
                assert(rest[p as int].1 == sorted@[p as int].1 as nat);
            }
        }
        sorted.insert(p, (counts[k].0.clone(), n));
        assert(counts_view(sorted@) =~= rest.insert(p as int, t[k as int]));
    }
    let ghost ranked = by_count(t, 0);
    let mut parts: Vec<String> = Vec::new();
    let mut i: usize = 0;
    while i < sorted.len()
        invariant
            i <= sorted@.len(),
            counts_view(sorted@) == ranked,
            parts@.len() == i,
            forall|j: int| 0 <= j < i ==> (#[trigger] parts@[j])@ == count_texts(ranked)[j],
        decreases sorted@.len() - i,
    {
        assert(ranked[i as int] == (sorted@[i as int].0@, sorted@[i as int].1 as nat));
        let mut part = sorted[i].0.clone();
        part.append(" ");
        part.append(dec_text(sorted[i].1 as u128).as_str());
        parts.push(part);
        i += 1;
    }
    assert(views(parts@) =~= count_texts(ranked));
    join_text(&parts, ", ")
}

/// Whether the names of counts ascend.
pub open spec fn ascending(t: Seq<(Seq<char>, nat)>) -> bool {
    forall|i: int, j: int|
        0 <= i < j < t.len() ==> lex_lt((#[trigger] t[i]).0, (#[trigger] t[j]).0)
}

/// Whether each count is how often its name occurs, and every name that occurs is counted.
pub open spec fn counts_all(t: Seq<(Seq<char>, nat)>, names: Seq<Seq<char>>) -> bool {
    &&& forall|i: int|
        0 <= i < t.len() ==> (#[trigger] t[i]).1 == occurrences(names, t[i].0) && t[i].1 > 0
    &&& forall|k: int| 0 <= k < names.len() ==> has_count(t, #[trigger] names[k])
}

/// Whether a name is counted.
pub open spec fn has_count(t: Seq<(Seq<char>, nat)>, name: Seq<char>) -> bool {
    exists|i: int| 0 <= i < t.len() && (#[trigger] t[i]).0 == name
}

/// How often a name occurs.
pub open spec fn occurrences(names: Seq<Seq<char>>, name: Seq<char>) -> nat {
    names.filter(|n: Seq<char>| n == name).len()
}

proof fn name_slot_is_first(t: Seq<(Seq<char>, nat)>, name: Seq<char>, i: int)
    requires
        0 <= i <= t.len(),
    ensures
        i <= name_slot(t, name, i) <= t.len(),
        forall|k: int| i <= k < name_slot(t, name, i) ==> lex_lt((#[trigger] t[k]).0, name),
        name_slot(t, name, i) < t.len() ==> !lex_lt(t[name_slot(t, name, i)].0, name),
    decreases t.len() - i,
{
    if i < t.len() && lex_lt(t[i].0, name) {
        name_slot_is_first(t, name, i + 1);
    }
}

proof fn one_more(names: Seq<Seq<char>>, name: Seq<char>, other: Seq<char>)
    ensures
        occurrences(names.push(name), other) == occurrences(names, other) + (if name == other {
            1nat
        } else {
            0
        }),
{
    reveal(Seq::filter);
    assert(names.push(name).drop_last() =~= names);
}

proof fn uncounted_is_absent(t: Seq<(Seq<char>, nat)>, names: Seq<Seq<char>>, name: Seq<char>)
    requires
        forall|k: int| 0 <= k < names.len() ==> has_count(t, #[trigger] names[k]),
        !has_count(t, name),
    ensures
        occurrences(names, name) == 0,
    decreases names.len(),
{
    reveal(Seq::filter);
    if names.len() > 0 {
        let front = names.drop_last();
        assert(has_count(t, names[names.len() - 1]));
        assert forall|k: int| 0 <= k < front.len() implies has_count(t, #[trigger] front[k]) by {
            assert(front[k] == names[k]);
        }
        uncounted_is_absent(t, front, name);
    }
}

/// Every name is counted once, as often as it occurs, and no other is; the names come in order.
pub proof fn names_are_counted(names: Seq<Seq<char>>)
    ensures
        ascending(tally(names)),
        counts_all(tally(names), names),
    decreases names.len(),
{
    if names.len() > 0 {
        let front = names.drop_last();
        let name = names.last();
        names_are_counted(front);
        let t = tally(front);
        let u = tally(names);
        let p = name_slot(t, name, 0);
        name_slot_is_first(t, name, 0);
        assert(names =~= front.push(name));
        let there = p < t.len() && t[p].0 == name;
        assert forall|i: int| 0 <= i < t.len() && i != p implies (#[trigger] t[i]).0 != name by {
            lex_lt_is_total_order(t[i].0, name, t[i].0);
            if i > p {
                assert(lex_lt(t[p].0, t[i].0));
                lex_lt_is_total_order(name, t[p].0, t[i].0);
                lex_lt_is_total_order(t[p].0, name, t[i].0);
                lex_lt_is_total_order(t[p].0, t[i].0, t[p].0);
            }
        }
        if !there {
            assert(!has_count(t, name)) by {
                if has_count(t, name) {
                    let i = choose|i: int| 0 <= i < t.len() && (#[trigger] t[i]).0 == name;
                    assert(i == p);
                }
            }
            uncounted_is_absent(t, front, name);
        }
        assert forall|i: int| 0 <= i < u.len() implies (#[trigger] u[i]).1 == occurrences(
            names,
            u[i].0,
        ) && u[i].1 > 0 by {
            one_more(front, name, u[i].0);
            if there {
                assert(t[i].1 == occurrences(front, t[i].0));
            } else if i < p {
                assert(u[i] == t[i]);
                assert(t[i].1 == occurrences(front, t[i].0));
            } else if i > p {
                assert(u[i] == t[i - 1]);
                assert(t[i - 1].1 == occurrences(front, t[i - 1].0));
                assert(t[i - 1].0 != name) by {
                    if i - 1 == p {
                    }
                }
            }
        }
        assert forall|k: int| 0 <= k < names.len() implies has_count(u, #[trigger] names[k]) by {
            if k < front.len() {
                assert(front[k] == names[k]);
                assert(has_count(t, front[k]));
                let i = choose|i: int| 0 <= i < t.len() && (#[trigger] t[i]).0 == front[k];
                if there {
                    assert(u[i].0 == t[i].0);
                } else if i < p {
                    assert(u[i] == t[i]);
                } else {
                    assert(u[i + 1] == t[i]);
                }
            } else {
                assert(u[p].0 == name);
            }
        }
        assert forall|i: int, j: int| 0 <= i < j < u.len() implies lex_lt(
            (#[trigger] u[i]).0,
            (#[trigger] u[j]).0,
        ) by {
            if there {
                assert(lex_lt(t[i].0, t[j].0));
            } else {
                let a = if i < p {
                    i
                } else {
                    i - 1
                };
                let b = if j < p {
                    j
                } else {
                    j - 1
                };
                if i != p && j != p {
                    assert(lex_lt(t[a].0, t[b].0));
                } else if j == p {
                    assert(lex_lt(t[i].0, name));
                } else {
                    assert(u[j] == t[j - 1]);
                    lex_lt_is_total_order(name, t[p].0, t[j - 1].0);
                    if p < j - 1 {
                        assert(lex_lt(t[p].0, t[j - 1].0));
                    }
                }
            }
        }
    }
}

proof fn count_slot_is_first(t: Seq<(Seq<char>, nat)>, n: nat, i: int)
    requires
        0 <= i <= t.len(),
    ensures
        i <= count_slot(t, n, i) <= t.len(),
        forall|k: int| i <= k < count_slot(t, n, i) ==> (#[trigger] t[k]).1 > n,
        count_slot(t, n, i) < t.len() ==> t[count_slot(t, n, i)].1 <= n,
    decreases t.len() - i,
{
    if i < t.len() && t[i].1 > n {
        count_slot_is_first(t, n, i + 1);
    }
}

/// The greatest counts come first, and none is added or lost.
pub proof fn the_most_frequent_come_first(t: Seq<(Seq<char>, nat)>, k: int)
    requires
        0 <= k <= t.len(),
    ensures
        forall|i: int, j: int|
            0 <= i < j < by_count(t, k).len() ==> (#[trigger] by_count(t, k)[i]).1 >= (
            #[trigger] by_count(t, k)[j]).1,
        by_count(t, k).to_multiset() == t.skip(k).to_multiset(),
    decreases t.len() - k,
{
    broadcast use vstd::seq_lib::group_to_multiset_ensures;

    let all = by_count(t, k);
    if k < t.len() {
        let rest = by_count(t, k + 1);
        the_most_frequent_come_first(t, k + 1);
        count_slot_is_first(rest, t[k].1, 0);
        let p = count_slot(rest, t[k].1, 0);
        vstd::seq_lib::to_multiset_insert(rest, p, t[k]);
        assert(t.skip(k) =~= t.skip(k + 1).insert(0, t[k]));
        vstd::seq_lib::to_multiset_insert(t.skip(k + 1), 0, t[k]);
        assert forall|i: int, j: int| 0 <= i < j < all.len() implies (#[trigger] all[i]).1 >= (
        #[trigger] all[j]).1 by {
            let a = if i < p {
                i
            } else {
                i - 1
            };
            let b = if j < p {
                j
            } else {
                j - 1
            };
            if i != p && j != p {
                assert(rest[a].1 >= rest[b].1);
            } else if i == p && p < j - 1 {
                assert(rest[p].1 >= rest[j - 1].1);
            }
        }
    } else {
        assert(t.skip(k) =~= all);
    }
}

/// A summary shows every name that was counted, with its count behind it.
pub proof fn every_count_is_shown(names: Seq<Seq<char>>, k: int)
    requires
        0 <= k < by_count(tally(names), 0).len(),
    ensures
        exists|p: Seq<char>, q: Seq<char>| #[trigger]
            p.add(
                by_count(tally(names), 0)[k].0 + " "@ + dec(by_count(tally(names), 0)[k].1),
            ).add(q) == summary(names),
{
    let t = by_count(tally(names), 0);
    crate::text::joined_parts_are_there(count_texts(t), ", "@, k);
    assert(count_texts(t)[k] == t[k].0 + " "@ + dec(t[k].1));
}

} // verus!
