//! Delivery in segments, for both formats: who may ask for what, the cache that generated segments
//! are kept in, and the course of one generation.
use vstd::bytes::*;
use vstd::prelude::*;
use vstd::string::*;
use vstd::utf8::*;

use crate::remote::digest::{sha256, sha256_of};
use crate::remote::dash;
use crate::remote::hls;
use crate::remote::pairing::TokenStore;
use crate::remote::server::tellable;
use crate::text::{
    chars_of,
    hex,
    hex_text,
    is_digit,
    owned,
    rsplit_once,
    same,
    split_at_first,
    split_at_last,
    split_once,
    starts_with,
    trim,
    trim_text,
    views,
};

verus! {

/// How long one generation may take, in nanoseconds.
pub const GENERATION_TIMEOUT: u64 = 1_800_000_000_000;

/// How large the cache may grow before the oldest entries go, in bytes. A soft limit.
pub const CACHE_MAX_BYTES: u64 = 26_843_545_600;

/// How long an entry may go unused, in nanoseconds.
pub const CACHE_MAX_AGE: u64 = 1_209_600_000_000_000;

/// How old an unfinished directory has to be before it counts as abandoned, in nanoseconds.
pub const BUILDING_GRACE: u64 = 3_600_000_000_000;

/// The length of a segment, in seconds.
pub const SEGMENT_SECONDS: u32 = 6;

/// Whether `s` is nothing but ASCII digits.
pub(crate) fn is_digits(s: &str) -> (r: bool)
    ensures
        r == (forall|i: int| 0 <= i < s@.len() ==> is_digit(#[trigger] s@[i])),
{
    let chars = chars_of(s);
    let mut i: usize = 0;
    while i < chars.len()
        invariant
            chars@ == s@,
            i <= s@.len(),
            forall|k: int| 0 <= k < i ==> is_digit(#[trigger] s@[k]),
        decreases s@.len() - i,
    {
        let c = chars[i];
        if !('0' <= c && c <= '9') {
            assert(!is_digit(s@[i as int]));
            return false;
        }
        i += 1;
    }
    true
}

/// A request for a part of a presentation, taken apart: the token, the source's path, the name of
/// the part.
#[derive(Debug, Clone, PartialEq)]
pub enum Asked {
    Refuse { code: u16, reason: &'static str },
    Part { source: String, name: String },
}

/// What is asked for.
pub enum Wanted {
    Refuse(nat, Seq<char>),
    Part { source: Seq<char>, name: Seq<char> },
}

impl Asked {
    /// What is asked for.
    pub open spec fn content(self) -> Wanted {
        match self {
            Asked::Refuse { code, reason } => Wanted::Refuse(code as nat, reason@),
            Asked::Part { source, name } => Wanted::Part { source: source@, name: name@ },
        }
    }
}

/// What `<token>/<source>/<name>` asks for. The token is in the path, since a player resolves the
/// names in a playlist against that path and drops a query.
pub open spec fn wanted(method: Seq<char>, rest: Seq<char>, tokens: Set<Seq<char>>) -> Wanted {
    if method != "GET"@ && method != "HEAD"@ {
        Wanted::Refuse(405, "Method Not Allowed"@)
    } else {
        match split_at_first(rest, '/') {
            None => Wanted::Refuse(404, "Not Found"@),
            Some((token, after)) => if !tokens.contains(token) {
                Wanted::Refuse(401, "Unauthorized"@)
            } else {
                match split_at_last(after, '/') {
                    None => Wanted::Refuse(404, "Not Found"@),
                    Some((source, name)) => Wanted::Part { source, name },
                }
            },
        }
    }
}

/// Takes apart what is asked for under a format's prefix.
pub fn asked(method: &str, rest: &str, tokens: &TokenStore) -> (r: Asked)
    ensures
        r.content() == wanted(method@, rest@, tokens.set()),
{
    if !same(method, "GET") && !same(method, "HEAD") {
        return Asked::Refuse { code: 405, reason: "Method Not Allowed" };
    }
    let (token, after) = match split_once(rest, '/') {
        Some(p) => p,
        None => {
            return Asked::Refuse { code: 404, reason: "Not Found" };
        },
    };
    if !tokens.is_valid(token.as_str()) {
        return Asked::Refuse { code: 401, reason: "Unauthorized" };
    }
    match rsplit_once(after.as_str(), '/') {
        Some((source, name)) => Asked::Part { source, name },
        None => Asked::Refuse { code: 404, reason: "Not Found" },
    }
}

/// What a request for a part of a presentation leads to.
#[derive(Debug, Clone, PartialEq)]
pub enum Handled {
    Refuse { code: u16, reason: &'static str },
    /// A part of the presentation of a source. The index, a playlist or a manifest, is what a
    /// presentation is made for.
    Part { source: String, name: String, index: bool, content_type: &'static str },
}

/// What a request for a part leads to.
pub enum Handling {
    Refuse(nat, Seq<char>),
    Part { source: Seq<char>, name: Seq<char>, index: bool, content_type: Seq<char> },
}

impl Handled {
    /// What the request leads to.
    pub open spec fn content(self) -> Handling {
        match self {
            Handled::Refuse { code, reason } => Handling::Refuse(code as nat, reason@),
            Handled::Part { source, name, index, content_type } => Handling::Part {
                source: source@,
                name: name@,
                index,
                content_type: content_type@,
            },
        }
    }
}

/// Whether a name is that of a part, whether that is the index, and its media type.
pub open spec fn part_named(format: Format, name: Seq<char>) -> Option<(bool, Seq<char>)> {
    match format {
        Format::Hls => match hls::artifact_of(name) {
            Some(a) => Some((a == hls::Artifact::Playlist, hls::artifact_type(a))),
            None => None,
        },
        Format::Dash => match dash::artifact_of(name) {
            Some(a) => Some((a == dash::Artifact::Manifest, dash::artifact_type(a))),
            None => None,
        },
    }
}

/// What a request for a part leads to: a name that is none of a part's is not found, before any
/// path is made of it.
pub open spec fn handled(
    format: Format,
    method: Seq<char>,
    rest: Seq<char>,
    tokens: Set<Seq<char>>,
) -> Handling {
    match wanted(method, rest, tokens) {
        Wanted::Refuse(code, reason) => Handling::Refuse(code, reason),
        Wanted::Part { source, name } => match part_named(format, name) {
            None => Handling::Refuse(404, "Not Found"@),
            Some((index, content_type)) => Handling::Part { source, name, index, content_type },
        },
    }
}

fn part(format: Format, name: &str) -> (r: Option<(bool, &'static str)>)
    ensures
        match r {
            Some((index, ty)) => part_named(format, name@) == Some((index, ty@)),
            None => part_named(format, name@) is None,
        },
{
    match format {
        Format::Hls => match hls::parse_artifact(name) {
            Some(a) => Some((a == hls::Artifact::Playlist, hls::content_type(a))),
            None => None,
        },
        Format::Dash => match dash::parse_artifact(name) {
            Some(a) => Some((a == dash::Artifact::Manifest, dash::content_type(a))),
            None => None,
        },
    }
}

/// Decides what a request for a part leads to. The source is still to be found in the library.
pub fn handle(format: Format, method: &str, rest: &str, tokens: &TokenStore) -> (r: Handled)
    ensures
        r.content() == handled(format, method@, rest@, tokens.set()),
{
    match asked(method, rest, tokens) {
        Asked::Refuse { code, reason } => Handled::Refuse { code, reason },
        Asked::Part { source, name } => match part(format, name.as_str()) {
            Some((index, content_type)) => Handled::Part { source, name, index, content_type },
            None => Handled::Refuse { code: 404, reason: "Not Found" },
        },
    }
}

/// What is to be done before a part is sent.
#[derive(Debug, Clone, Copy, PartialEq, Eq, Structural)]
pub enum Readiness {
    /// Make the presentation, unless it is there.
    MakeReady,
    Send,
    /// No presentation was made, so nobody was told of this part.
    NotFound,
}

/// What is to be done before a part is sent: only a request for the index makes a presentation.
pub fn readiness(index: bool, present: bool) -> (r: Readiness)
    ensures
        r == (if index {
            Readiness::MakeReady
        } else if present {
            Readiness::Send
        } else {
            Readiness::NotFound
        }),
{
    if index {
        Readiness::MakeReady
    } else if present {
        Readiness::Send
    } else {
        Readiness::NotFound
    }
}

/// Without a paired token nothing of a presentation is handed out, and with one nothing that is not
/// a part by its name.
pub proof fn parts_need_a_token_and_a_name(
    format: Format,
    method: Seq<char>,
    rest: Seq<char>,
    tokens: Set<Seq<char>>,
)
    ensures
        match handled(format, method, rest, tokens) {
            Handling::Part { name, .. } => {
                &&& split_at_first(rest, '/') is Some
                &&& tokens.contains((split_at_first(rest, '/')->0).0)
                &&& part_named(format, name) is Some
                &&& !name.contains('/')
            },
            Handling::Refuse(..) => true,
        },
{
    match wanted(method, rest, tokens) {
        Wanted::Part { name, .. } => {
            if part_named(format, name) is Some {
                match format {
                    Format::Hls => hls::artifact_names_stay_inside(name),
                    Format::Dash => dash::artifact_names_stay_inside(name),
                }
            }
        },
        Wanted::Refuse(..) => {},
    }
}

/// Whole seconds after the Unix epoch; zero for a time before it.
pub open spec fn unix_secs(t: int) -> u64 {
    if t >= 0 {
        (t / 1_000_000_000) as u64
    } else {
        0
    }
}

/// What a cache key is the digest of: the source's path, size and time of change.
pub open spec fn key_input(source: Seq<char>, size: u64, mtime: int) -> Seq<u8> {
    encode_utf8(source) + spec_u64_to_le_bytes(size) + spec_u64_to_le_bytes(unix_secs(mtime))
}

/// The cache key of a source. A file replaced under the same path has another size or time of
/// change, and so another key.
pub fn cache_key(source: &str, size: u64, mtime: i128) -> (r: String)
    requires
        tellable(mtime as int),
    ensures
        r@ == hex(sha256_of(key_input(source@, size, mtime as int))),
        r@.len() == 64,
{
    let secs: u64 = if mtime >= 0 {
        (mtime / 1_000_000_000) as u64
    } else {
        0
    };
    let mut input: Vec<u8> = source.as_bytes_vec();
    let mut a = u64_to_le_bytes(size);
    let mut b = u64_to_le_bytes(secs);
    input.append(&mut a);
    input.append(&mut b);
    assert(input@ =~= key_input(source@, size, mtime as int));
    let digest = sha256(input.as_slice());
    proof {
        crate::remote::pairing::hex_is_lowercase(digest@);
    }
    hex_text(digest.as_slice())
}

/// A source whose size or whole second of change is another has another input to its key.
pub proof fn a_replaced_source_is_told_apart(
    source: Seq<char>,
    size: u64,
    mtime: int,
    other_size: u64,
    other_mtime: int,
)
    requires
        size != other_size || unix_secs(mtime) != unix_secs(other_mtime),
    ensures
        key_input(source, size, mtime) != key_input(source, other_size, other_mtime),
{
    lemma_auto_spec_u64_to_from_le_bytes();
    let a = key_input(source, size, mtime);
    let b = key_input(source, other_size, other_mtime);
    let n = encode_utf8(source).len() as int;
    let x = spec_u64_to_le_bytes(size);
    let y = spec_u64_to_le_bytes(unix_secs(mtime));
    let p = spec_u64_to_le_bytes(other_size);
    let q = spec_u64_to_le_bytes(unix_secs(other_mtime));
    if a == b {
        assert(a.subrange(n, n + 8) =~= x);
        assert(b.subrange(n, n + 8) =~= p);
        assert(a.subrange(n + 8, n + 16) =~= y);
        assert(b.subrange(n + 8, n + 16) =~= q);
    }
}

/// Whether a directory's name is that of an unfinished generation.
pub open spec fn unfinished(name: Seq<char>) -> bool {
    ".building-"@.is_prefix_of(name)
}

/// Whether a directory's name is that of an unfinished generation. At the start of the server every
/// such directory is debris.
pub fn is_building(name: &str) -> (r: bool)
    ensures
        r == unfinished(name@),
{
    starts_with(name, ".building-")
}

/// The time from `then` to `now`; none when `then` lies ahead.
pub open spec fn age(then: int, now: int) -> int {
    if now >= then {
        now - then
    } else {
        0
    }
}

/// Whether a directory is an unfinished generation older than `grace`: too old to be still going on.
pub fn is_orphaned(name: &str, modified: i128, now: i128, grace: u64) -> (r: bool)
    requires
        tellable(modified as int),
        tellable(now as int),
    ensures
        r == (unfinished(name@) && age(modified as int, now as int) > grace),
{
    is_building(name) && now >= modified && now - modified > grace as i128
}

/// A finished entry of the cache.
#[derive(Debug, Clone, PartialEq)]
pub struct CacheEntry {
    pub key: String,
    pub size: u64,
    /// When it was last used, in nanoseconds since the Unix epoch.
    pub last_used: i128,
}

/// A finished entry of the cache.
pub struct Entry {
    pub key: Seq<char>,
    pub size: u64,
    pub last_used: i128,
}

impl CacheEntry {
    /// The entry.
    pub open spec fn content(self) -> Entry {
        Entry { key: self.key@, size: self.size, last_used: self.last_used }
    }

    fn copy(&self) -> (r: Self)
        ensures
            r.content() == self.content(),
    {
        CacheEntry { key: self.key.clone(), size: self.size, last_used: self.last_used }
    }
}

/// The entries.
pub open spec fn entries_view(e: Seq<CacheEntry>) -> Seq<Entry> {
    Seq::new(e.len(), |i: int| e[i].content())
}

/// Whether an entry goes for its age: it went unused too long, and nobody reads it.
pub open spec fn aged_out(e: Entry, now: int, readers: Set<Seq<char>>) -> bool {
    age(e.last_used as int, now) > CACHE_MAX_AGE && !readers.contains(e.key)
}

/// The keys of the entries that go for their age, in order.
pub open spec fn aged_keys(e: Seq<Entry>, now: int, readers: Set<Seq<char>>) -> Seq<Seq<char>>
    decreases e.len(),
{
    if e.len() == 0 {
        Seq::empty()
    } else {
        let rest = aged_keys(e.drop_last(), now, readers);
        if aged_out(e.last(), now, readers) {
            rest.push(e.last().key)
        } else {
            rest
        }
    }
}

/// The first index at or after `i` that was not used before `t`.
pub open spec fn used_slot(e: Seq<Entry>, t: int, i: int) -> int
    decreases e.len() - i,
{
    if i < 0 || i >= e.len() {
        e.len() as int
    } else if e[i].last_used < t {
        used_slot(e, t, i + 1)
    } else {
        i
    }
}

/// The entries from the `k`-th on that do not go for their age, the least recently used first.
pub open spec fn by_last_use(e: Seq<Entry>, k: int, now: int, readers: Set<Seq<char>>) -> Seq<Entry>
    decreases e.len() - k,
{
    if k < 0 || k >= e.len() {
        Seq::empty()
    } else {
        let rest = by_last_use(e, k + 1, now, readers);
        if aged_out(e[k], now, readers) {
            rest
        } else {
            rest.insert(used_slot(rest, e[k].last_used as int, 0), e[k])
        }
    }
}

/// How much the entries take up together.
pub open spec fn total_size(e: Seq<Entry>) -> nat
    decreases e.len(),
{
    if e.len() == 0 {
        0
    } else {
        total_size(e.drop_last()) + e.last().size as nat
    }
}

/// The keys of the entries from the `i`-th on that go for want of room, given how much is taken up:
/// one after the other until the rest fits, passing over those that are being read.
pub open spec fn crowded_keys(e: Seq<Entry>, i: int, taken: int, readers: Set<Seq<char>>) -> Seq<
    Seq<char>,
>
    decreases e.len() - i,
{
    if i < 0 || i >= e.len() || taken <= CACHE_MAX_BYTES {
        Seq::empty()
    } else if readers.contains(e[i].key) {
        crowded_keys(e, i + 1, taken, readers)
    } else {
        seq![e[i].key] + crowded_keys(e, i + 1, taken - e[i].size, readers)
    }
}

/// The keys of the entries that go, in order.
pub open spec fn evicted(e: Seq<Entry>, now: int, readers: Set<Seq<char>>) -> Seq<Seq<char>> {
    let rest = by_last_use(e, 0, now, readers);
    aged_keys(e, now, readers) + crowded_keys(rest, 0, total_size(rest) as int, readers)
}

proof fn total_size_insert(e: Seq<Entry>, p: int, x: Entry)
    requires
        0 <= p <= e.len(),
    ensures
        total_size(e.insert(p, x)) == total_size(e) + x.size,
    decreases e.len(),
{
    let w = e.insert(p, x);
    if p == e.len() {
        assert(w.drop_last() =~= e);
    } else {
        assert(w.drop_last() =~= e.drop_last().insert(p, x));
        assert(w.last() == e.last());
        total_size_insert(e.drop_last(), p, x);
    }
}

proof fn used_slot_bounds(e: Seq<Entry>, t: int, i: int)
    requires
        0 <= i <= e.len(),
    ensures
        i <= used_slot(e, t, i) <= e.len(),
    decreases e.len() - i,
{
    if i < e.len() && e[i].last_used < t {
        used_slot_bounds(e, t, i + 1);
    }
}

/// Decides which entries go before a new generation starts: those unused too long, then the least
/// recently used until the rest fits. An entry that somebody reads never goes.
pub fn maybe_evict(entries: &Vec<CacheEntry>, readers: &ReaderCounts, now: i128) -> (r: Vec<String>)
    requires
        tellable(now as int),
        forall|i: int| 0 <= i < entries@.len() ==> tellable((#[trigger] entries@[i]).last_used as int),
        readers.wf(),
    ensures
        views(r@) == evicted(entries_view(entries@), now as int, readers.keys()),
{
    let ghost all = entries_view(entries@);
    let ghost held = readers.keys();
    let mut gone: Vec<String> = Vec::new();
    let mut i: usize = 0;
    assert(all.take(0) =~= Seq::<Entry>::empty());
    assert(views(gone@) =~= Seq::<Seq<char>>::empty());
    while i < entries.len()
        invariant
            i <= entries@.len(),
            all == entries_view(entries@),
            readers.wf(),
            held == readers.keys(),
            tellable(now as int),
            forall|k: int|
                0 <= k < entries@.len() ==> tellable((#[trigger] entries@[k]).last_used as int),
            views(gone@) == aged_keys(all.take(i as int), now as int, held),
        decreases entries@.len() - i,
    {
        let ghost known = views(gone@);
        proof {
            assert(all.take(i as int + 1).drop_last() =~= all.take(i as int));
            assert(all.take(i as int + 1).last() == entries@[i as int].content());
            assert(tellable(entries@[i as int].last_used as int));
        }
        let e = &entries[i];
        if now >= e.last_used && now - e.last_used > CACHE_MAX_AGE as i128 && !readers.is_reading(
            e.key.as_str(),
        ) {
            gone.push(e.key.clone());
            assert(views(gone@) =~= known.push(e.key@));
        }
        i += 1;
    }
    assert(all.take(i as int) =~= all);
    let mut rest: Vec<CacheEntry> = Vec::new();
    let mut total: u128 = 0;
    let mut k: usize = entries.len();
    assert(entries_view(rest@) =~= Seq::<Entry>::empty());
    while k > 0
        invariant
            k <= entries@.len(),
            all == entries_view(entries@),
            readers.wf(),
            held == readers.keys(),
            tellable(now as int),
            forall|j: int|
                0 <= j < entries@.len() ==> tellable((#[trigger] entries@[j]).last_used as int),
            entries_view(rest@) == by_last_use(all, k as int, now as int, held),
            rest@.len() <= entries@.len() - k,
            total == total_size(entries_view(rest@)),
            total <= (entries@.len() - k) * 0xffff_ffff_ffff_ffff,
            entries@.len() <= usize::MAX,
        decreases k,
    {
        k -= 1;
        let e = &entries[k];
        let ghost sorted = entries_view(rest@);
        let ghost c = e.content();
        assert(tellable(entries@[k as int].last_used as int));
        assert(all[k as int] == c);
        let goes = now >= e.last_used && now - e.last_used > CACHE_MAX_AGE as i128
            && !readers.is_reading(e.key.as_str());
        if !goes {
            let mut p: usize = 0;
            while p < rest.len() && rest[p].last_used < e.last_used
                invariant
                    p <= rest@.len(),
                    entries_view(rest@) == sorted,
                    c == e.content(),
                    used_slot(sorted, c.last_used as int, 0) == used_slot(
                        sorted,
                        c.last_used as int,
                        p as int,
                    ),
                decreases rest@.len() - p,
            {
                p += 1;
            }
            assert(used_slot(sorted, c.last_used as int, 0) == p) by {
                if p < rest@.len() {
                    assert(sorted[p as int] == rest@[p as int].content());
                }
            }
            proof {
                total_size_insert(sorted, p as int, c);
                let left = entries@.len() - k;
                assert((left - 1) * 0xffff_ffff_ffff_ffff + 0xffff_ffff_ffff_ffff == left
                    * 0xffff_ffff_ffff_ffff) by (nonlinear_arith);
                assert(left * 0xffff_ffff_ffff_ffff <= 0xffff_ffff_ffff_ffff
                    * 0xffff_ffff_ffff_ffff) by (nonlinear_arith)
                    requires
                        0 <= left <= 0xffff_ffff_ffff_ffff,
                ;
            }
            total = total + e.size as u128;
            rest.insert(p, e.copy());
            assert(entries_view(rest@) =~= sorted.insert(p as int, c));
        } else {
            proof {
                let left = entries@.len() - k;
                assert((left - 1) * 0xffff_ffff_ffff_ffff <= left * 0xffff_ffff_ffff_ffff)
                    by (nonlinear_arith)
                    requires
                        left >= 1,
                ;
            }
        }
    }
    let ghost aged = views(gone@);
    let ghost sorted = entries_view(rest@);
    let ghost plan = crowded_keys(sorted, 0, total as int, held);
    let mut j: usize = 0;
    assert(sorted.skip(0) =~= sorted);
    assert(aged + plan =~= views(gone@) + crowded_keys(sorted, 0, total as int, held));
    while j < rest.len() && total > CACHE_MAX_BYTES as u128
        invariant
            j <= rest@.len(),
            sorted == entries_view(rest@),
            readers.wf(),
            held == readers.keys(),
            total == total_size(sorted.skip(j as int)) + held_back(sorted, j as int, held),
            aged + plan == views(gone@) + crowded_keys(sorted, j as int, total as int, held),
        decreases rest@.len() - j,
    {
        let e = &rest[j];
        let ghost known = views(gone@);
        proof {
            assert(sorted[j as int] == e.content());
            total_size_front(sorted.skip(j as int));
            assert(sorted.skip(j as int).skip(1) =~= sorted.skip(j as int + 1));
        }
        if readers.is_reading(e.key.as_str()) {
        } else {
            gone.push(e.key.clone());
            assert(views(gone@) =~= known.push(e.key@));
            total = total - e.size as u128;
            assert(views(gone@) + crowded_keys(sorted, j as int + 1, total as int, held) =~= known
                + (seq![e.key@] + crowded_keys(sorted, j as int + 1, total as int, held)));
        }
        j += 1;
    }
    assert(views(gone@) + crowded_keys(sorted, j as int, total as int, held) =~= views(gone@));
    gone
}

/// How much the entries before the `j`-th that are being read take up.
pub open spec fn held_back(e: Seq<Entry>, j: int, readers: Set<Seq<char>>) -> nat
    decreases j,
{
    if j <= 0 || j > e.len() {
        0
    } else {
        held_back(e, j - 1, readers) + if readers.contains(e[j - 1].key) {
            e[j - 1].size as nat
        } else {
            0
        }
    }
}

proof fn total_size_front(e: Seq<Entry>)
    requires
        e.len() > 0,
    ensures
        total_size(e) == e[0].size + total_size(e.skip(1)),
    decreases e.len(),
{
    if e.len() > 1 {
        total_size_front(e.drop_last());
        assert(e.drop_last().skip(1) =~= e.skip(1).drop_last());
    } else {
        assert(e.skip(1) =~= Seq::<Entry>::empty());
        assert(e.drop_last() =~= Seq::<Entry>::empty());
    }
}

/// How many readers each entry has; an entry nobody reads is not listed.
pub struct ReaderCounts {
    counts: Vec<(String, u32)>,
}

/// The counts by key.
pub open spec fn counts_map(c: Seq<(Seq<char>, u32)>) -> Map<Seq<char>, u32>
    decreases c.len(),
{
    if c.len() == 0 {
        Map::empty()
    } else {
        counts_map(c.drop_last()).insert(c.last().0, c.last().1)
    }
}

impl ReaderCounts {
    /// The keys and counts, in the order in which they came up.
    pub closed spec fn list(&self) -> Seq<(Seq<char>, u32)> {
        Seq::new(self.counts@.len(), |i: int| (self.counts@[i].0@, self.counts@[i].1))
    }

    /// The counts by key.
    pub open spec fn map(&self) -> Map<Seq<char>, u32> {
        counts_map(self.list())
    }

    /// The keys that somebody reads.
    pub open spec fn keys(&self) -> Set<Seq<char>> {
        self.map().dom()
    }

    /// Each key is listed once, with a count above zero.
    pub open spec fn wf(&self) -> bool {
        &&& forall|i: int, j: int|
            0 <= i < j < self.list().len() ==> (#[trigger] self.list()[i]).0 != (
            #[trigger] self.list()[j]).0
        &&& forall|i: int| 0 <= i < self.list().len() ==> (#[trigger] self.list()[i]).1 > 0
    }

    pub fn new() -> (r: Self)
        ensures
            r.wf(),
            r.map() == Map::<Seq<char>, u32>::empty(),
    {
        let r = ReaderCounts { counts: Vec::new() };
        assert(r.list() =~= Seq::<(Seq<char>, u32)>::empty());
        r
    }

    /// Where a key is listed; the number of keys when it is not.
    fn position(&self, key: &str) -> (r: usize)
        requires
            self.wf(),
        ensures
            r <= self.list().len(),
            self.list().len() == self.counts@.len(),
            r < self.list().len() ==> self.list()[r as int].0 == key@ && self.map().contains_key(key@)
                && self.map()[key@] == self.list()[r as int].1,
            r == self.list().len() ==> !self.map().contains_key(key@) && forall|i: int|
                0 <= i < self.list().len() ==> (#[trigger] self.list()[i]).0 != key@,
    {
        let mut i: usize = 0;
        while i < self.counts.len()
            invariant
                self.wf(),
                i <= self.counts@.len(),
                forall|k: int| 0 <= k < i ==> (#[trigger] self.list()[k]).0 != key@,
            decreases self.counts@.len() - i,
        {
            assert(self.list()[i as int] == (self.counts@[i as int].0@, self.counts@[i as int].1));
            if same(self.counts[i].0.as_str(), key) {
                proof {
                    counts_map_at(self.list(), i as int);
                }
                return i;
            }
            i += 1;
        }
        proof {
            counts_map_without(self.list(), key@);
        }
        i
    }

    /// Whether somebody reads the entry `key`.
    pub fn is_reading(&self, key: &str) -> (r: bool)
        requires
            self.wf(),
        ensures
            r == self.keys().contains(key@),
    {
        self.position(key) < self.counts.len()
    }

    /// How many readers the entry `key` has.
    pub fn readers_of(&self, key: &str) -> (r: u32)
        requires
            self.wf(),
        ensures
            r == (if self.map().contains_key(key@) {
                self.map()[key@]
            } else {
                0
            }),
    {
        let p: usize = self.position(key);
        if p < self.counts.len() {
            assert(self.list()[p as int] == (self.counts@[p as int].0@, self.counts@[p as int].1));
            self.counts[p].1
        } else {
            0
        }
    }

    /// Counts one more reader of the entry `key`.
    pub fn acquire(&mut self, key: &str)
        requires
            old(self).wf(),
            old(self).map().contains_key(key@) ==> old(self).map()[key@] < u32::MAX,
        ensures
            final(self).wf(),
            final(self).map() == old(self).map().insert(
                key@,
                (if old(self).map().contains_key(key@) {
                    old(self).map()[key@] + 1
                } else {
                    1
                }) as u32,
            ),
    {
        let p: usize = self.position(key);
        let ghost was = self.list();
        if p < self.counts.len() {
            let n: u32 = self.counts[p].1 + 1;
            self.counts.set(p, (owned(key), n));
            proof {
                assert(self.list() =~= was.update(p as int, (key@, n)));
                counts_map_update(was, p as int, n);
                assert forall|i: int, j: int| 0 <= i < j < self.list().len() implies (
                #[trigger] self.list()[i]).0 != (#[trigger] self.list()[j]).0 by {
                    assert(was[i].0 != was[j].0);
                }
                assert forall|i: int| 0 <= i < self.list().len() implies (
                #[trigger] self.list()[i]).1 > 0 by {
                    assert(was[i].1 > 0);
                }
            }
        } else {
            self.counts.push((owned(key), 1));
            proof {
                assert(self.list() =~= was.push((key@, 1u32)));
                assert(self.list().drop_last() =~= was);
                assert forall|i: int, j: int| 0 <= i < j < self.list().len() implies (
                #[trigger] self.list()[i]).0 != (#[trigger] self.list()[j]).0 by {
                    assert(was[i].0 != key@);
                    if j < was.len() {
                        assert(was[i].0 != was[j].0);
                    }
                }
                assert forall|i: int| 0 <= i < self.list().len() implies (
                #[trigger] self.list()[i]).1 > 0 by {
                    if i < was.len() {
                        assert(was[i].1 > 0);
                    }
                }
            }
        }
    }

    /// Counts one reader of the entry `key` less; the last one takes the entry off the list.
    pub fn release(&mut self, key: &str)
        requires
            old(self).wf(),
        ensures
            final(self).wf(),
            final(self).map() == (if !old(self).map().contains_key(key@) {
                old(self).map()
            } else if old(self).map()[key@] <= 1 {
                old(self).map().remove(key@)
            } else {
                old(self).map().insert(key@, (old(self).map()[key@] - 1) as u32)
            }),
    {
        let p: usize = self.position(key);
        let ghost was = self.list();
        if p >= self.counts.len() {
            return;
        }
        assert(was[p as int].1 > 0);
        let n: u32 = self.counts[p].1 - 1;
        if n == 0 {
            self.counts.remove(p);
            proof {
                assert(self.list() =~= was.remove(p as int));
                counts_map_remove(was, p as int);
                assert forall|i: int, j: int| 0 <= i < j < self.list().len() implies (
                #[trigger] self.list()[i]).0 != (#[trigger] self.list()[j]).0 by {
                    let a = if i < p {
                        i
                    } else {
                        i + 1
                    };
                    let b = if j < p {
                        j
                    } else {
                        j + 1
                    };
                    assert(was[a].0 != was[b].0);
                }
                assert forall|i: int| 0 <= i < self.list().len() implies (
                #[trigger] self.list()[i]).1 > 0 by {
                    assert(was[if i < p {
                        i
                    } else {
                        i + 1
                    }].1 > 0);
                }
            }
        } else {
            self.counts.set(p, (owned(key), n));
            proof {
                assert(self.list() =~= was.update(p as int, (key@, n)));
                counts_map_update(was, p as int, n);
                assert forall|i: int, j: int| 0 <= i < j < self.list().len() implies (
                #[trigger] self.list()[i]).0 != (#[trigger] self.list()[j]).0 by {
                    assert(was[i].0 != was[j].0);
                }
                assert forall|i: int| 0 <= i < self.list().len() implies (
                #[trigger] self.list()[i]).1 > 0 by {
                    assert(was[i].1 > 0);
                }
            }
        }
    }
}

/// Whether no key is listed twice.
spec fn distinct(c: Seq<(Seq<char>, u32)>) -> bool {
    forall|i: int, j: int| 0 <= i < j < c.len() ==> (#[trigger] c[i]).0 != (#[trigger] c[j]).0
}

proof fn distinct_front(c: Seq<(Seq<char>, u32)>)
    requires
        distinct(c),
        c.len() > 0,
    ensures
        distinct(c.drop_last()),
{
    let d = c.drop_last();
    assert forall|i: int, j: int| 0 <= i < j < d.len() implies (#[trigger] d[i]).0 != (
    #[trigger] d[j]).0 by {
        assert(c[i].0 != c[j].0);
    }
}

proof fn counts_map_without(c: Seq<(Seq<char>, u32)>, key: Seq<char>)
    requires
        forall|i: int| 0 <= i < c.len() ==> (#[trigger] c[i]).0 != key,
    ensures
        !counts_map(c).contains_key(key),
    decreases c.len(),
{
    if c.len() > 0 {
        let d = c.drop_last();
        assert forall|i: int| 0 <= i < d.len() implies (#[trigger] d[i]).0 != key by {
            assert(c[i].0 != key);
        }
        counts_map_without(d, key);
        assert(c[c.len() - 1].0 != key);
    }
}

proof fn counts_map_at(c: Seq<(Seq<char>, u32)>, p: int)
    requires
        0 <= p < c.len(),
        distinct(c),
    ensures
        counts_map(c).contains_key(c[p].0),
        counts_map(c)[c[p].0] == c[p].1,
    decreases c.len(),
{
    if p < c.len() - 1 {
        distinct_front(c);
        counts_map_at(c.drop_last(), p);
        assert(c[p].0 != c[c.len() - 1].0);
    }
}

proof fn counts_map_update(c: Seq<(Seq<char>, u32)>, p: int, n: u32)
    requires
        0 <= p < c.len(),
        distinct(c),
    ensures
        counts_map(c.update(p, (c[p].0, n))) == counts_map(c).insert(c[p].0, n),
    decreases c.len(),
{
    let key = c[p].0;
    let w = c.update(p, (key, n));
    if p == c.len() - 1 {
        assert(w.drop_last() =~= c.drop_last());
        assert(counts_map(w) =~= counts_map(c).insert(key, n));
    } else {
        distinct_front(c);
        assert(w.drop_last() =~= c.drop_last().update(p, (key, n)));
        counts_map_update(c.drop_last(), p, n);
        assert(c[p].0 != c[c.len() - 1].0);
        assert(counts_map(w) =~= counts_map(c).insert(key, n));
    }
}

proof fn counts_map_remove(c: Seq<(Seq<char>, u32)>, p: int)
    requires
        0 <= p < c.len(),
        distinct(c),
    ensures
        counts_map(c.remove(p)) == counts_map(c).remove(c[p].0),
    decreases c.len(),
{
    let key = c[p].0;
    let w = c.remove(p);
    if p == c.len() - 1 {
        assert(w =~= c.drop_last());
        let d = c.drop_last();
        assert forall|i: int| 0 <= i < d.len() implies (#[trigger] d[i]).0 != key by {
            assert(c[i].0 != c[p].0);
        }
        counts_map_without(d, key);
        assert(counts_map(w) =~= counts_map(c).remove(key));
    } else {
        distinct_front(c);
        assert(w.drop_last() =~= c.drop_last().remove(p));
        counts_map_remove(c.drop_last(), p);
        assert(c[p].0 != c[c.len() - 1].0);
        assert(w.last() == c.last());
        assert(counts_map(w) =~= counts_map(c).remove(key));
    }
}

proof fn aged_keys_are_unread(e: Seq<Entry>, now: int, readers: Set<Seq<char>>)
    ensures
        forall|i: int|
            0 <= i < aged_keys(e, now, readers).len() ==> !readers.contains(
                #[trigger] aged_keys(e, now, readers)[i],
            ),
    decreases e.len(),
{
    if e.len() > 0 {
        aged_keys_are_unread(e.drop_last(), now, readers);
        let rest = aged_keys(e.drop_last(), now, readers);
        let all = aged_keys(e, now, readers);
        assert forall|i: int| 0 <= i < all.len() implies !readers.contains(#[trigger] all[i]) by {
            if i < rest.len() {
                assert(all[i] == rest[i]);
            }
        }
    }
}

proof fn crowded_keys_are_unread(e: Seq<Entry>, i: int, taken: int, readers: Set<Seq<char>>)
    requires
        0 <= i <= e.len(),
    ensures
        forall|k: int|
            0 <= k < crowded_keys(e, i, taken, readers).len() ==> !readers.contains(
                #[trigger] crowded_keys(e, i, taken, readers)[k],
            ),
    decreases e.len() - i,
{
    if i < e.len() && taken > CACHE_MAX_BYTES {
        let all = crowded_keys(e, i, taken, readers);
        if readers.contains(e[i].key) {
            crowded_keys_are_unread(e, i + 1, taken, readers);
            let rest = crowded_keys(e, i + 1, taken, readers);
            assert(all == rest);
            assert forall|k: int| 0 <= k < all.len() implies !readers.contains(#[trigger] all[k]) by {
                assert(!readers.contains(rest[k]));
            }
        } else {
            crowded_keys_are_unread(e, i + 1, taken - e[i].size, readers);
            let rest = crowded_keys(e, i + 1, taken - e[i].size, readers);
            assert forall|k: int| 0 <= k < all.len() implies !readers.contains(#[trigger] all[k]) by {
                if k > 0 {
                    assert(all[k] == rest[k - 1]);
                }
            }
        }
    }
}

/// An entry that somebody reads is never evicted, however old it is and however full the cache.
pub proof fn readers_are_never_evicted(e: Seq<Entry>, now: int, readers: Set<Seq<char>>)
    ensures
        forall|i: int|
            0 <= i < evicted(e, now, readers).len() ==> !readers.contains(
                #[trigger] evicted(e, now, readers)[i],
            ),
{
    let rest = by_last_use(e, 0, now, readers);
    let a = aged_keys(e, now, readers);
    let c = crowded_keys(rest, 0, total_size(rest) as int, readers);
    aged_keys_are_unread(e, now, readers);
    crowded_keys_are_unread(rest, 0, total_size(rest) as int, readers);
    let all = evicted(e, now, readers);
    assert forall|i: int| 0 <= i < all.len() implies !readers.contains(#[trigger] all[i]) by {
        if i < a.len() {
            assert(all[i] == a[i]);
        } else {
            assert(all[i] == c[i - a.len()]);
        }
    }
}

/// How much is taken up once the entries from the `i`-th on have made what room they can.
pub open spec fn taken_after(e: Seq<Entry>, i: int, taken: int, readers: Set<Seq<char>>) -> int
    decreases e.len() - i,
{
    if i < 0 || i >= e.len() || taken <= CACHE_MAX_BYTES {
        taken
    } else if readers.contains(e[i].key) {
        taken_after(e, i + 1, taken, readers)
    } else {
        taken_after(e, i + 1, taken - e[i].size, readers)
    }
}

/// Eviction makes room: what stays fits, or nothing is left but what is being read.
pub proof fn eviction_makes_room(e: Seq<Entry>, i: int, taken: int, readers: Set<Seq<char>>)
    requires
        0 <= i <= e.len(),
        taken == total_size(e.skip(i)) + held_back(e, i, readers),
    ensures
        taken_after(e, i, taken, readers) <= CACHE_MAX_BYTES || taken_after(e, i, taken, readers)
            == held_back(e, e.len() as int, readers),
    decreases e.len() - i,
{
    if i < e.len() {
        if taken > CACHE_MAX_BYTES {
            total_size_front(e.skip(i));
            assert(e.skip(i).skip(1) =~= e.skip(i + 1));
            if readers.contains(e[i].key) {
                eviction_makes_room(e, i + 1, taken, readers);
            } else {
                eviction_makes_room(e, i + 1, taken - e[i].size, readers);
            }
        }
    } else {
        assert(e.skip(i) =~= Seq::<Entry>::empty());
    }
}

/// What a reader adds to the counts goes again with it.
pub proof fn readers_come_and_go(m: Map<Seq<char>, u32>, key: Seq<char>)
    requires
        m.contains_key(key) ==> 0 < m[key] < u32::MAX,
    ensures
        ({
            let more = m.insert(
                key,
                (if m.contains_key(key) {
                    m[key] + 1
                } else {
                    1
                }) as u32,
            );
            let back = if more[key] <= 1 {
                more.remove(key)
            } else {
                more.insert(key, (more[key] - 1) as u32)
            };
            back == m
        }),
{
    let more = m.insert(
        key,
        (if m.contains_key(key) {
            m[key] + 1
        } else {
            1
        }) as u32,
    );
    let back = if more[key] <= 1 {
        more.remove(key)
    } else {
        more.insert(key, (more[key] - 1) as u32)
    };
    assert(back =~= m);
}

/// Why a generation failed.
#[derive(Debug, Clone, PartialEq)]
pub enum GenError {
    FfmpegNotFound,
    Spawn(String),
    NonZeroExit(String),
    /// The presentation's index is missing: a playlist or a manifest.
    IndexMissing,
    /// Nothing came out: no segments, or no representations.
    NothingProduced,
    /// A representation that the manifest declares is incomplete.
    Incomplete(String),
    TimedOut,
    /// The worker ended without a result.
    WorkerLost,
    VerifyMismatch(&'static str),
    Io(String),
}

/// Which format is delivered.
#[derive(Debug, Clone, Copy, PartialEq, Eq, Structural)]
pub enum Format {
    Hls,
    Dash,
}

/// The status, the line for the log, and what the client is told about a failure.
pub open spec fn failure(format: Format, e: GenError) -> (nat, Seq<char>, Seq<char>) {
    match e {
        GenError::FfmpegNotFound => (
            503,
            "ffmpeg not found"@,
            "ffmpeg is not installed on this server"@,
        ),
        GenError::Spawn(why) => (
            500,
            "failed to start ffmpeg: "@ + why@,
            "failed to start ffmpeg"@,
        ),
        GenError::NonZeroExit(stderr) => (
            500,
            "ffmpeg exited non-zero: "@ + trim(stderr@),
            "segmenting failed"@,
        ),
        GenError::IndexMissing => (
            500,
            match format {
                Format::Hls => "ffmpeg exited successfully but wrote no playlist"@,
                Format::Dash => "ffmpeg exited successfully but wrote no manifest"@,
            },
            "segmenting failed"@,
        ),
        GenError::NothingProduced => match format {
            Format::Hls => (
                500,
                "ffmpeg exited successfully but produced no segments"@,
                "no output segments were produced for this source"@,
            ),
            Format::Dash => (
                500,
                "ffmpeg exited successfully but the manifest named no representations"@,
                "no output representations were produced for this source"@,
            ),
        },
        GenError::Incomplete(why) => (
            500,
            "a representation the manifest declared is incomplete: "@ + why@,
            "segmenting produced an inconsistent result"@,
        ),
        GenError::TimedOut => (
            500,
            "timed out after 1800s waiting for ffmpeg"@,
            "timed out waiting for ffmpeg"@,
        ),
        GenError::WorkerLost => (
            500,
            "the generation thread ended unexpectedly before reporting a result (likely a panic)"@,
            "segmenting failed unexpectedly"@,
        ),
        GenError::VerifyMismatch(why) => (
            500,
            "playlist verification failed: "@ + why@,
            "segmenting produced an inconsistent result"@,
        ),
        GenError::Io(why) => (
            500,
            match format {
                Format::Hls => "i/o error preparing HLS output: "@ + why@,
                Format::Dash => "i/o error preparing DASH output: "@ + why@,
            },
            "internal error"@,
        ),
    }
}

fn followed(head: &str, tail: &str) -> (r: String)
    ensures
        r@ == head@ + tail@,
{
    let mut s = owned(head);
    s.append(tail);
    s
}

/// The status, the line for the log, and what the client is told about a failure.
pub fn describe_failure(format: Format, e: &GenError) -> (r: (u16, String, &'static str))
    ensures
        (r.0 as nat, r.1@, r.2@) == failure(format, *e),
{
    match e {
        GenError::FfmpegNotFound => (
            503,
            owned("ffmpeg not found"),
            "ffmpeg is not installed on this server",
        ),
        GenError::Spawn(why) => (
            500,
            followed("failed to start ffmpeg: ", why.as_str()),
            "failed to start ffmpeg",
        ),
        GenError::NonZeroExit(stderr) => (
            500,
            followed("ffmpeg exited non-zero: ", trim_text(stderr.as_str()).as_str()),
            "segmenting failed",
        ),
        GenError::IndexMissing => (
            500,
            match format {
                Format::Hls => owned("ffmpeg exited successfully but wrote no playlist"),
                Format::Dash => owned("ffmpeg exited successfully but wrote no manifest"),
            },
            "segmenting failed",
        ),
        GenError::NothingProduced => match format {
            Format::Hls => (
                500,
                owned("ffmpeg exited successfully but produced no segments"),
                "no output segments were produced for this source",
            ),
            Format::Dash => (
                500,
                owned("ffmpeg exited successfully but the manifest named no representations"),
                "no output representations were produced for this source",
            ),
        },
        GenError::Incomplete(why) => (
            500,
            followed("a representation the manifest declared is incomplete: ", why.as_str()),
            "segmenting produced an inconsistent result",
        ),
        GenError::TimedOut => (
            500,
            owned("timed out after 1800s waiting for ffmpeg"),
            "timed out waiting for ffmpeg",
        ),
        GenError::WorkerLost => (
            500,
            owned(
                "the generation thread ended unexpectedly before reporting a result (likely a panic)",
            ),
            "segmenting failed unexpectedly",
        ),
        GenError::VerifyMismatch(why) => (
            500,
            followed("playlist verification failed: ", why),
            "segmenting produced an inconsistent result",
        ),
        GenError::Io(why) => (
            500,
            match format {
                Format::Hls => followed("i/o error preparing HLS output: ", why.as_str()),
                Format::Dash => followed("i/o error preparing DASH output: ", why.as_str()),
            },
            "internal error",
        ),
    }
}

/// How far making an entry ready has come.
#[derive(Debug, Clone, PartialEq)]
pub enum Phase {
    /// Looking whether the entry is there.
    Checking,
    /// Waiting for the lock of this entry.
    Locking,
    /// Looking again, with the lock held.
    Rechecking,
    /// Making the directory to build in.
    Preparing,
    /// Waiting for the generation.
    Building,
    /// Checking and rewriting what was generated.
    Verifying,
    /// Making the result visible.
    Publishing,
    Ready,
    Failed(GenError),
}

/// What happened outside.
#[derive(Debug, Clone, PartialEq)]
pub enum Event {
    /// Whether the entry's directory is there.
    Present(bool),
    Locked,
    /// Old entries were evicted. With ffmpeg at hand the directory to build in was made too.
    Prepared { ffmpeg: bool },
    Generated,
    /// The generation reported an error.
    Refused(GenError),
    TimedOut,
    WorkerLost,
    Verified,
    Renamed,
    /// The rename failed; whether the entry's directory is there all the same.
    RenameFailed { present: bool, why: String },
    /// Something could not be read or written.
    Broken(String),
}

/// What is to be done next.
#[derive(Debug, Clone, Copy, PartialEq, Eq, Structural)]
pub enum Action {
    /// Nothing: it is over.
    Stop,
    Look,
    Lock,
    /// Evict what has to go, then, with ffmpeg at hand, make the directory to build in.
    Prepare,
    Generate,
    Verify,
    Rename,
    /// Remove the directory that was built in; then it is over.
    Discard,
    /// Note that the entry was used; then it is over.
    Touch,
}

/// What the next phase is and what is to be done, after an event. An event that a phase does not
/// wait for changes nothing.
pub open spec fn advanced(format: Format, phase: Phase, event: Event) -> (Phase, Action) {
    match (phase, event) {
        (Phase::Checking, Event::Present(true)) => (Phase::Ready, Action::Stop),
        (Phase::Checking, Event::Present(false)) => (Phase::Locking, Action::Lock),
        (Phase::Locking, Event::Locked) => (Phase::Rechecking, Action::Look),
        (Phase::Rechecking, Event::Present(true)) => (Phase::Ready, Action::Stop),
        (Phase::Rechecking, Event::Present(false)) => (Phase::Preparing, Action::Prepare),
        (Phase::Preparing, Event::Prepared { ffmpeg: true }) => (Phase::Building, Action::Generate),
        (Phase::Preparing, Event::Prepared { ffmpeg: false }) => (
            Phase::Failed(GenError::FfmpegNotFound),
            Action::Stop,
        ),
        (Phase::Preparing, Event::Broken(why)) => (Phase::Failed(GenError::Io(why)), Action::Stop),
        (Phase::Building, Event::Generated) => if format == Format::Hls {
            (Phase::Verifying, Action::Verify)
        } else {
            (Phase::Publishing, Action::Rename)
        },
        (Phase::Building, Event::Refused(e)) => (Phase::Failed(e), Action::Discard),
        (Phase::Building, Event::TimedOut) => (Phase::Failed(GenError::TimedOut), Action::Stop),
        (Phase::Building, Event::WorkerLost) => (
            Phase::Failed(GenError::WorkerLost),
            Action::Discard,
        ),
        (Phase::Verifying, Event::Verified) => (Phase::Publishing, Action::Rename),
        (Phase::Verifying, Event::Refused(e)) => (Phase::Failed(e), Action::Discard),
        (Phase::Verifying, Event::Broken(why)) => (
            Phase::Failed(GenError::Io(why)),
            Action::Discard,
        ),
        (Phase::Publishing, Event::Renamed) => (Phase::Ready, Action::Touch),
        (Phase::Publishing, Event::RenameFailed { present: true, why }) => (
            Phase::Ready,
            Action::Discard,
        ),
        (Phase::Publishing, Event::RenameFailed { present: false, why }) => (
            Phase::Failed(GenError::Io(why)),
            Action::Discard,
        ),
        (p, _) => (p, Action::Stop),
    }
}

/// Makes one step towards an entry that is ready to be served. Generation is lazy, and happens once
/// for all who ask for the same source.
pub fn advance(format: Format, phase: Phase, event: Event) -> (r: (Phase, Action))
    ensures
        r == advanced(format, phase, event),
{
    match (phase, event) {
        (Phase::Checking, Event::Present(true)) => (Phase::Ready, Action::Stop),
        (Phase::Checking, Event::Present(false)) => (Phase::Locking, Action::Lock),
        (Phase::Locking, Event::Locked) => (Phase::Rechecking, Action::Look),
        (Phase::Rechecking, Event::Present(true)) => (Phase::Ready, Action::Stop),
        (Phase::Rechecking, Event::Present(false)) => (Phase::Preparing, Action::Prepare),
        (Phase::Preparing, Event::Prepared { ffmpeg: true }) => (Phase::Building, Action::Generate),
        (Phase::Preparing, Event::Prepared { ffmpeg: false }) => (
            Phase::Failed(GenError::FfmpegNotFound),
            Action::Stop,
        ),
        (Phase::Preparing, Event::Broken(why)) => (Phase::Failed(GenError::Io(why)), Action::Stop),
        (Phase::Building, Event::Generated) => if format == Format::Hls {
            (Phase::Verifying, Action::Verify)
        } else {
            (Phase::Publishing, Action::Rename)
        },
        (Phase::Building, Event::Refused(e)) => (Phase::Failed(e), Action::Discard),
        (Phase::Building, Event::TimedOut) => (Phase::Failed(GenError::TimedOut), Action::Stop),
        (Phase::Building, Event::WorkerLost) => (
            Phase::Failed(GenError::WorkerLost),
            Action::Discard,
        ),
        (Phase::Verifying, Event::Verified) => (Phase::Publishing, Action::Rename),
        (Phase::Verifying, Event::Refused(e)) => (Phase::Failed(e), Action::Discard),
        (Phase::Verifying, Event::Broken(why)) => (
            Phase::Failed(GenError::Io(why)),
            Action::Discard,
        ),
        (Phase::Publishing, Event::Renamed) => (Phase::Ready, Action::Touch),
        (Phase::Publishing, Event::RenameFailed { present: true, why }) => (
            Phase::Ready,
            Action::Discard,
        ),
        (Phase::Publishing, Event::RenameFailed { present: false, why }) => (
            Phase::Failed(GenError::Io(why)),
            Action::Discard,
        ),
        (p, _) => (p, Action::Stop),
    }
}

/// Whether a directory that was built in exists in this phase.
pub open spec fn has_build(p: Phase) -> bool {
    p is Building || p is Verifying || p is Publishing
}

/// No build directory is left behind: whenever the course ends after building began, the directory
/// was renamed into place or is discarded. The one exception is a generation that timed out, which
/// may still be writing there.
pub proof fn builds_are_cleaned_up(format: Format, phase: Phase, event: Event)
    requires
        has_build(phase),
    ensures
        ({
            let (next, action) = advanced(format, phase, event);
            next is Failed ==> action == Action::Discard || next == Phase::Failed(
                GenError::TimedOut,
            )
        }),
        ({
            let (next, action) = advanced(format, phase, event);
            next is Ready ==> action == Action::Discard || event is Renamed
        }),
{
}

/// Nothing is served before it was checked: an HLS presentation that was generated is published only
/// after its verification.
pub proof fn nothing_unverified_is_published(phase: Phase, event: Event)
    ensures
        advanced(Format::Hls, phase, event).0 is Publishing ==> (phase is Verifying
            && event is Verified) || phase is Publishing,
{
}

proof fn used_slot_is_first(e: Seq<Entry>, t: int, i: int)
    requires
        0 <= i <= e.len(),
    ensures
        i <= used_slot(e, t, i) <= e.len(),
        forall|k: int| i <= k < used_slot(e, t, i) ==> (#[trigger] e[k]).last_used < t,
        used_slot(e, t, i) < e.len() ==> e[used_slot(e, t, i)].last_used >= t,
    decreases e.len() - i,
{
    if i < e.len() && e[i].last_used < t {
        used_slot_is_first(e, t, i + 1);
    }
}

/// What does not go for its age is all kept in view for want of room, each entry once, and those that
/// went unused longest come first.
pub proof fn the_longest_unused_come_first(
    e: Seq<Entry>,
    k: int,
    now: int,
    readers: Set<Seq<char>>,
)
    requires
        0 <= k <= e.len(),
    ensures
        forall|i: int, j: int|
            0 <= i < j < by_last_use(e, k, now, readers).len() ==> (#[trigger] by_last_use(
                e,
                k,
                now,
                readers,
            )[i]).last_used <= (#[trigger] by_last_use(e, k, now, readers)[j]).last_used,
        by_last_use(e, k, now, readers).to_multiset() == e.skip(k).filter(
            |x: Entry| !aged_out(x, now, readers),
        ).to_multiset(),
    decreases e.len() - k,
{
    broadcast use vstd::seq_lib::group_to_multiset_ensures;

    let stays = |x: Entry| !aged_out(x, now, readers);
    let all = by_last_use(e, k, now, readers);
    if k < e.len() {
        let rest = by_last_use(e, k + 1, now, readers);
        the_longest_unused_come_first(e, k + 1, now, readers);
        let tail = e.skip(k + 1);
        assert(e.skip(k) =~= seq![e[k]] + tail);
        Seq::filter_distributes_over_add(seq![e[k]], tail, stays);
        let one = seq![e[k]];
        assert(one.filter(stays) == (if stays(e[k]) {
            one
        } else {
            Seq::<Entry>::empty()
        })) by {
            reveal(Seq::filter);
            assert(one.drop_last() =~= Seq::<Entry>::empty());
            assert(Seq::<Entry>::empty().filter(stays) =~= Seq::<Entry>::empty());
            assert(Seq::<Entry>::empty().push(e[k]) =~= one);
        }
        let kept = tail.filter(stays);
        if aged_out(e[k], now, readers) {
            assert(Seq::<Entry>::empty() + kept =~= kept);
        } else {
            let p = used_slot(rest, e[k].last_used as int, 0);
            used_slot_is_first(rest, e[k].last_used as int, 0);
            vstd::seq_lib::to_multiset_insert(rest, p, e[k]);
            assert(one + kept =~= kept.insert(0, e[k]));
            vstd::seq_lib::to_multiset_insert(kept, 0, e[k]);
            assert forall|i: int, j: int| 0 <= i < j < all.len() implies (
            #[trigger] all[i]).last_used <= (#[trigger] all[j]).last_used by {
                if i < p && j > p {
                    assert(rest[i].last_used <= rest[j - 1].last_used);
                } else if j < p {
                    assert(rest[i].last_used <= rest[j].last_used);
                } else if i > p {
                    assert(rest[i - 1].last_used <= rest[j - 1].last_used);
                } else if i == p {
                    if p < j - 1 {
                        assert(rest[p].last_used <= rest[j - 1].last_used);
                    }
                }
            }
        }
    } else {
        assert(e.skip(k) =~= Seq::<Entry>::empty());
        reveal(Seq::filter);
        assert(e.skip(k).filter(stays) =~= all);
    }
}

/// The keys of those of the entries that nobody reads, in order.
pub open spec fn unread_keys(e: Seq<Entry>, readers: Set<Seq<char>>) -> Seq<Seq<char>> {
    e.filter(|x: Entry| !readers.contains(x.key)).map_values(|x: Entry| x.key)
}

/// For want of room the entries go from the front on, all that nobody reads up to some place, and no
/// other: none goes while one that nobody reads and that went unused longer stays. None goes at all
/// where there is room.
pub proof fn room_is_made_from_the_front(
    e: Seq<Entry>,
    i: int,
    taken: int,
    readers: Set<Seq<char>>,
)
    requires
        0 <= i <= e.len(),
    ensures
        taken <= CACHE_MAX_BYTES ==> crowded_keys(e, i, taken, readers).len() == 0,
        exists|n: int|
            i <= n <= e.len() && crowded_keys(e, i, taken, readers) == unread_keys(
                #[trigger] e.subrange(i, n),
                readers,
            ) && (n == e.len() || taken_after(e, i, taken, readers) <= CACHE_MAX_BYTES),
    decreases e.len() - i,
{
    let unread = |x: Entry| !readers.contains(x.key);
    let key = |x: Entry| x.key;
    if i >= e.len() || taken <= CACHE_MAX_BYTES {
        let none = e.subrange(i, i);
        assert(none =~= Seq::<Entry>::empty());
        reveal(Seq::filter);
        assert(none.filter(unread).map_values(key) =~= Seq::<Seq<char>>::empty());
        assert(crowded_keys(e, i, taken, readers) == unread_keys(e.subrange(i, i), readers));
    } else {
        let left = if readers.contains(e[i].key) {
            taken
        } else {
            taken - e[i].size
        };
        room_is_made_from_the_front(e, i + 1, left, readers);
        let n = choose|n: int|
            i + 1 <= n <= e.len() && crowded_keys(e, i + 1, left, readers) == unread_keys(
                #[trigger] e.subrange(i + 1, n),
                readers,
            ) && (n == e.len() || taken_after(e, i + 1, left, readers) <= CACHE_MAX_BYTES);
        let one = seq![e[i]];
        let tail = e.subrange(i + 1, n);
        assert(e.subrange(i, n) =~= one + tail);
        Seq::filter_distributes_over_add(one, tail, unread);
        assert(one.filter(unread) == (if unread(e[i]) {
            one
        } else {
            Seq::<Entry>::empty()
        })) by {
            reveal(Seq::filter);
            assert(one.drop_last() =~= Seq::<Entry>::empty());
            assert(Seq::<Entry>::empty().filter(unread) =~= Seq::<Entry>::empty());
            assert(Seq::<Entry>::empty().push(e[i]) =~= one);
        }
        assert(crowded_keys(e, i, taken, readers) =~= unread_keys(e.subrange(i, n), readers));
    }
}

/// What goes for its age are exactly the entries that went unused longer than the cache keeps them and
/// that nobody reads; an entry that was just used does not, and one that does keeps doing so.
pub proof fn old_entries_go(e: Seq<Entry>, now: int, later: int, readers: Set<Seq<char>>, x: Entry)
    requires
        now <= later,
    ensures
        aged_keys(e, now, readers) == e.filter(
            |x: Entry| now - x.last_used > CACHE_MAX_AGE && !readers.contains(x.key),
        ).map_values(|x: Entry| x.key),
        aged_out(x, now, readers) ==> aged_out(x, later, readers),
        x.last_used == now ==> !aged_out(x, now, readers),
    decreases e.len(),
{
    reveal(Seq::filter);
    let old_one = |x: Entry| now - x.last_used > CACHE_MAX_AGE && !readers.contains(x.key);
    let key = |x: Entry| x.key;
    if e.len() == 0 {
        assert(e.filter(old_one).map_values(key) =~= Seq::<Seq<char>>::empty());
    } else {
        old_entries_go(e.drop_last(), now, later, readers, x);
        let kept = e.drop_last().filter(old_one);
        assert(aged_out(e.last(), now, readers) == old_one(e.last()));
        assert(kept.push(e.last()).map_values(key) =~= kept.map_values(key).push(e.last().key));
    }
}

/// A request under a paired token asks for the part after the last slash of the source before it,
/// whatever slashes the source's own path holds; under any other token nothing is found out, not even
/// whether there is such a part.
pub proof fn paths_take_apart(
    token: Seq<char>,
    source: Seq<char>,
    name: Seq<char>,
    tokens: Set<Seq<char>>,
)
    requires
        !token.contains('/'),
        !name.contains('/'),
    ensures
        ({
            let rest = token.push('/') + (source.push('/') + name);
            &&& tokens.contains(token) ==> wanted("GET"@, rest, tokens) == (Wanted::Part {
                source,
                name,
            }) && wanted("HEAD"@, rest, tokens) == (Wanted::Part { source, name })
            &&& !tokens.contains(token) ==> wanted("GET"@, rest, tokens) == Wanted::Refuse(
                401,
                "Unauthorized"@,
            )
        }),
        wanted("POST"@, token, tokens) is Refuse,
{
    crate::text::splits_at_the_first(token, source.push('/') + name, '/');
    crate::text::splits_at_the_last(source, name, '/');
}

/// What a client is told of a failure never holds what went wrong inside the server; that is for the
/// log. Only a missing ffmpeg makes the service unavailable; anything else is the server's own error.
pub proof fn clients_are_not_told_why(format: Format, a: String, b: String, e: GenError)
    ensures
        failure(format, GenError::Spawn(a)).2 == failure(format, GenError::Spawn(b)).2,
        failure(format, GenError::NonZeroExit(a)).2 == failure(format, GenError::NonZeroExit(b)).2,
        failure(format, GenError::Incomplete(a)).2 == failure(format, GenError::Incomplete(b)).2,
        failure(format, GenError::Io(a)).2 == failure(format, GenError::Io(b)).2,
        a@.is_suffix_of(failure(format, GenError::Spawn(a)).1),
        a@.is_suffix_of(failure(format, GenError::Io(a)).1),
        a@.is_suffix_of(failure(format, GenError::Incomplete(a)).1),
        failure(format, e).0 == (if e is FfmpegNotFound {
            503nat
        } else {
            500
        }),
{
    let s = failure(format, GenError::Spawn(a)).1;
    assert(s.subrange(s.len() - a@.len(), s.len() as int) =~= a@);
    let i = failure(format, GenError::Io(a)).1;
    assert(i.subrange(i.len() - a@.len(), i.len() as int) =~= a@);
    let n = failure(format, GenError::Incomplete(a)).1;
    assert(n.subrange(n.len() - a@.len(), n.len() as int) =~= a@);
}

/// How far a generation has come.
pub open spec fn progress(p: Phase) -> int {
    match p {
        Phase::Checking => 0,
        Phase::Locking => 1,
        Phase::Rechecking => 2,
        Phase::Preparing => 3,
        Phase::Building => 4,
        Phase::Verifying => 5,
        Phase::Publishing => 6,
        Phase::Ready => 7,
        Phase::Failed(_) => 7,
    }
}

/// A generation only goes on: no event takes it back, and once it is over nothing changes it. An entry
/// that is there is served without being made again, and one that is not is made only with the lock
/// held and after a second look. It ends well only where the entry is there or the rename succeeded,
/// and an error that is reported is the error that it ends with.
pub proof fn a_generation_only_goes_on(format: Format, phase: Phase, event: Event)
    ensures
        ({
            let (next, action) = advanced(format, phase, event);
            &&& progress(next) >= progress(phase)
            &&& phase is Ready || phase is Failed ==> next == phase && action == Action::Stop
            &&& next is Ready && !(phase is Ready) ==> event == Event::Present(true)
                || event is Renamed || (event is RenameFailed && event->present)
            &&& event == Event::Present(true) && (phase is Checking || phase is Rechecking)
                ==> next is Ready
            &&& event == Event::Present(false) && phase is Checking ==> next is Locking && action
                == Action::Lock
            &&& next is Preparing && !(phase is Preparing) ==> phase is Rechecking && event
                == Event::Present(false)
            &&& action == Action::Generate ==> phase is Preparing && next is Building
            &&& action == Action::Rename ==> next is Publishing
            &&& action == Action::Lock ==> next is Locking
            &&& (phase is Building || phase is Verifying) ==> match event {
                Event::Refused(e) => next == Phase::Failed(e),
                _ => true,
            }
            &&& phase is Building && event is TimedOut ==> next == Phase::Failed(GenError::TimedOut)
            &&& phase is Publishing && event is Renamed ==> next is Ready
            &&& phase is Building && event is Generated ==> (format == Format::Hls ==> next
                is Verifying) && (format == Format::Dash ==> next is Publishing)
        }),
{
}

/// Time runs on: what was used later is younger, a time that lies ahead has no age. Seconds are whole
/// ones.
pub proof fn time_runs_on(then: int, passed: int, s: u64, rest: int)
    requires
        passed >= 0,
        0 <= rest < 1_000_000_000,
    ensures
        age(then, then + passed) == passed,
        age(then + passed, then) == 0,
        unix_secs(s * 1_000_000_000 + rest) == s,
        unix_secs(-1 - passed) == 0,
{
}

/// Entries take up together what each of them does.
pub proof fn sizes_add_up(e: Seq<Entry>, x: Entry)
    ensures
        total_size(e.push(x)) == total_size(e) + x.size,
        total_size(Seq::<Entry>::empty()) == 0,
{
    assert(e.push(x).drop_last() =~= e);
}

/// Each step has its successor: the lock leads to a second look, a directory and ffmpeg to a
/// generation, a check that passed to the rename; whatever cannot be done is the error that it ends
/// with. What a phase does not wait for changes nothing.
pub proof fn steps_follow_on(format: Format, phase: Phase, event: Event, why: String)
    ensures
        advanced(format, Phase::Locking, Event::Locked) == (Phase::Rechecking, Action::Look),
        advanced(format, Phase::Preparing, Event::Prepared { ffmpeg: true }) == (
            Phase::Building,
            Action::Generate,
        ),
        advanced(format, Phase::Preparing, Event::Prepared { ffmpeg: false }).0 == Phase::Failed(
            GenError::FfmpegNotFound,
        ),
        advanced(format, Phase::Preparing, Event::Broken(why)).0 == Phase::Failed(GenError::Io(why)),
        advanced(format, Phase::Verifying, Event::Verified) == (Phase::Publishing, Action::Rename),
        advanced(format, Phase::Verifying, Event::Broken(why)).0 == Phase::Failed(GenError::Io(why)),
        advanced(format, Phase::Building, Event::WorkerLost).0 == Phase::Failed(GenError::WorkerLost),
        advanced(
            format,
            Phase::Publishing,
            Event::RenameFailed { present: false, why },
        ).0 == Phase::Failed(GenError::Io(why)),
        advanced(format, Phase::Publishing, Event::RenameFailed { present: true, why }).0 is Ready,
        !(event is Present) && (phase is Checking || phase is Rechecking) ==> advanced(
            format,
            phase,
            event,
        ).0 == phase,
        !(event is Locked) && phase is Locking ==> advanced(format, phase, event).0 == phase,
        !(event is Prepared) && !(event is Broken) && phase is Preparing ==> advanced(
            format,
            phase,
            event,
        ).0 == phase,
{
}

/// What ffmpeg said and what does not agree stands at the end of the line for the log; a client reads
/// that ffmpeg is missing only where it is.
pub proof fn the_log_says_why(format: Format, a: String, b: &'static str, e: GenError)
    ensures
        trim(a@).is_suffix_of(failure(format, GenError::NonZeroExit(a)).1),
        b@.is_suffix_of(failure(format, GenError::VerifyMismatch(b)).1),
        failure(format, e).2 == "ffmpeg is not installed on this server"@ <==> e is FfmpegNotFound,
        failure(format, e).2 == "timed out waiting for ffmpeg"@ <==> e is TimedOut,
{
    let s = failure(format, GenError::NonZeroExit(a)).1;
    let t = trim(a@);
    assert(s.subrange(s.len() - t.len(), s.len() as int) =~= t);
    let v = failure(format, GenError::VerifyMismatch(b)).1;
    assert(v.subrange(v.len() - b@.len(), v.len() as int) =~= b@);
    reveal_strlit("ffmpeg is not installed on this server");
    reveal_strlit("failed to start ffmpeg");
    reveal_strlit("segmenting failed");
    reveal_strlit("no output segments were produced for this source");
    reveal_strlit("no output representations were produced for this source");
    reveal_strlit("segmenting produced an inconsistent result");
    reveal_strlit("timed out waiting for ffmpeg");
    reveal_strlit("segmenting failed unexpectedly");
    reveal_strlit("internal error");
    assert("ffmpeg is not installed on this server"@.len() == 38);
    assert("failed to start ffmpeg"@.len() == 22 && "segmenting failed"@.len() == 17);
    assert("no output segments were produced for this source"@.len() == 48);
    assert("no output representations were produced for this source"@.len() == 55);
    assert("segmenting produced an inconsistent result"@.len() == 42);
    assert("timed out waiting for ffmpeg"@.len() == 28);
    assert("segmenting failed unexpectedly"@.len() == 30 && "internal error"@.len() == 14);
}

} // verus!
