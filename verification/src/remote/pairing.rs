//! Who is allowed to control the player.
//!
//! A short numeric code is shown once on the server's terminal and typed once into a client. The
//! client exchanges it for a long opaque token, which every later connection presents. Times are
//! nanoseconds since the Unix epoch.
use vstd::prelude::*;
use vstd::string::*;

use crate::paths::{join, joined};
use crate::text::{
    all_digits,
    before,
    dec,
    find,
    find_from_is_first,
    hex,
    hex2,
    hex_text,
    is_digit,
    is_space,
    lines,
    lines_go_on,
    lines_of,
    owned,
    pad0,
    padded_text,
    same,
    starts_with,
    strip_cr,
    trim,
    trim_text,
    views,
};

verus! {

/// How long a pairing code stays valid if nobody uses it, in nanoseconds.
pub const CODE_LIFETIME: u64 = 600_000_000_000;

/// A freshly generated pairing code, and when it stops being accepted.
#[derive(Debug, Clone, PartialEq)]
pub struct PendingCode {
    pub code: String,
    pub expires_at: i128,
}

proof fn small_dec_len(n: nat)
    requires
        n < 1_000_000,
    ensures
        1 <= dec(n).len() <= 6,
{
    reveal_with_fuel(dec, 7);
}

/// A six-digit code.
pub fn generate_code(random_u32: u32) -> (r: String)
    ensures
        r@ == pad0(dec((random_u32 % 1_000_000) as nat), 6),
        r@.len() == 6,
        all_digits(r@),
{
    let n: u32 = random_u32 % 1_000_000;
    let r = padded_text(n as u128, 6);
    proof {
        small_dec_len(n as nat);
        crate::json_writer::dec_is_digits(n as nat);
        let d = dec(n as nat);
        let z = 6 - d.len();
        assert forall|i: int| 0 <= i < r@.len() implies is_digit(#[trigger] r@[i]) by {
            if i < z {
                assert(r@[i] == '0');
            } else {
                assert(r@[i] == d[i - z]);
            }
        }
    }
    r
}

/// Hexadecimal text has two lowercase digits for each byte.
pub proof fn hex_is_lowercase(b: Seq<u8>)
    ensures
        hex(b).len() == 2 * b.len(),
        forall|i: int|
            0 <= i < hex(b).len() ==> is_digit(#[trigger] hex(b)[i]) || ('a' <= hex(b)[i] && hex(
                b,
            )[i] <= 'f'),
    decreases b.len(),
{
    if b.len() > 0 {
        hex_is_lowercase(b.drop_last());
        let h = hex(b.drop_last());
        assert forall|i: int| 0 <= i < hex(b).len() implies is_digit(#[trigger] hex(b)[i]) || (
        'a' <= hex(b)[i] && hex(b)[i] <= 'f') by {
            if i < h.len() {
                assert(hex(b)[i] == h[i]);
            } else {
                assert(hex(b)[i] == hex2(b.last())[i - h.len()]);
            }
        }
    }
}

/// A 128-bit token, as hexadecimal text.
pub fn generate_token(random_bytes: [u8; 16]) -> (r: String)
    ensures
        r@ == hex(random_bytes@),
        r@.len() == 32,
{
    proof {
        hex_is_lowercase(random_bytes@);
    }
    hex_text(vstd::array::array_as_slice(&random_bytes))
}

/// The verdict on a submitted code.
#[derive(Debug, Clone, Copy, PartialEq, Eq, Structural)]
pub enum PairResult {
    /// The code matched and had not expired.
    Accepted,
    WrongCode,
    Expired,
}

/// The verdict on a submitted code: an expired code is refused whatever was submitted.
pub open spec fn verdict(code: Seq<char>, expires_at: int, submitted: Seq<char>, now: int) -> PairResult {
    if now > expires_at {
        PairResult::Expired
    } else if submitted == code {
        PairResult::Accepted
    } else {
        PairResult::WrongCode
    }
}

/// Judges a submitted code against the pending one.
pub fn judge(pending: &PendingCode, submitted: &str, now: i128) -> (r: PairResult)
    ensures
        r == verdict(pending.code@, pending.expires_at as int, submitted@, now as int),
{
    if now > pending.expires_at {
        return PairResult::Expired;
    }
    if same(submitted, pending.code.as_str()) {
        PairResult::Accepted
    } else {
        PairResult::WrongCode
    }
}

/// The attempts that are still younger than the window at `now`, in order.
pub open spec fn recent(attempts: Seq<i128>, now: int, window: int) -> Seq<i128>
    decreases attempts.len(),
{
    if attempts.len() == 0 {
        Seq::empty()
    } else {
        let rest = recent(attempts.drop_last(), now, window);
        if now - attempts.last() < window {
            rest.push(attempts.last())
        } else {
            rest
        }
    }
}

/// Caps how many codes may be tried in a sliding window, over all connections together.
pub struct AttemptLimiter {
    max_attempts: u32,
    window: u64,
    attempts: Vec<i128>,
}

/// What the limiter does with an attempt at `now`: the attempts it remembers from then on, and
/// whether this one was within budget.
pub open spec fn attempt(attempts: Seq<i128>, max: nat, window: int, now: i128) -> (
    Seq<i128>,
    bool,
) {
    let kept = recent(attempts, now as int, window);
    if kept.len() >= max {
        (kept, false)
    } else {
        (kept.push(now), true)
    }
}

proof fn recent_is_shorter(a: Seq<i128>, now: int, window: int)
    ensures
        recent(a, now, window).len() <= a.len(),
    decreases a.len(),
{
    if a.len() > 0 {
        recent_is_shorter(a.drop_last(), now, window);
    }
}

impl AttemptLimiter {
    /// The greatest number of attempts within a window.
    pub closed spec fn max(&self) -> nat {
        self.max_attempts as nat
    }

    /// The length of the window in nanoseconds.
    pub closed spec fn span(&self) -> int {
        self.window as int
    }

    /// The attempts that are remembered.
    pub closed spec fn remembered(&self) -> Seq<i128> {
        self.attempts@
    }

    /// No more attempts are remembered than the budget allows.
    pub open spec fn wf(&self) -> bool {
        self.remembered().len() <= self.max() && self.max() <= u32::MAX
    }

    pub fn new(max_attempts: u32, window: u64) -> (r: Self)
        ensures
            r.wf(),
            r.max() == max_attempts,
            r.span() == window,
            r.remembered() == Seq::<i128>::empty(),
    {
        AttemptLimiter { max_attempts, window, attempts: Vec::new() }
    }

    /// Five attempts a minute: enough for a mistyped digit or two.
    pub fn default_policy() -> (r: Self)
        ensures
            r.wf(),
            r.max() == 5,
            r.span() == 60_000_000_000,
            r.remembered() == Seq::<i128>::empty(),
    {
        AttemptLimiter::new(5, 60_000_000_000)
    }

    /// Records an attempt at `now` and reports whether it is within budget. Old attempts fall out
    /// of the window as they age.
    pub fn record(&mut self, now: i128) -> (r: bool)
        requires
            old(self).wf(),
        ensures
            final(self).wf(),
            final(self).max() == old(self).max(),
            final(self).span() == old(self).span(),
            (final(self).remembered(), r) == attempt(
                old(self).remembered(),
                old(self).max(),
                old(self).span(),
                now,
            ),
    {
        let mut kept: Vec<i128> = Vec::new();
        let mut i: usize = 0;
        assert(self.attempts@.take(0) =~= Seq::<i128>::empty());
        while i < self.attempts.len()
            invariant
                *self == *old(self),
                i <= self.attempts@.len(),
                kept@ == recent(self.attempts@.take(i as int), now as int, self.window as int),
            decreases self.attempts@.len() - i,
        {
            let t: i128 = self.attempts[i];
            let young: bool = match now.checked_sub(t) {
                Some(age) => age < self.window as i128,
                None => now < t,
            };
            proof {
                let part = self.attempts@.take(i as int + 1);
                assert(part.drop_last() =~= self.attempts@.take(i as int));
                assert(part.last() == t);
                assert(young == (now - t < self.window));
            }
            if young {
                kept.push(t);
            }
            i += 1;
        }
        proof {
            assert(self.attempts@.take(i as int) =~= self.attempts@);
            recent_is_shorter(self.attempts@, now as int, self.window as int);
        }
        let within = (kept.len() as u64) < self.max_attempts as u64;
        if within {
            kept.push(now);
        }
        self.attempts = kept;
        within
    }
}

/// The attempts of a run of calls that were within budget, and the attempts remembered at its end.
pub open spec fn accepted(times: Seq<i128>, max: nat, window: int) -> (Seq<i128>, Seq<i128>)
    decreases times.len(),
{
    if times.len() == 0 {
        (Seq::empty(), Seq::empty())
    } else {
        let (past, memory) = accepted(times.drop_last(), max, window);
        let (next, ok) = attempt(memory, max, window, times.last());
        (
            if ok {
                past.push(times.last())
            } else {
                past
            },
            next,
        )
    }
}

/// Whether the calls come in the order of their times.
pub open spec fn in_time_order(times: Seq<i128>) -> bool {
    forall|i: int, j: int| 0 <= i <= j < times.len() ==> times[i] <= times[j]
}

/// Whatever is too old at one time is too old later.
proof fn recent_twice(a: Seq<i128>, now: int, later: int, window: int)
    requires
        now <= later,
    ensures
        recent(recent(a, now, window), later, window) == recent(a, later, window),
    decreases a.len(),
{
    if a.len() > 0 {
        recent_twice(a.drop_last(), now, later, window);
        let kept = recent(a.drop_last(), now, window);
        if now - a.last() < window {
            assert(kept.push(a.last()).drop_last() =~= kept);
        }
    }
}

/// The limiter remembers exactly the accepted attempts that are still young.
proof fn memory_is_recent(times: Seq<i128>, max: nat, window: int)
    requires
        in_time_order(times),
    ensures
        ({
            let (past, memory) = accepted(times, max, window);
            &&& memory.len() <= max
            &&& times.len() > 0 ==> recent(memory, times.last() as int, window) == recent(
                past,
                times.last() as int,
                window,
            )
            &&& times.len() == 0 ==> memory == past
        }),
    decreases times.len(),
{
    if times.len() > 0 {
        let before = times.drop_last();
        let now = times.last();
        memory_is_recent(before, max, window);
        let (past, memory) = accepted(before, max, window);
        let kept = recent(memory, now as int, window);
        recent_is_shorter(memory, now as int, window);
        if before.len() > 0 {
            let prev = before.last();
            assert(times[times.len() - 2] <= times[times.len() - 1]);
            recent_twice(memory, prev as int, now as int, window);
            recent_twice(past, prev as int, now as int, window);
        }
        assert(kept == recent(past, now as int, window));
        recent_twice(memory, now as int, now as int, window);
        if kept.len() < max {
            assert(kept.push(now).drop_last() =~= kept);
            assert(past.push(now).drop_last() =~= past);
        }
    }
}

/// However the attempts are spread over time, no more of them are ever accepted within one window
/// than the budget allows.
pub proof fn budget_holds_in_every_window(times: Seq<i128>, max: nat, window: int)
    requires
        in_time_order(times),
        times.len() > 0,
    ensures
        recent(accepted(times, max, window).0, times.last() as int, window).len() <= max,
{
    memory_is_recent(times, max, window);
    let (past, memory) = accepted(times, max, window);
    recent_is_shorter(memory, times.last() as int, window);
}

/// A limiter whose remembered attempts have all aged out accepts again.
pub proof fn aged_attempts_are_forgotten(attempts: Seq<i128>, max: nat, window: int, now: i128)
    requires
        max > 0,
        forall|i: int| 0 <= i < attempts.len() ==> now - #[trigger] attempts[i] >= window,
    ensures
        attempt(attempts, max, window, now).1,
{
    all_aged(attempts, now as int, window);
}

proof fn all_aged(attempts: Seq<i128>, now: int, window: int)
    requires
        forall|i: int| 0 <= i < attempts.len() ==> now - #[trigger] attempts[i] >= window,
    ensures
        recent(attempts, now, window).len() == 0,
    decreases attempts.len(),
{
    if attempts.len() > 0 {
        let rest = attempts.drop_last();
        assert forall|i: int| 0 <= i < rest.len() implies now - #[trigger] rest[i] >= window by {
            assert(rest[i] == attempts[i]);
        }
        all_aged(rest, now, window);
        assert(now - attempts[attempts.len() - 1] >= window);
    }
}

/// Tokens that have paired, each once.
#[derive(Debug, Clone)]
pub struct TokenStore {
    tokens: Vec<String>,
}

/// The tokens that a token file's text lists: its lines, trimmed, without the empty ones.
pub open spec fn listed(text: Seq<char>) -> Set<Seq<char>> {
    Set::new(
        |t: Seq<char>|
            t.len() > 0 && exists|i: int|
                0 <= i < lines(text).len() && trim(#[trigger] lines(text)[i]) == t,
    )
}

/// The tokens of a list that begin with a prefix, in order.
pub open spec fn beginning_with(tokens: Seq<Seq<char>>, prefix: Seq<char>) -> Seq<Seq<char>>
    decreases tokens.len(),
{
    if tokens.len() == 0 {
        Seq::empty()
    } else {
        let rest = beginning_with(tokens.drop_last(), prefix);
        if prefix.is_prefix_of(tokens.last()) {
            rest.push(tokens.last())
        } else {
            rest
        }
    }
}

impl TokenStore {
    /// The tokens, in the order in which they were added.
    pub closed spec fn list(&self) -> Seq<Seq<char>> {
        views(self.tokens@)
    }

    /// The tokens that are accepted.
    pub open spec fn set(&self) -> Set<Seq<char>> {
        self.list().to_set()
    }

    /// No token is held twice.
    pub open spec fn wf(&self) -> bool {
        self.list().no_duplicates()
    }

    pub fn new() -> (r: Self)
        ensures
            r.wf(),
            r.list() == Seq::<Seq<char>>::empty(),
            r.set() == Set::<Seq<char>>::empty(),
    {
        let r = TokenStore { tokens: Vec::new() };
        assert(r.list() =~= Seq::<Seq<char>>::empty());
        assert(r.set() =~= Set::<Seq<char>>::empty());
        r
    }

    /// Whether a token was paired.
    pub fn is_valid(&self, token: &str) -> (r: bool)
        ensures
            r == self.set().contains(token@),
    {
        let mut i: usize = 0;
        while i < self.tokens.len()
            invariant
                i <= self.tokens@.len(),
                forall|k: int| 0 <= k < i ==> (#[trigger] self.tokens@[k])@ != token@,
            decreases self.tokens@.len() - i,
        {
            if same(self.tokens[i].as_str(), token) {
                assert(self.list()[i as int] == token@);
                return true;
            }
            i += 1;
        }
        assert(!self.list().contains(token@));
        false
    }

    /// Accepts a token from now on.
    pub fn add(&mut self, token: String)
        requires
            old(self).wf(),
        ensures
            final(self).wf(),
            final(self).set() == old(self).set().insert(token@),
            final(self).list() == (if old(self).set().contains(token@) {
                old(self).list()
            } else {
                old(self).list().push(token@)
            }),
    {
        if !self.is_valid(token.as_str()) {
            let ghost was = self.list();
            self.tokens.push(token);
            proof {
                assert(self.list() =~= was.push(token@));
                assert(!was.contains(token@));
                assert(self.set() =~= was.to_set().insert(token@)) by {
                    assert forall|t: Seq<char>| #[trigger] self.set().contains(t)
                        == was.to_set().insert(token@).contains(t) by {
                        if t == token@ {
                            assert(self.list()[was.len() as int] == t);
                        }
                        if was.contains(t) {
                            let k = choose|k: int| 0 <= k < was.len() && was[k] == t;
                            assert(self.list()[k] == t);
                        }
                    }
                }
            }
        } else {
            assert(self.set() =~= self.set().insert(token@));
        }
    }

    /// The store that a token file's text lists.
    pub fn from_text(text: &str) -> (r: Self)
        ensures
            r.wf(),
            r.set() == listed(text@),
    {
        let rows = lines_of(text);
        let mut store = TokenStore::new();
        let mut i: usize = 0;
        while i < rows.len()
            invariant
                i <= rows@.len(),
                views(rows@) == lines(text@),
                store.wf(),
                forall|t: Seq<char>| #[trigger]
                    store.set().contains(t) == (t.len() > 0 && exists|k: int|
                        0 <= k < i && trim(#[trigger] lines(text@)[k]) == t),
            decreases rows@.len() - i,
        {
            let token = trim_text(rows[i].as_str());
            assert(lines(text@)[i as int] == rows@[i as int]@);
            let ghost was = store.set();
            let ghost mine = token@;
            if !token.as_str().is_empty() {
                store.add(token);
            }
            proof {
                assert forall|t: Seq<char>| #[trigger]
                    store.set().contains(t) == (t.len() > 0 && exists|k: int|
                        0 <= k < i + 1 && trim(#[trigger] lines(text@)[k]) == t) by {
                    if store.set().contains(t) && t != mine {
                        assert(was.contains(t));
                    }
                    if t.len() > 0 && exists|k: int|
                        0 <= k < i + 1 && trim(#[trigger] lines(text@)[k]) == t {
                        let k = choose|k: int|
                            0 <= k < i + 1 && trim(#[trigger] lines(text@)[k]) == t;
                        if k < i {
                            assert(was.contains(t));
                        }
                    }
                }
            }
            i += 1;
        }
        assert(store.set() =~= listed(text@));
        store
    }

    /// What is appended to the token file when a token is paired.
    pub fn line_for(token: &str) -> (r: String)
        ensures
            r@ == token@ + seq!['\n'],
    {
        let mut out = owned(token);
        out.push('\n');
        assert(out@ =~= token@ + seq!['\n']);
        out
    }

    /// Where the token file lives, below this user's configuration directory.
    pub fn default_path(config_dir: &str) -> (r: String)
        ensures
            r@ == joined(joined(config_dir@, "lumen"@), "paired-clients.txt"@),
    {
        join(join(config_dir, "lumen").as_str(), "paired-clients.txt")
    }

    /// How many tokens are accepted.
    pub fn len(&self) -> (r: usize)
        ensures
            r == self.list().len(),
    {
        self.tokens.len()
    }

    /// Whether no token is accepted.
    pub fn is_empty(&self) -> (r: bool)
        ensures
            r == (self.list().len() == 0),
    {
        self.tokens.len() == 0
    }

    /// The tokens, in the order in which they were added.
    pub fn tokens(&self) -> (r: &Vec<String>)
        ensures
            views(r@) == self.list(),
    {
        &self.tokens
    }

    /// Revokes every token and reports how many there were.
    pub fn clear(&mut self) -> (r: usize)
        ensures
            r == old(self).list().len(),
            final(self).list() == Seq::<Seq<char>>::empty(),
            final(self).wf(),
    {
        let n: usize = self.tokens.len();
        self.tokens = Vec::new();
        assert(self.list() =~= Seq::<Seq<char>>::empty());
        n
    }

    /// Revokes every token that begins with `prefix`, and returns those, in order.
    pub fn remove_matching(&mut self, prefix: &str) -> (r: Vec<String>)
        requires
            old(self).wf(),
        ensures
            views(r@) == beginning_with(old(self).list(), prefix@),
            final(self).wf(),
            forall|t: Seq<char>| #[trigger]
                final(self).set().contains(t) == (old(self).set().contains(t)
                    && !prefix@.is_prefix_of(t)),
    {
        let mut kept = TokenStore::new();
        let mut gone: Vec<String> = Vec::new();
        let mut i: usize = 0;
        let ghost all = self.list();
        assert(all.take(0) =~= Seq::<Seq<char>>::empty());
        assert(views(gone@) =~= Seq::<Seq<char>>::empty());
        while i < self.tokens.len()
            invariant
                *self == *old(self),
                all == self.list(),
                i <= all.len(),
                self.tokens@.len() == all.len(),
                views(gone@) == beginning_with(all.take(i as int), prefix@),
                kept.wf(),
                forall|t: Seq<char>| #[trigger]
                    kept.set().contains(t) == (all.take(i as int).contains(t)
                        && !prefix@.is_prefix_of(t)),
            decreases all.len() - i,
        {
            let token = self.tokens[i].clone();
            let ghost mine = token@;
            let ghost was = kept.set();
            let ghost before = views(gone@);
            proof {
                assert(all[i as int] == mine);
                assert(all.take(i as int + 1).drop_last() =~= all.take(i as int));
                assert(all.take(i as int + 1).last() == mine);
            }
            if starts_with(token.as_str(), prefix) {
                gone.push(token);
                assert(views(gone@) =~= before.push(mine));
            } else {
                kept.add(token);
            }
            proof {
                assert forall|t: Seq<char>| #[trigger]
                    kept.set().contains(t) == (all.take(i as int + 1).contains(t)
                        && !prefix@.is_prefix_of(t)) by {
                    let less = all.take(i as int);
                    let more = all.take(i as int + 1);
                    assert(was.contains(t) == (less.contains(t) && !prefix@.is_prefix_of(t)));
                    if less.contains(t) {
                        let k = choose|k: int| 0 <= k < less.len() && less[k] == t;
                        assert(more[k] == t);
                    }
                    if more.contains(t) && t != mine {
                        let k = choose|k: int| 0 <= k < more.len() && more[k] == t;
                        assert(less[k] == t);
                    }
                    if t == mine {
                        assert(more[i as int] == t);
                    }
                }
            }
            i += 1;
        }
        assert(all.take(i as int) =~= all);
        *self = kept;
        gone
    }
}

impl Default for TokenStore {
    fn default() -> (r: Self)
        ensures
            r.wf(),
            r.list() == Seq::<Seq<char>>::empty(),
    {
        TokenStore::new()
    }
}

/// Appending a token's line to a token file adds that token, and no other, to those it lists.
pub proof fn appended_token_is_listed(text: Seq<char>, token: Seq<char>)
    requires
        text.len() == 0 || text.last() == '\n',
        token.len() > 0,
        trim(token) == token,
        !token.contains('\n'),
    ensures
        listed(text + (token + seq!['\n'])) == listed(text).insert(token),
{
    let row = token + seq!['\n'];
    lines_go_on(text, row);
    find_from_is_first(row, '\n', 0);
    let i = find(row, '\n');
    assert(row[token.len() as int] == '\n');
    assert(i == token.len()) by {
        if i < token.len() {
            assert(token[i] == '\n');
        }
    }
    assert(row.take(i) =~= token);
    assert(row.skip(i + 1) =~= Seq::<char>::empty());
    assert(lines(Seq::<char>::empty()) =~= Seq::<Seq<char>>::empty());
    no_return_at_the_end(token);
    assert(lines(row) =~= seq![token]);
    let all = lines(text + row);
    assert(all =~= lines(text).push(token));
    assert forall|t: Seq<char>| #[trigger]
        listed(text + row).contains(t) == listed(text).insert(token).contains(t) by {
        if t == token {
            assert(trim(all[lines(text).len() as int]) == t);
        }
        if listed(text).contains(t) {
            let k = choose|k: int| 0 <= k < lines(text).len() && trim(#[trigger] lines(text)[k]) == t;
            assert(trim(all[k]) == t);
        }
        if listed(text + row).contains(t) && t != token {
            let k = choose|k: int| 0 <= k < all.len() && trim(#[trigger] all[k]) == t;
            assert(k < lines(text).len());
            assert(trim(lines(text)[k]) == t);
        }
    }
    assert(listed(text + row) =~= listed(text).insert(token));
}

/// Trimmed text does not end with a carriage return.
proof fn no_return_at_the_end(t: Seq<char>)
    requires
        t.len() > 0,
        trim(t) == t,
    ensures
        strip_cr(t) == t,
{
    if t.last() == '\r' {
        assert(is_space('\r'));
        let s = crate::text::trim_start(t);
        trim_start_shrinks(t);
        assert(s.len() <= t.len());
        if s.len() == t.len() {
            assert(s == t);
            trim_end_shrinks(t.drop_last());
        } else {
            trim_end_shrinks(s);
        }
    }
}

proof fn trim_start_shrinks(t: Seq<char>)
    ensures
        crate::text::trim_start(t).len() <= t.len(),
        crate::text::trim_start(t).len() == t.len() ==> crate::text::trim_start(t) == t,
    decreases t.len(),
{
    if t.len() > 0 && is_space(t[0]) {
        trim_start_shrinks(t.skip(1));
    }
}

proof fn trim_end_shrinks(t: Seq<char>)
    ensures
        crate::text::trim_end(t).len() <= t.len(),
    decreases t.len(),
{
    if t.len() > 0 && is_space(t.last()) {
        trim_end_shrinks(t.drop_last());
    }
}

/// The operating systems whose conventions for a configuration directory differ.
#[derive(Debug, Clone, Copy, PartialEq, Eq, Structural)]
pub enum Platform {
    Windows,
    MacOs,
    Other,
}

/// This user's configuration directory, from what the environment says.
pub open spec fn config_dir(
    platform: Platform,
    appdata: Option<Seq<char>>,
    xdg: Option<Seq<char>>,
    home: Option<Seq<char>>,
    temp: Seq<char>,
) -> Seq<char> {
    match platform {
        Platform::Windows => match appdata {
            Some(d) => d,
            None => temp,
        },
        Platform::MacOs => match home {
            Some(h) => joined(joined(h, "Library"@), "Application Support"@),
            None => temp,
        },
        Platform::Other => match xdg {
            Some(d) => d,
            None => match home {
                Some(h) => joined(h, ".config"@),
                None => temp,
            },
        },
    }
}

/// This user's configuration directory: `APPDATA` on Windows; `Library/Application Support` below
/// the home directory on macOS; elsewhere `XDG_CONFIG_HOME`, or `.config` below the home directory.
/// Where none of these is known, the directory for temporary files.
pub fn dirs_next_config_dir(
    platform: Platform,
    appdata: Option<&str>,
    xdg: Option<&str>,
    home: Option<&str>,
    temp: &str,
) -> (r: String)
    ensures
        r@ == config_dir(
            platform,
            crate::text::opt_str_view(appdata),
            crate::text::opt_str_view(xdg),
            crate::text::opt_str_view(home),
            temp@,
        ),
{
    match platform {
        Platform::Windows => match appdata {
            Some(d) => owned(d),
            None => owned(temp),
        },
        Platform::MacOs => match home {
            Some(h) => join(join(h, "Library").as_str(), "Application Support"),
            None => owned(temp),
        },
        Platform::Other => match xdg {
            Some(d) => owned(d),
            None => match home {
                Some(h) => join(h, ".config"),
                None => owned(temp),
            },
        },
    }
}

/// The attempts that count are exactly those younger than the window, in order; an attempt within
/// budget is remembered, and one over it is not.
pub proof fn young_attempts_count(attempts: Seq<i128>, max: nat, window: int, now: i128)
    ensures
        recent(attempts, now as int, window) == attempts.filter(|t: i128| now - t < window),
        attempt(attempts, max, window, now).1 <==> attempts.filter(
            |t: i128| now - t < window,
        ).len() < max,
        attempt(attempts, max, window, now).1 && window > 0 ==> attempt(
            attempts,
            max,
            window,
            now,
        ).0.last() == now,
    decreases attempts.len(),
{
    reveal(Seq::filter);
    if attempts.len() > 0 {
        young_attempts_count(attempts.drop_last(), max, window, now);
    }
}

/// A prefix picks exactly the tokens that begin with it, in order; an empty one picks all.
pub proof fn prefixes_pick_what_begins_so(tokens: Seq<Seq<char>>, prefix: Seq<char>)
    ensures
        beginning_with(tokens, prefix) == tokens.filter(
            |t: Seq<char>| exists|rest: Seq<char>| t == #[trigger] prefix.add(rest),
        ),
        beginning_with(tokens, Seq::empty()) == tokens,
    decreases tokens.len(),
{
    reveal(Seq::filter);
    if tokens.len() > 0 {
        let t = tokens.last();
        prefixes_pick_what_begins_so(tokens.drop_last(), prefix);
        if prefix.is_prefix_of(t) {
            assert(t =~= prefix.add(t.skip(prefix.len() as int)));
        }
        if exists|rest: Seq<char>| t == #[trigger] prefix.add(rest) {
            let rest = choose|rest: Seq<char>| t == #[trigger] prefix.add(rest);
            assert(prefix =~= t.subrange(0, prefix.len() as int));
        }
        assert(Seq::<char>::empty() =~= t.subrange(0, 0));
        assert(tokens =~= tokens.drop_last().push(t));
    } else {
        assert(tokens =~= Seq::empty());
    }
}

/// Only the right code, entered no later than it expires, is accepted; a wrong one in time is wrong,
/// and after the time every one is expired.
pub proof fn only_the_right_code_is_accepted(
    code: Seq<char>,
    expires_at: int,
    submitted: Seq<char>,
    now: int,
)
    ensures
        verdict(code, expires_at, submitted, now) is Accepted <==> submitted == code && now
            <= expires_at,
        verdict(code, expires_at, submitted, now) is Expired <==> now > expires_at,
{
}

/// The configuration directory goes by what the platform's users set, and by nothing of another
/// platform; where nothing is set it is the directory for temporary files.
pub proof fn configuration_goes_by_the_platform(
    appdata: Option<Seq<char>>,
    xdg: Option<Seq<char>>,
    home: Option<Seq<char>>,
    temp: Seq<char>,
    d: Seq<char>,
)
    ensures
        config_dir(Platform::Windows, Some(d), xdg, home, temp) == d,
        config_dir(Platform::Other, appdata, Some(d), home, temp) == d,
        config_dir(Platform::Other, appdata, None, Some(d), temp) == joined(d, ".config"@),
        config_dir(Platform::MacOs, appdata, xdg, None, temp) == temp,
        config_dir(Platform::Windows, None, xdg, home, temp) == temp,
        config_dir(Platform::Other, appdata, None, None, temp) == temp,
        home is Some ==> home->0.is_prefix_of(
            config_dir(Platform::MacOs, appdata, xdg, home, temp),
        ) || home->0.len() == 0,
{
    if let Some(h) = home {
        reveal_strlit("Library");
        reveal_strlit("Application Support");
        let a = joined(h, "Library"@);
        let b = joined(a, "Application Support"@);
        assert("Library"@[0] == 'L' && "Application Support"@[0] == 'A');
        if h.len() > 0 {
            assert(a.subrange(0, h.len() as int) =~= h);
            assert(b.subrange(0, h.len() as int) =~= h);
        }
    }
}

} // verus!
