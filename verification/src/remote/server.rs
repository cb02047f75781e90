//! What the server decides: who may do what, what each message is answered, and which command goes
//! to the player. The sockets, the player and the clock are outside; their part is handed in.
use vstd::prelude::*;
use vstd::string::*;

use crate::http::{
    content_type_for,
    header_value,
    lossy,
    lossy_text,
    media_type,
    param_from,
    query_param,
    HttpRequest,
};
use crate::json::{document, field, str_field, Json};
use crate::json_writer::integers_read_exactly;
use crate::measure::Measure;
use crate::media::Container;
use crate::paths::{extension, extension_of, starts_with, within};
use crate::remote::pairing::{
    attempt,
    generate_token,
    judge,
    verdict,
    AttemptLimiter,
    PairResult,
    PendingCode,
    TokenStore,
};
use crate::remote::protocol::{
    now_content,
    request_on,
    wire,
    ClientMessage,
    LibraryEntry,
    NowPlaying,
    PlaybackState,
    Playing,
    ReplyBody,
    Request,
    ServerMessage,
};
use crate::scan::{contents, label_of, Found, Scan, Scanned};
use crate::text::{
    after_prefix,
    chars_of,
    dec_text,
    digits_value,
    hex,
    int_dec,
    opt_borrow,
    opt_str_view,
    opt_view,
    owned,
    same,
    slice_text,
    split,
    strip_prefix,
    views,
};

verus! {

/// What a player can be told to do.
#[derive(Debug, Clone, PartialEq)]
pub enum CommandBody {
    Play(String),
    Pause,
    Resume,
    Toggle,
    Seek(i64),
    SetVolume(u8),
    /// Everything of a health report but how fast the player answers.
    Health {
        tls_cert_expires_in_secs: Option<i64>,
        library_last_indexed_unix_secs: Option<u64>,
        free_disk_bytes: Option<u64>,
        paired_client_count: u32,
    },
}

/// What a player is told to do.
pub enum Order {
    Play(Seq<char>),
    Pause,
    Resume,
    Toggle,
    Seek(i64),
    SetVolume(u8),
    Health {
        tls_cert_expires_in_secs: Option<i64>,
        library_last_indexed_unix_secs: Option<u64>,
        free_disk_bytes: Option<u64>,
        paired_client_count: u32,
    },
}

impl CommandBody {
    /// What the player is told to do.
    pub open spec fn content(self) -> Order {
        match self {
            CommandBody::Play(p) => Order::Play(p@),
            CommandBody::Pause => Order::Pause,
            CommandBody::Resume => Order::Resume,
            CommandBody::Toggle => Order::Toggle,
            CommandBody::Seek(ms) => Order::Seek(ms),
            CommandBody::SetVolume(l) => Order::SetVolume(l),
            CommandBody::Health {
                tls_cert_expires_in_secs,
                library_last_indexed_unix_secs,
                free_disk_bytes,
                paired_client_count,
            } => Order::Health {
                tls_cert_expires_in_secs,
                library_last_indexed_unix_secs,
                free_disk_bytes,
                paired_client_count,
            },
        }
    }
}

/// What comes of a client's message: an answer, or a command for the player whose outcome is the
/// answer.
#[derive(Debug, Clone, PartialEq)]
pub enum Step {
    Reply(ServerMessage),
    Run { id: String, body: CommandBody },
}

/// What comes of a client's message.
pub enum Decision {
    Paired { id: Seq<char>, token: Seq<char> },
    Done { id: Seq<char> },
    /// The path and title of each file of the library that plays.
    Library { id: Seq<char>, entries: Seq<(Seq<char>, Seq<char>)> },
    Refused { id: Seq<char>, message: Seq<char> },
    Run { id: Seq<char>, order: Order },
}

/// The paths and titles of library entries.
pub open spec fn entry_views(e: Seq<LibraryEntry>) -> Seq<(Seq<char>, Seq<char>)> {
    Seq::new(e.len(), |i: int| (e[i].path@, e[i].title@))
}

/// Whether no entry claims a duration: a listing does not open the files.
pub open spec fn durations_unknown(e: Seq<LibraryEntry>) -> bool {
    forall|i: int| 0 <= i < e.len() ==> (#[trigger] e[i]).duration_ms == 0
}

impl Step {
    /// Whether this is what was decided.
    pub open spec fn is(self, d: Decision) -> bool {
        match (self, d) {
            (
                Step::Reply(ServerMessage::Paired { id, token }),
                Decision::Paired { id: i, token: t },
            ) => id@ == i && token@ == t,
            (
                Step::Reply(ServerMessage::Reply { id, result: ReplyBody::Done }),
                Decision::Done { id: i },
            ) => id@ == i,
            (
                Step::Reply(ServerMessage::Reply { id, result: ReplyBody::Library(e) }),
                Decision::Library { id: i, entries },
            ) => id@ == i && entry_views(e@) == entries && durations_unknown(e@),
            (
                Step::Reply(ServerMessage::Error { id, message }),
                Decision::Refused { id: i, message: m },
            ) => id@ == i && message@ == m,
            (Step::Run { id, body }, Decision::Run { id: i, order }) => id@ == i && body.content()
                == order,
            _ => false,
        }
    }
}

/// What every connection shares.
pub struct ServerState {
    pub tokens: TokenStore,
    pub pending_code: Option<PendingCode>,
    /// Over all connections together: a fresh connection costs a guesser nothing.
    pub pair_attempts: AttemptLimiter,
    /// The directory that is served, resolved.
    pub library_root: String,
}

/// What every connection shares.
pub struct Shared {
    pub tokens: Seq<Seq<char>>,
    pub code: Option<(Seq<char>, int)>,
    pub attempts: Seq<i128>,
    pub max: nat,
    pub span: int,
    pub root: Seq<char>,
}

/// A pending code and when it expires.
pub open spec fn code_view(p: Option<PendingCode>) -> Option<(Seq<char>, int)> {
    match p {
        Some(c) => Some((c.code@, c.expires_at as int)),
        None => None,
    }
}

impl ServerState {
    /// What the connections share.
    pub open spec fn content(self) -> Shared {
        Shared {
            tokens: self.tokens.list(),
            code: code_view(self.pending_code),
            attempts: self.pair_attempts.remembered(),
            max: self.pair_attempts.max(),
            span: self.pair_attempts.span(),
            root: self.library_root@,
        }
    }

    /// Its parts are well-formed.
    pub open spec fn wf(self) -> bool {
        self.tokens.wf() && self.pair_attempts.wf()
    }
}

/// The path that a request for a file stands for, given what the request's path resolves to: the
/// file must exist, and lie within the served library.
pub open spec fn contained(root: Seq<char>, resolved: Option<Seq<char>>) -> Result<Seq<char>, Seq<char>> {
    match resolved {
        None => Err("that file does not exist on this server"@),
        Some(p) => if within(p, root) {
            Ok(p)
        } else {
            Err("that file is outside the served library"@)
        },
    }
}

/// Refuses a path outside the served directory. `resolved` is the path with links and `..` resolved;
/// `None` when there is no such file.
pub fn contain_within_library(library_root: &str, resolved: Option<&str>) -> (r: Result<String, String>)
    ensures
        match r {
            Ok(p) => contained(library_root@, opt_str_view(resolved)) == Ok::<Seq<char>, Seq<char>>(p@),
            Err(e) => contained(library_root@, opt_str_view(resolved)) == Err::<Seq<char>, Seq<char>>(
                e@,
            ),
        },
{
    match resolved {
        None => Err(owned("that file does not exist on this server")),
        Some(p) => if starts_with(p, library_root) {
            Ok(owned(p))
        } else {
            Err(owned("that file is outside the served library"))
        },
    }
}

/// The paths and titles of the files that play.
pub open spec fn listing(files: Seq<Scanned>) -> Seq<(Seq<char>, Seq<char>)>
    decreases files.len(),
{
    if files.len() == 0 {
        Seq::empty()
    } else {
        let rest = listing(files.drop_last());
        let f = files.last();
        if f.playable() {
            rest.push((f.path, label_of(f)))
        } else {
            rest
        }
    }
}

fn library_entries(library: &Scan) -> (r: Vec<LibraryEntry>)
    ensures
        entry_views(r@) == listing(library.content().files),
        durations_unknown(r@),
{
    let mut out: Vec<LibraryEntry> = Vec::new();
    let mut i: usize = 0;
    let ghost all = contents(library.files@);
    assert(all.take(0) =~= Seq::<Scanned>::empty());
    assert(entry_views(out@) =~= Seq::<(Seq<char>, Seq<char>)>::empty());
    while i < library.files.len()
        invariant
            i <= library.files@.len(),
            all == contents(library.files@),
            entry_views(out@) == listing(all.take(i as int)),
            durations_unknown(out@),
        decreases library.files@.len() - i,
    {
        let f = &library.files[i];
        let ghost known = entry_views(out@);
        proof {
            assert(all.take(i as int + 1).drop_last() =~= all.take(i as int));
            assert(all.take(i as int + 1).last() == f.content());
        }
        if f.is_playable() {
            let path = f.path.clone();
            let title = f.label();
            out.push(LibraryEntry { path, title, duration_ms: 0 });
            assert(entry_views(out@) =~= known.push((path@, title@)));
        }
        i += 1;
    }
    assert(all.take(i as int) =~= all);
    out
}

/// What a pairing attempt at `now` leads to, and what the connections share from then on. `token`
/// is minted if the code is accepted. A code works once.
pub open spec fn pairing(
    s: Shared,
    id: Seq<char>,
    code: Seq<char>,
    now: i128,
    token: Seq<char>,
) -> (Decision, Shared, bool) {
    let (attempts, within_budget) = attempt(s.attempts, s.max, s.span, now);
    let counted = Shared { attempts, ..s };
    if !within_budget {
        (
            Decision::Refused {
                id,
                message: "too many wrong pairing attempts; wait a minute and try again"@,
            },
            counted,
            false,
        )
    } else {
        match s.code {
            None => (Decision::Refused { id, message: "no pairing code is active"@ }, counted, false),
            Some((pending, expires_at)) => match verdict(pending, expires_at, code, now as int) {
                PairResult::Accepted => (
                    Decision::Paired { id, token },
                    Shared {
                        tokens: if s.tokens.contains(token) {
                            s.tokens
                        } else {
                            s.tokens.push(token)
                        },
                        code: None,
                        ..counted
                    },
                    true,
                ),
                PairResult::WrongCode => (
                    Decision::Refused { id, message: "wrong pairing code"@ },
                    counted,
                    false,
                ),
                PairResult::Expired => (
                    Decision::Refused {
                        id,
                        message:
                            "pairing code expired; restart the server or check its terminal for a new one"@,
                    },
                    counted,
                    false,
                ),
            },
        }
    }
}

/// What a message leads to, what the connections share from then on, and whether this connection
/// is authenticated by it. `resolved` is what the path of a request to play resolves to.
pub open spec fn decided(
    s: Shared,
    m: Request,
    now: i128,
    token: Seq<char>,
    resolved: Option<Seq<char>>,
    files: Seq<Scanned>,
) -> (Decision, Shared, bool) {
    match m {
        Request::Pair { id, code } => pairing(s, id, code, now, token),
        Request::Auth { id, token: t } => if s.tokens.contains(t) {
            (Decision::Done { id }, s, true)
        } else {
            (Decision::Refused { id, message: "unknown token; pair again"@ }, s, false)
        },
        Request::Library { id } => (Decision::Library { id, entries: listing(files) }, s, false),
        Request::Play { id, path } => match contained(s.root, resolved) {
            Ok(p) => (Decision::Run { id, order: Order::Play(p) }, s, false),
            Err(e) => (Decision::Refused { id, message: e }, s, false),
        },
        Request::Pause { id } => (Decision::Run { id, order: Order::Pause }, s, false),
        Request::Resume { id } => (Decision::Run { id, order: Order::Resume }, s, false),
        Request::TogglePlayPause { id } => (Decision::Run { id, order: Order::Toggle }, s, false),
        Request::Seek { id, position_ms } => (
            Decision::Run { id, order: Order::Seek(position_ms) },
            s,
            false,
        ),
        Request::SetVolume { id, level } => (
            Decision::Run { id, order: Order::SetVolume(level) },
            s,
            false,
        ),
        Request::Next { id } => (
            Decision::Refused { id, message: "no queue yet; play a specific file instead"@ },
            s,
            false,
        ),
        Request::Previous { id } => (
            Decision::Refused { id, message: "no queue yet; play a specific file instead"@ },
            s,
            false,
        ),
    }
}

fn refuse(id: String, message: &str) -> (r: Step)
    ensures
        r.is(Decision::Refused { id: id@, message: message@ }),
{
    Step::Reply(ServerMessage::Error { id, message: owned(message) })
}

fn pair(state: &mut ServerState, id: String, code: &str, now: i128, fresh: [u8; 16]) -> (r: (
    Step,
    bool,
))
    requires
        old(state).wf(),
    ensures
        final(state).wf(),
        ({
            let (d, s, authed) = pairing(old(state).content(), id@, code@, now, hex(fresh@));
            r.0.is(d) && final(state).content() == s && r.1 == authed
        }),
{
    let within_budget = state.pair_attempts.record(now);
    if !within_budget {
        return (
            refuse(id, "too many wrong pairing attempts; wait a minute and try again"),
            false,
        );
    }
    let judged = match &state.pending_code {
        None => {
            return (refuse(id, "no pairing code is active"), false);
        },
        Some(p) => judge(p, code, now),
    };
    match judged {
        PairResult::Accepted => {
            let token = generate_token(fresh);
            let ghost was = state.tokens.list();
            assert(state.tokens.set().contains(token@) == was.contains(token@));
            state.tokens.add(token.clone());
            state.pending_code = None;
            (Step::Reply(ServerMessage::Paired { id, token }), true)
        },
        PairResult::WrongCode => (refuse(id, "wrong pairing code"), false),
        PairResult::Expired => (
            refuse(
                id,
                "pairing code expired; restart the server or check its terminal for a new one",
            ),
            false,
        ),
    }
}

/// Acts on a message: answers it, or hands the player a command. `fresh` are new random bytes, used
/// for a token if the message earns one. `resolved` is what the path of a request to play resolves to.
pub fn dispatch(
    state: &mut ServerState,
    authed: &mut bool,
    msg: ClientMessage,
    now: i128,
    fresh: [u8; 16],
    resolved: Option<&str>,
    library: &Scan,
) -> (r: Step)
    requires
        old(state).wf(),
    ensures
        final(state).wf(),
        ({
            let (d, s, now_authed) = decided(
                old(state).content(),
                msg.content(),
                now,
                hex(fresh@),
                opt_str_view(resolved),
                library.content().files,
            );
            &&& r.is(d)
            &&& final(state).content() == s
            &&& *final(authed) == (*old(authed) || now_authed)
        }),
{
    match msg {
        ClientMessage::Pair { id, code } => {
            let (step, ok) = pair(state, id, code.as_str(), now, fresh);
            if ok {
                *authed = true;
            }
            step
        },
        ClientMessage::Auth { id, token } => {
            assert(state.tokens.set().contains(token@) == state.tokens.list().contains(token@));
            if state.tokens.is_valid(token.as_str()) {
                *authed = true;
                Step::Reply(ServerMessage::Reply { id, result: ReplyBody::Done })
            } else {
                refuse(id, "unknown token; pair again")
            }
        },
        ClientMessage::Library { id } => Step::Reply(
            ServerMessage::Reply { id, result: ReplyBody::Library(library_entries(library)) },
        ),
        ClientMessage::Play { id, path } => match contain_within_library(
            state.library_root.as_str(),
            resolved,
        ) {
            Ok(p) => Step::Run { id, body: CommandBody::Play(p) },
            Err(e) => refuse(id, e.as_str()),
        },
        ClientMessage::Pause { id } => Step::Run { id, body: CommandBody::Pause },
        ClientMessage::Resume { id } => Step::Run { id, body: CommandBody::Resume },
        ClientMessage::TogglePlayPause { id } => Step::Run { id, body: CommandBody::Toggle },
        ClientMessage::Seek { id, position_ms } => Step::Run {
            id,
            body: CommandBody::Seek(position_ms),
        },
        ClientMessage::SetVolume { id, level } => Step::Run {
            id,
            body: CommandBody::SetVolume(level),
        },
        ClientMessage::Next { id } => refuse(id, "no queue yet; play a specific file instead"),
        ClientMessage::Previous { id } => refuse(id, "no queue yet; play a specific file instead"),
    }
}

/// What a line from a client leads to: nothing but pairing and authenticating is open to a
/// connection that has done neither.
pub open spec fn line_decided(
    s: Shared,
    authed: bool,
    line: Seq<char>,
    now: i128,
    token: Seq<char>,
    resolved: Option<Seq<char>>,
    files: Seq<Scanned>,
) -> (Decision, Shared, bool) {
    match request_on(line) {
        None => (Decision::Refused { id: "?"@, message: "malformed message"@ }, s, false),
        Some(m) => if !authed && !m.pre_auth() {
            (Decision::Refused { id: m.id(), message: "pair or authenticate first"@ }, s, false)
        } else {
            decided(s, m, now, token, resolved, files)
        },
    }
}

/// The path that a line asks to play, when it does. It is what `handle_line` wants resolved.
pub fn path_to_play(line: &str) -> (r: Option<String>)
    ensures
        match request_on(line@) {
            Some(Request::Play { id, path }) => opt_view(r) == Some(path),
            _ => r is None,
        },
{
    match ClientMessage::parse(line) {
        Some(ClientMessage::Play { id, path }) => Some(path),
        _ => None,
    }
}

/// Reads a line and acts on it.
pub fn handle_line(
    state: &mut ServerState,
    authed: &mut bool,
    line: &str,
    now: i128,
    fresh: [u8; 16],
    resolved: Option<&str>,
    library: &Scan,
) -> (r: Step)
    requires
        old(state).wf(),
    ensures
        final(state).wf(),
        ({
            let (d, s, now_authed) = line_decided(
                old(state).content(),
                *old(authed),
                line@,
                now,
                hex(fresh@),
                opt_str_view(resolved),
                library.content().files,
            );
            &&& r.is(d)
            &&& final(state).content() == s
            &&& *final(authed) == (*old(authed) || now_authed)
        }),
{
    let msg = match ClientMessage::parse(line) {
        Some(m) => m,
        None => {
            return refuse(owned("?"), "malformed message");
        },
    };
    if !*authed && !msg.is_pre_auth() {
        return refuse(owned(msg.id()), "pair or authenticate first");
    }
    dispatch(state, authed, msg, now, fresh, resolved, library)
}

/// An unauthenticated connection can pair or authenticate and nothing else: every other message is
/// refused, changes nothing, and authenticates nobody.
pub proof fn strangers_get_nothing(
    s: Shared,
    line: Seq<char>,
    now: i128,
    token: Seq<char>,
    resolved: Option<Seq<char>>,
    files: Seq<Scanned>,
)
    requires
        match request_on(line) {
            Some(m) => !m.pre_auth(),
            None => true,
        },
    ensures
        ({
            let (d, after, authed) = line_decided(s, false, line, now, token, resolved, files);
            d is Refused && after == s && !authed
        }),
{
}

/// Whatever is handed to the player to open lies within the served library.
pub proof fn only_library_files_play(
    s: Shared,
    authed: bool,
    line: Seq<char>,
    now: i128,
    token: Seq<char>,
    resolved: Option<Seq<char>>,
    files: Seq<Scanned>,
)
    ensures
        match line_decided(s, authed, line, now, token, resolved, files).0 {
            Decision::Run { order: Order::Play(p), .. } => within(p, s.root) && resolved == Some(p),
            _ => true,
        },
{
}

/// A pairing code works once: after it was accepted, the same code is refused until a new one is
/// made.
pub proof fn a_code_works_once(
    s: Shared,
    id: Seq<char>,
    code: Seq<char>,
    now: i128,
    token: Seq<char>,
    again: Seq<char>,
    later: i128,
    other: Seq<char>,
)
    requires
        pairing(s, id, code, now, token).2,
    ensures
        ({
            let after = pairing(s, id, code, now, token).1;
            pairing(after, again, code, later, other).0 is Refused && !pairing(
                after,
                again,
                code,
                later,
                other,
            ).2
        }),
{
}

/// The token that pairing hands out authenticates later connections.
pub proof fn a_minted_token_authenticates(
    s: Shared,
    id: Seq<char>,
    code: Seq<char>,
    now: i128,
    token: Seq<char>,
    later_id: Seq<char>,
    later: i128,
    files: Seq<Scanned>,
)
    requires
        pairing(s, id, code, now, token).2,
    ensures
        ({
            let after = pairing(s, id, code, now, token).1;
            decided(
                after,
                Request::Auth { id: later_id, token },
                later,
                token,
                None,
                files,
            ) == (Decision::Done { id: later_id }, after, true)
        }),
{
    if !s.tokens.contains(token) {
        assert(s.tokens.push(token)[s.tokens.len() as int] == token);
    }
}

/// Once the attempts of a window are used up, even the right code is refused.
pub proof fn guessing_is_bounded(
    s: Shared,
    id: Seq<char>,
    code: Seq<char>,
    now: i128,
    token: Seq<char>,
)
    requires
        crate::remote::pairing::recent(s.attempts, now as int, s.span).len() >= s.max,
    ensures
        pairing(s, id, code, now, token).0 is Refused,
        !pairing(s, id, code, now, token).2,
        pairing(s, id, code, now, token).1.tokens == s.tokens,
{
}

/// How a command to the player ended.
#[derive(Debug, Clone, PartialEq)]
pub enum PlayerOutcome {
    /// The player took the command.
    Done,
    /// The player refused it.
    Failed(String),
    /// Nobody takes commands any more.
    Gone,
    /// No answer came in time.
    TimedOut,
}

/// The answer that a command's outcome makes.
pub open spec fn outcome_decided(id: Seq<char>, o: PlayerOutcome) -> Decision {
    match o {
        PlayerOutcome::Done => Decision::Done { id },
        PlayerOutcome::Failed(e) => Decision::Refused { id, message: e@ },
        PlayerOutcome::Gone => Decision::Refused { id, message: "the player is not responding"@ },
        PlayerOutcome::TimedOut => Decision::Refused {
            id,
            message: "timed out waiting for the player"@,
        },
    }
}

/// The answer to the client whose command ended so.
pub fn run_command(id: String, outcome: PlayerOutcome) -> (r: ServerMessage)
    ensures
        Step::Reply(r).is(outcome_decided(id@, outcome)),
{
    match outcome {
        PlayerOutcome::Done => ServerMessage::Reply { id, result: ReplyBody::Done },
        PlayerOutcome::Failed(e) => ServerMessage::Error { id, message: e },
        PlayerOutcome::Gone => ServerMessage::Error {
            id,
            message: owned("the player is not responding"),
        },
        PlayerOutcome::TimedOut => ServerMessage::Error {
            id,
            message: owned("timed out waiting for the player"),
        },
    }
}

/// The words of the player's command. `seconds` is a seek's position in seconds, written out.
pub open spec fn command_words(order: Order, seconds: Seq<char>) -> Seq<Seq<char>> {
    match order {
        Order::Play(p) => seq!["loadfile"@, p, "replace"@],
        Order::Pause => seq!["set_property"@, "pause"@, "yes"@],
        Order::Resume => seq!["set_property"@, "pause"@, "no"@],
        Order::Toggle => seq!["cycle"@, "pause"@],
        Order::Seek(_) => seq!["seek"@, seconds, "absolute"@],
        Order::SetVolume(level) => seq!["set_property"@, "volume"@, crate::text::dec(level as nat)],
        Order::Health { .. } => seq!["get_property"@, "idle-active"@],
    }
}

/// The words of the player's command. `seconds` is a seek's position in seconds, written out.
pub fn execute(body: &CommandBody, seconds: &str) -> (r: Vec<String>)
    ensures
        views(r@) == command_words(body.content(), seconds@),
{
    let words = match body {
        CommandBody::Play(p) => vec![owned("loadfile"), p.clone(), owned("replace")],
        CommandBody::Pause => vec![owned("set_property"), owned("pause"), owned("yes")],
        CommandBody::Resume => vec![owned("set_property"), owned("pause"), owned("no")],
        CommandBody::Toggle => vec![owned("cycle"), owned("pause")],
        CommandBody::Seek(_) => vec![owned("seek"), owned(seconds), owned("absolute")],
        CommandBody::SetVolume(level) => vec![
            owned("set_property"),
            owned("volume"),
            dec_text(*level as u128),
        ],
        CommandBody::Health { .. } => vec![owned("get_property"), owned("idle-active")],
    };
    assert(views(words@) =~= command_words(body.content(), seconds@));
    words
}

/// How the server is doing.
#[derive(Debug, Clone, PartialEq, Eq)]
pub struct HealthReport {
    pub mpv_roundtrip_ms: u64,
    pub tls_cert_expires_in_secs: Option<i64>,
    pub library_last_indexed_unix_secs: Option<u64>,
    pub free_disk_bytes: Option<u64>,
    pub paired_client_count: u32,
}

/// The report, once the player was asked: `answered` says whether it gave any answer, and
/// `roundtrip_ms` how long that took. `None` for a command that asks for no report.
pub fn health_report(body: &CommandBody, answered: bool, roundtrip_ms: u64) -> (r: Option<
    Result<HealthReport, String>,
>)
    ensures
        match body.content() {
            Order::Health {
                tls_cert_expires_in_secs,
                library_last_indexed_unix_secs,
                free_disk_bytes,
                paired_client_count,
            } => match r {
                Some(Ok(h)) => answered && h == (HealthReport {
                    mpv_roundtrip_ms: roundtrip_ms,
                    tls_cert_expires_in_secs,
                    library_last_indexed_unix_secs,
                    free_disk_bytes,
                    paired_client_count,
                }),
                Some(Err(e)) => !answered && e@
                    == "mpv did not respond to a basic property query"@,
                None => false,
            },
            _ => r is None,
        },
{
    match body {
        CommandBody::Health {
            tls_cert_expires_in_secs,
            library_last_indexed_unix_secs,
            free_disk_bytes,
            paired_client_count,
        } => {
            if !answered {
                return Some(Err(owned("mpv did not respond to a basic property query")));
            }
            Some(
                Ok(
                    HealthReport {
                        mpv_roundtrip_ms: roundtrip_ms,
                        tls_cert_expires_in_secs: *tls_cert_expires_in_secs,
                        library_last_indexed_unix_secs: *library_last_indexed_unix_secs,
                        free_disk_bytes: *free_disk_bytes,
                        paired_client_count: *paired_client_count,
                    },
                ),
            )
        },
        _ => None,
    }
}

/// A time in seconds as whole milliseconds; zero when it is not known.
pub open spec fn in_milliseconds(seconds: Option<Measure>) -> i64 {
    match seconds {
        Some(t) => t.times(thousand()).truncated(),
        None => 0,
    }
}

/// A thousand.
pub open spec fn thousand() -> Measure {
    Measure::Finite { negative: false, mantissa: 1000, exponent: 0 }
}

/// A volume as a whole number up to a hundred, which is what stands for an unknown one.
pub open spec fn in_hundredths(volume: Option<Measure>) -> u8 {
    match volume {
        Some(v) => if v.above(100) {
            100
        } else {
            v.whole_part() as u8
        },
        None => 100,
    }
}

fn milliseconds(seconds: Option<Measure>) -> (r: i64)
    ensures
        r == in_milliseconds(seconds),
{
    match seconds {
        Some(t) => t.product(
            Measure::Finite { negative: false, mantissa: 1000, exponent: 0 },
        ).to_i64(),
        None => 0,
    }
}

fn hundredths(volume: Option<Measure>) -> (r: u8)
    ensures
        r == in_hundredths(volume),
        r <= 100,
{
    match volume {
        Some(v) => if v.exceeds(100) {
            100
        } else {
            proof {
                crate::measure::whole_is_no_greater(v, 100);
            }
            v.whole() as u8
        },
        None => 100,
    }
}

/// What the player's properties say is playing. Without a path nothing is.
pub open spec fn state_read(
    path: Option<Seq<char>>,
    title: Option<Seq<char>>,
    duration: Option<Measure>,
    position: Option<Measure>,
    paused: Option<bool>,
    volume: Option<Measure>,
) -> Option<Playing> {
    match path {
        None => None,
        Some(p) => Some(
            Playing {
                path: p,
                title: match title {
                    Some(t) => t,
                    None => p,
                },
                duration_ms: in_milliseconds(duration),
                position_ms: in_milliseconds(position),
                paused: paused == Some(true),
                volume: in_hundredths(volume),
            },
        ),
    }
}

/// What the player's properties say is playing: times in seconds, the volume in hundredths. A file
/// without a title goes by its path.
pub fn read_state(
    path: Option<String>,
    title: Option<String>,
    duration: Option<Measure>,
    position: Option<Measure>,
    paused: Option<bool>,
    volume: Option<Measure>,
) -> (r: PlaybackState)
    ensures
        now_content(r.now_playing) == state_read(
            opt_view(path),
            opt_view(title),
            duration,
            position,
            paused,
            volume,
        ),
        r.library_version == 0,
{
    match path {
        None => PlaybackState { now_playing: None, library_version: 0 },
        Some(p) => {
            let title = match title {
                Some(t) => t,
                None => p.clone(),
            };
            let paused = match paused {
                Some(b) => b,
                None => false,
            };
            PlaybackState {
                now_playing: Some(
                    NowPlaying {
                        path: p,
                        title,
                        duration_ms: milliseconds(duration),
                        position_ms: milliseconds(position),
                        paused,
                        volume: hundredths(volume),
                    },
                ),
                library_version: 0,
            }
        },
    }
}

/// The arguments of a player that waits for its first command. What is passed through comes last,
/// so that it wins.
pub open spec fn idle_args(ipc_path: Seq<char>, extra: Seq<Seq<char>>) -> Seq<Seq<char>> {
    seq![
        "--input-ipc-server="@ + ipc_path,
        "--idle=yes"@,
        "--force-window=yes"@,
        "--keep-open=yes"@,
        "--term-status-msg="@,
        "--msg-level=all=error"@,
        "--no-input-terminal"@,
    ] + extra
}

/// The arguments of a player that waits for its first command.
pub fn idle_mpv_args(ipc_path: &str, extra_args: &Vec<String>) -> (r: Vec<String>)
    ensures
        views(r@) == idle_args(ipc_path@, views(extra_args@)),
{
    let mut socket = owned("--input-ipc-server=");
    socket.append(ipc_path);
    let mut args = vec![
        socket,
        owned("--idle=yes"),
        owned("--force-window=yes"),
        owned("--keep-open=yes"),
        owned("--term-status-msg="),
        owned("--msg-level=all=error"),
        owned("--no-input-terminal"),
    ];
    let ghost fixed = views(args@);
    assert(fixed =~= idle_args(ipc_path@, Seq::empty()));
    assert(fixed + views(extra_args@) =~= idle_args(ipc_path@, views(extra_args@)));
    append_all(&mut args, extra_args);
    args
}

/// Appends copies of the texts.
pub(crate) fn append_all(out: &mut Vec<String>, more: &Vec<String>)
    ensures
        views(final(out)@) == views(old(out)@) + views(more@),
{
    let ghost start = views(out@);
    let mut i: usize = 0;
    assert(start + views(more@).take(0) =~= start);
    while i < more.len()
        invariant
            i <= more@.len(),
            views(out@) == start + views(more@).take(i as int),
        decreases more@.len() - i,
    {
        let ghost known = views(out@);
        out.push(more[i].clone());
        i += 1;
        assert(views(out@) =~= known.push(more@[i - 1]@));
        assert(views(out@) =~= start + views(more@).take(i as int));
    }
    assert(views(more@).take(i as int) =~= views(more@));
}

/// The times that a clock can tell, in nanoseconds before or after the Unix epoch: those whose whole
/// seconds fit in 64 bits.
pub open spec fn tellable(t: int) -> bool {
    -9_223_372_036_854_775_808_000_000_000 <= t <= 9_223_372_036_854_775_807_999_999_999
}

/// Whole seconds from `now` until `target`; negative once it has passed.
pub fn seconds_until(target: i128, now: i128) -> (r: i64)
    requires
        tellable(target as int),
        tellable(now as int),
        -9_223_372_036_854_775_807_999_999_999 <= target - now
            <= 9_223_372_036_854_775_807_999_999_999,
    ensures
        target >= now ==> r == (target - now) / 1_000_000_000,
        target < now ==> r == -((now - target) / 1_000_000_000),
{
    if target >= now {
        ((target - now) / 1_000_000_000) as i64
    } else {
        let past: i128 = (now - target) / 1_000_000_000;
        -(past as i64)
    }
}

/// The text without the newlines and carriage returns at its end.
pub open spec fn trim_newlines(s: Seq<char>) -> Seq<char>
    decreases s.len(),
{
    if s.len() > 0 && (s.last() == '\n' || s.last() == '\r') {
        trim_newlines(s.drop_last())
    } else {
        s
    }
}

/// The index of the first newline byte at or after `i`, or the length when there is none.
pub open spec fn newline_from(b: Seq<u8>, i: int) -> int
    decreases b.len() - i,
{
    if i < 0 || i >= b.len() {
        b.len() as int
    } else if b[i] == 10 {
        i
    } else {
        newline_from(b, i + 1)
    }
}

/// The first newline is at or after the place that is looked from.
pub proof fn newline_is_ahead(b: Seq<u8>, i: int)
    requires
        0 <= i <= b.len(),
    ensures
        i <= newline_from(b, i) <= b.len(),
    decreases b.len() - i,
{
    if i < b.len() && b[i] != 10 {
        newline_is_ahead(b, i + 1);
    }
}

/// What follows the first newline has no say in where it is.
pub proof fn newline_stays(a: Seq<u8>, b: Seq<u8>, i: int)
    requires
        0 <= i <= a.len(),
        newline_from(a, i) < a.len(),
    ensures
        newline_from(a + b, i) == newline_from(a, i),
    decreases a.len() - i,
{
    if i < a.len() {
        assert((a + b)[i] == a[i]);
        if a[i] != 10 {
            newline_stays(a, b, i + 1);
        }
    }
}

/// The first complete line of what was received, without its line ending, and what follows it.
pub open spec fn first_line(b: Seq<u8>) -> Option<(Seq<char>, Seq<u8>)> {
    let i = newline_from(b, 0);
    if i < b.len() {
        Some((trim_newlines(lossy_text(b.take(i + 1))), b.skip(i + 1)))
    } else {
        None
    }
}

fn bytes_between(b: &Vec<u8>, from: usize, to: usize) -> (r: Vec<u8>)
    requires
        from <= to <= b@.len(),
    ensures
        r@ == b@.subrange(from as int, to as int),
{
    let mut out: Vec<u8> = Vec::new();
    let mut i: usize = from;
    while i < to
        invariant
            from <= i <= to <= b@.len(),
            out@ == b@.subrange(from as int, i as int),
        decreases to - i,
    {
        out.push(b[i]);
        i += 1;
        assert(out@ =~= b@.subrange(from as int, i as int));
    }
    out
}

/// Takes the first complete line out of what was received; `None` while there is none. Bytes that
/// are not UTF-8 become replacement characters. An empty line says nothing and is to be passed over.
pub fn next_line(pending: &mut Vec<u8>) -> (r: Option<String>)
    ensures
        match first_line(old(pending)@) {
            Some((line, rest)) => opt_view(r) == Some(line) && final(pending)@ == rest,
            None => r is None && final(pending)@ == old(pending)@,
        },
{
    let n: usize = pending.len();
    let mut i: usize = 0;
    while i < n && pending[i] != 10
        invariant
            n == pending@.len(),
            i <= n,
            pending@ == old(pending)@,
            newline_from(pending@, 0) == newline_from(pending@, i as int),
        decreases n - i,
    {
        i += 1;
    }
    if i >= n {
        return None;
    }
    let taken = bytes_between(pending, 0, i + 1);
    let rest = bytes_between(pending, i + 1, n);
    assert(taken@ =~= pending@.take(i as int + 1));
    assert(rest@ =~= pending@.skip(i as int + 1));
    let text = lossy(taken.as_slice());
    let chars = chars_of(text.as_str());
    let mut to: usize = chars.len();
    assert(text@.take(to as int) =~= text@);
    while to > 0 && (chars[to - 1] == '\n' || chars[to - 1] == '\r')
        invariant
            chars@ == text@,
            to <= chars@.len(),
            trim_newlines(text@) == trim_newlines(text@.take(to as int)),
        decreases to,
    {
        assert(text@.take(to as int).drop_last() =~= text@.take(to - 1));
        to -= 1;
    }
    let line = slice_text(&chars, 0, to);
    assert(line@ =~= text@.take(to as int));
    *pending = rest;
    Some(line)
}

/// What every connected client may see, with a number that goes up at each change.
pub struct SharedState {
    pub state: PlaybackState,
    pub version: u64,
}

/// Whether two states say the same.
pub open spec fn same_playback(a: PlaybackState, b: PlaybackState) -> bool {
    now_content(a.now_playing) == now_content(b.now_playing) && a.library_version
        == b.library_version
}

fn equal_playback(a: &PlaybackState, b: &PlaybackState) -> (r: bool)
    ensures
        r == same_playback(*a, *b),
{
    let now = match (&a.now_playing, &b.now_playing) {
        (None, None) => true,
        (Some(x), Some(y)) => same(x.path.as_str(), y.path.as_str()) && same(
            x.title.as_str(),
            y.title.as_str(),
        ) && x.duration_ms == y.duration_ms && x.position_ms == y.position_ms && x.paused
            == y.paused && x.volume == y.volume,
        _ => false,
    };
    now && a.library_version == b.library_version
}

impl SharedState {
    pub fn new() -> (r: Self)
        ensures
            r.state.now_playing is None,
            r.state.library_version == 0,
            r.version == 0,
    {
        SharedState { state: PlaybackState::default(), version: 0 }
    }

    /// The state and its number.
    pub fn snapshot(&self) -> (r: (&PlaybackState, u64))
        ensures
            *r.0 == self.state,
            r.1 == self.version,
    {
        (&self.state, self.version)
    }

    /// Shows a new state. The number goes up exactly when the state says something new.
    pub fn publish(&mut self, new_state: PlaybackState)
        ensures
            same_playback(old(self).state, new_state) ==> *final(self) == *old(self),
            !same_playback(old(self).state, new_state) ==> final(self).state == new_state,
            !same_playback(old(self).state, new_state) ==> final(self).version == (if old(self).version == u64::MAX {
                0
            } else {
                (old(self).version + 1) as u64
            }),
    {
        if equal_playback(&self.state, &new_state) {
            return;
        }
        self.state = new_state;
        self.version = self.version.wrapping_add(1);
    }

    /// Whether a connection that last sent the state of number `last` owes its client a new one. A
    /// connection that is not authenticated owes nothing.
    pub fn owes_push(&self, authed: bool, last: u64) -> (r: bool)
        ensures
            r == (authed && self.version != last),
    {
        authed && self.version != last
    }
}

/// One connection's share in the count of authenticated clients.
pub struct ActiveClientGuard {
    active: bool,
}

impl ActiveClientGuard {
    /// Whether the connection is counted.
    pub closed spec fn counted(&self) -> bool {
        self.active
    }

    pub fn new() -> (r: Self)
        ensures
            !r.counted(),
    {
        ActiveClientGuard { active: false }
    }

    /// Counts the connection, once.
    pub fn mark_active(&mut self, counter: &mut u32)
        ensures
            final(self).counted(),
            *final(counter) == (if old(self).counted() {
                *old(counter)
            } else if *old(counter) == u32::MAX {
                0
            } else {
                (*old(counter) + 1) as u32
            }),
    {
        if !self.active {
            self.active = true;
            *counter = counter.wrapping_add(1);
        }
    }

    /// Takes the connection out of the count, if it is in it.
    pub fn release(self, counter: &mut u32)
        ensures
            *final(counter) == (if !self.counted() {
                *old(counter)
            } else if *old(counter) == 0 {
                u32::MAX
            } else {
                (*old(counter) - 1) as u32
            }),
    {
        if self.active {
            *counter = counter.wrapping_sub(1);
        }
    }
}

/// What a request over HTTP leads to, before any file is touched.
#[derive(Debug, Clone, PartialEq)]
pub enum HttpStep {
    Refuse { code: u16, reason: &'static str },
    /// The cinema page.
    Page,
    /// A part of an HLS presentation: everything after the prefix.
    Hls(String),
    /// A part of a DASH presentation: everything after the prefix.
    Dash(String),
    /// The file to stream.
    Stream(String),
}

/// What a request over HTTP leads to.
pub enum HttpDecision {
    Refuse(nat, Seq<char>),
    Page,
    Hls(Seq<char>),
    Dash(Seq<char>),
    Stream(Seq<char>),
}

impl HttpStep {
    /// What the request leads to.
    pub open spec fn content(self) -> HttpDecision {
        match self {
            HttpStep::Refuse { code, reason } => HttpDecision::Refuse(code as nat, reason@),
            HttpStep::Page => HttpDecision::Page,
            HttpStep::Hls(rest) => HttpDecision::Hls(rest@),
            HttpStep::Dash(rest) => HttpDecision::Dash(rest@),
            HttpStep::Stream(path) => HttpDecision::Stream(path@),
        }
    }
}

/// The token that a request presents: in its `Authorization` header, or else in its query, since a
/// video element cannot set a header.
pub open spec fn token_presented(req: crate::http::Request) -> Option<Seq<char>> {
    let in_header = match header_value(req.headers, "authorization"@) {
        Some(h) => after_prefix(h, "Bearer "@),
        None => None,
    };
    match in_header {
        Some(t) => Some(t),
        None => param_from(split(req.query, '&'), "token"@, 0),
    }
}

/// What a request over HTTP leads to. Only a paired token opens a stream.
pub open spec fn http_decided(req: crate::http::Request, tokens: Set<Seq<char>>) -> HttpDecision {
    if req.method != "GET"@ && req.method != "HEAD"@ {
        HttpDecision::Refuse(405, "Method Not Allowed"@)
    } else if req.path == "/vr"@ {
        HttpDecision::Page
    } else if "/hls/"@.is_prefix_of(req.path) {
        HttpDecision::Hls(req.path.skip("/hls/"@.len() as int))
    } else if "/dash/"@.is_prefix_of(req.path) {
        HttpDecision::Dash(req.path.skip("/dash/"@.len() as int))
    } else if !"/stream/"@.is_prefix_of(req.path) {
        HttpDecision::Refuse(404, "Not Found"@)
    } else {
        match token_presented(req) {
            Some(t) => if tokens.contains(t) {
                HttpDecision::Stream(req.path.skip("/stream/"@.len() as int))
            } else {
                HttpDecision::Refuse(401, "Unauthorized"@)
            },
            None => HttpDecision::Refuse(401, "Unauthorized"@),
        }
    }
}

fn presented_token(req: &HttpRequest) -> (r: Option<String>)
    ensures
        opt_view(r) == token_presented(req.content()),
{
    match req.header("authorization") {
        Some(h) => match strip_prefix(h, "Bearer ") {
            Some(t) => {
                return Some(t);
            },
            None => {},
        },
        None => {},
    }
    query_param(req.query.as_str(), "token")
}

/// Decides what a request over HTTP leads to.
pub fn handle_request(req: &HttpRequest, tokens: &TokenStore) -> (r: HttpStep)
    ensures
        r.content() == http_decided(req.content(), tokens.set()),
{
    if !same(req.method.as_str(), "GET") && !same(req.method.as_str(), "HEAD") {
        return HttpStep::Refuse { code: 405, reason: "Method Not Allowed" };
    }
    if same(req.path.as_str(), "/vr") {
        return HttpStep::Page;
    }
    match strip_prefix(req.path.as_str(), "/hls/") {
        Some(rest) => {
            return HttpStep::Hls(rest);
        },
        None => {},
    }
    match strip_prefix(req.path.as_str(), "/dash/") {
        Some(rest) => {
            return HttpStep::Dash(rest);
        },
        None => {},
    }
    let requested = match strip_prefix(req.path.as_str(), "/stream/") {
        Some(rest) => rest,
        None => {
            return HttpStep::Refuse { code: 404, reason: "Not Found" };
        },
    };
    match presented_token(req) {
        Some(t) => if tokens.is_valid(t.as_str()) {
            HttpStep::Stream(requested)
        } else {
            HttpStep::Refuse { code: 401, reason: "Unauthorized" }
        },
        None => HttpStep::Refuse { code: 401, reason: "Unauthorized" },
    }
}

/// No file is streamed to a request that presents no paired token.
pub proof fn streams_need_a_token(req: crate::http::Request, tokens: Set<Seq<char>>)
    ensures
        http_decided(req, tokens) is Stream ==> token_presented(req) is Some && tokens.contains(
            token_presented(req)->0,
        ),
{
}

/// The container of the first scanned file with a path.
pub open spec fn container_at(files: Seq<Scanned>, path: Seq<char>, i: int) -> Option<Container>
    decreases files.len() - i,
{
    if i < 0 || i >= files.len() {
        None
    } else if files[i].path == path {
        files[i].container
    } else {
        container_at(files, path, i + 1)
    }
}

/// The file to stream and its media type, given what the requested path resolves to; `None` for a
/// file that is not there or outside the library.
pub fn stream_target(library_root: &str, resolved: Option<&str>, library: &Scan) -> (r: Option<
    (String, &'static str),
>)
    ensures
        match contained(library_root@, opt_str_view(resolved)) {
            Ok(p) => match r {
                Some((path, ty)) => path@ == p && ty@ == media_type(
                    container_at(library.content().files, p, 0),
                    extension_of(p),
                ),
                None => false,
            },
            Err(_) => r is None,
        },
{
    let path = match contain_within_library(library_root, resolved) {
        Ok(p) => p,
        Err(_) => {
            return None;
        },
    };
    let ghost files = contents(library.files@);
    let mut container: Option<Container> = None;
    let mut i: usize = 0;
    while i < library.files.len()
        invariant_except_break
            container is None,
            container_at(files, path@, 0) == container_at(files, path@, i as int),
        invariant
            i <= library.files@.len(),
            files == contents(library.files@),
        ensures
            container == container_at(files, path@, 0),
        decreases library.files@.len() - i,
    {
        assert(files[i as int] == library.files@[i as int].content());
        if same(library.files[i].path.as_str(), path.as_str()) {
            container = library.files[i].container;
            break;
        }
        i += 1;
    }
    let ext = extension(path.as_str());
    let ty = content_type_for(container, opt_borrow(&ext));
    Some((path, ty))
}

/// What a player shows that obeys its commands.
pub struct Player {
    /// The file that is loaded.
    pub path: Option<Seq<char>>,
    pub paused: bool,
    /// From 0 to 100.
    pub volume: nat,
    /// Where it was last told to go, in seconds, written out.
    pub position: Option<Seq<char>>,
}

/// The player after a command: how the player itself understands the words.
pub open spec fn obeyed(p: Player, words: Seq<Seq<char>>) -> Player {
    if words.len() == 3 && words[0] == "set_property"@ && words[1] == "pause"@ {
        Player { paused: words[2] == "yes"@, ..p }
    } else if words.len() == 3 && words[0] == "set_property"@ && words[1] == "volume"@ {
        Player { volume: digits_value(words[2]), ..p }
    } else if words.len() == 2 && words[0] == "cycle"@ && words[1] == "pause"@ {
        Player { paused: !p.paused, ..p }
    } else if words.len() == 3 && words[0] == "loadfile"@ && words[2] == "replace"@ {
        Player { path: Some(words[1]), position: None, ..p }
    } else if words.len() == 3 && words[0] == "seek"@ && words[2] == "absolute"@ {
        Player { position: Some(words[1]), ..p }
    } else {
        p
    }
}

/// The words of a command do to the player what its name says, and nothing else: a pause leaves it
/// paused and a resume leaves it running, whatever it did before; a toggle swaps the two, so that a
/// second one takes the first back; a file that is played is the one that is loaded; a seek goes to
/// the given seconds; a volume is set to its level; a question about health changes nothing.
pub proof fn commands_do_what_they_say(p: Player, order: Order, seconds: Seq<char>)
    ensures
        order is Pause ==> obeyed(p, command_words(order, seconds)) == (Player {
            paused: true,
            ..p
        }),
        order is Resume ==> obeyed(p, command_words(order, seconds)) == (Player {
            paused: false,
            ..p
        }),
        order is Toggle ==> obeyed(p, command_words(order, seconds)) == (Player {
            paused: !p.paused,
            ..p
        }),
        match order {
            Order::Play(path) => obeyed(p, command_words(order, seconds)) == (Player {
                path: Some(path),
                position: None,
                ..p
            }),
            _ => true,
        },
        order is Seek ==> obeyed(p, command_words(order, seconds)) == (Player {
            position: Some(seconds),
            ..p
        }),
        match order {
            Order::SetVolume(level) => obeyed(p, command_words(order, seconds)) == (Player {
                volume: level as nat,
                ..p
            }),
            _ => true,
        },
        order is Health ==> obeyed(p, command_words(order, seconds)) == p,
{
    reveal_strlit("set_property");
    reveal_strlit("get_property");
    reveal_strlit("cycle");
    reveal_strlit("loadfile");
    reveal_strlit("seek");
    reveal_strlit("pause");
    reveal_strlit("volume");
    reveal_strlit("yes");
    reveal_strlit("no");
    reveal_strlit("idle-active");
    assert("set_property"@.len() == 12 && "loadfile"@.len() == 8 && "seek"@.len() == 4);
    assert("pause"@.len() == 5 && "volume"@.len() == 6 && "yes"@.len() == 3 && "no"@.len() == 2);
    match order {
        Order::SetVolume(level) => {
            crate::json_writer::dec_value(level as nat);
        },
        _ => {},
    }
}

/// What an authenticated client writes is what happens to the player, under the id of its message:
/// `pause` pauses, `resume` runs on, `toggle` swaps the two, `play` loads the file that the path
/// stands for, `seek` goes to the position and `volume` sets the level, no higher than a hundred.
pub proof fn lines_reach_the_player(
    s: Shared,
    line: Seq<char>,
    v: Json,
    id: Seq<char>,
    ty: Seq<char>,
    now: i128,
    token: Seq<char>,
    resolved: Option<Seq<char>>,
    files: Seq<Scanned>,
    seconds: Seq<char>,
    p: Player,
    n: int,
)
    requires
        document(line) == Ok::<Json, Seq<char>>(v),
        str_field(v, "id"@) == Some(id),
        str_field(v, "type"@) == Some(ty),
        -0x20_0000_0000_0000 <= n <= 0x20_0000_0000_0000,
    ensures
        ({
            let d = line_decided(s, true, line, now, token, resolved, files).0;
            let wanted = if ty == "pause"@ {
                Some(Player { paused: true, ..p })
            } else if ty == "resume"@ {
                Some(Player { paused: false, ..p })
            } else if ty == "toggle"@ {
                Some(Player { paused: !p.paused, ..p })
            } else if ty == "play"@ && str_field(v, "path"@) is Some && resolved is Some && within(
                resolved->0,
                s.root,
            ) {
                Some(Player { path: resolved, position: None, ..p })
            } else if ty == "seek"@ && field(v, "position_ms"@) == Some(
                Json::Num(int_dec(n)),
            ) {
                Some(Player { position: Some(seconds), ..p })
            } else if ty == "volume"@ && field(v, "level"@) == Some(Json::Num(int_dec(n))) {
                Some(
                    Player {
                        volume: (if n < 0 {
                            0
                        } else if n > 100 {
                            100
                        } else {
                            n
                        }) as nat,
                        ..p
                    },
                )
            } else {
                None
            };
            &&& wanted is Some ==> match d {
                Decision::Run { id: i, order } => i == id && obeyed(
                    p,
                    command_words(order, seconds),
                ) == wanted->0,
                _ => false,
            }
            &&& ty == "seek"@ && field(v, "position_ms"@) == Some(Json::Num(int_dec(n))) ==> d == (
            Decision::Run { id, order: Order::Seek(n as i64) })
        }),
{
    reveal_strlit("pair");
    reveal_strlit("auth");
    reveal_strlit("library");
    reveal_strlit("play");
    reveal_strlit("pause");
    reveal_strlit("resume");
    reveal_strlit("toggle");
    reveal_strlit("seek");
    reveal_strlit("volume");
    assert("pair"@.len() == 4 && "auth"@.len() == 4 && "library"@.len() == 7 && "play"@.len() == 4);
    assert("pause"@.len() == 5 && "resume"@.len() == 6 && "toggle"@.len() == 6);
    assert("seek"@.len() == 4 && "volume"@.len() == 6);
    assert("pair"@[0] == 'p' && "pair"@[1] == 'a' && "auth"@[0] == 'a' && "play"@[1] == 'l');
    assert("seek"@[0] == 's' && "resume"@[0] == 'r' && "toggle"@[0] == 't' && "volume"@[0] == 'v');
    integers_read_exactly(n);
    match line_decided(s, true, line, now, token, resolved, files).0 {
        Decision::Run { order, .. } => {
            commands_do_what_they_say(p, order, seconds);
        },
        _ => {},
    }
}

/// Every answer goes under the id of the message that it answers, and so does the answer to a
/// command once the player is done with it.
pub proof fn answers_echo_the_id(
    s: Shared,
    authed: bool,
    line: Seq<char>,
    v: Json,
    id: Seq<char>,
    now: i128,
    token: Seq<char>,
    resolved: Option<Seq<char>>,
    files: Seq<Scanned>,
    o: PlayerOutcome,
)
    requires
        document(line) == Ok::<Json, Seq<char>>(v),
        str_field(v, "id"@) == Some(id),
        request_on(line) is Some,
    ensures
        match line_decided(s, authed, line, now, token, resolved, files).0 {
            Decision::Paired { id: i, .. } => i == id,
            Decision::Done { id: i } => i == id,
            Decision::Library { id: i, .. } => i == id,
            Decision::Refused { id: i, .. } => i == id,
            Decision::Run { id: i, .. } => i == id,
        },
        match outcome_decided(id, o) {
            Decision::Done { id: i } => i == id && o is Done,
            Decision::Refused { id: i, .. } => i == id && !(o is Done),
            _ => false,
        },
{
}

/// What a client is told when the player refused: the player's own words.
pub proof fn a_refusal_is_passed_on(id: Seq<char>, why: String)
    ensures
        outcome_decided(id, PlayerOutcome::Failed(why)) == (Decision::Refused { id, message: why@ }),
{
}

proof fn listing_keeps_order(files: Seq<Scanned>)
    ensures
        listing(files) == files.filter(|f: Scanned| f.playable()).map_values(
            |f: Scanned| (f.path, label_of(f)),
        ),
    decreases files.len(),
{
    reveal(Seq::filter);
    let plays = |f: Scanned| f.playable();
    let shown = |f: Scanned| (f.path, label_of(f));
    if files.len() > 0 {
        listing_keeps_order(files.drop_last());
        let kept = files.drop_last().filter(plays);
        if files.last().playable() {
            assert(kept.push(files.last()).map_values(shown) =~= kept.map_values(shown).push(
                shown(files.last()),
            ));
        }
    } else {
        assert(files.filter(plays).map_values(shown) =~= Seq::empty());
    }
}

/// A listing shows the files that play and no other, each under its own path and label, in the
/// order in which they were scanned.
pub proof fn the_listing_shows_what_plays(
    s: Shared,
    line: Seq<char>,
    v: Json,
    id: Seq<char>,
    now: i128,
    token: Seq<char>,
    resolved: Option<Seq<char>>,
    files: Seq<Scanned>,
)
    requires
        document(line) == Ok::<Json, Seq<char>>(v),
        str_field(v, "id"@) == Some(id),
        str_field(v, "type"@) == Some("library"@),
    ensures
        line_decided(s, true, line, now, token, resolved, files).0 == (Decision::Library {
            id,
            entries: files.filter(|f: Scanned| f.playable()).map_values(
                |f: Scanned| (f.path, label_of(f)),
            ),
        }),
{
    reveal_strlit("pair");
    reveal_strlit("auth");
    reveal_strlit("library");
    assert("pair"@.len() == 4 && "auth"@.len() == 4 && "library"@.len() == 7);
    listing_keeps_order(files);
}

/// Only the right code, entered in time and within the budget of attempts, pairs a client; and that
/// does. The new token is then known beside the old ones, and no other attempt changes the tokens.
pub proof fn the_right_code_in_time_pairs(
    s: Shared,
    id: Seq<char>,
    code: Seq<char>,
    expires_at: int,
    entered: Seq<char>,
    now: i128,
    token: Seq<char>,
    other: Seq<char>,
)
    requires
        s.code == Some((code, expires_at)),
        crate::remote::pairing::recent(s.attempts, now as int, s.span).len() < s.max,
    ensures
        ({
            let (d, after, known) = pairing(s, id, entered, now, token);
            &&& known <==> entered == code && now <= expires_at
            &&& known ==> d == (Decision::Paired { id, token }) && after.code is None
            &&& !known ==> d is Refused && after.code == s.code
            &&& after.tokens.contains(other) <==> s.tokens.contains(other) || (known && other
                == token)
            &&& after.root == s.root
        }),
{
    if !s.tokens.contains(token) {
        let more = s.tokens.push(token);
        assert(more[s.tokens.len() as int] == token);
        if s.tokens.contains(other) {
            let i = choose|i: int| 0 <= i < s.tokens.len() && s.tokens[i] == other;
            assert(more[i] == other);
        }
        if more.contains(other) && other != token {
            let i = choose|i: int| 0 <= i < more.len() && more[i] == other;
            assert(s.tokens[i] == other);
        }
    }
}

/// What is shown of the player is what its properties say, each in its own place: the path, the
/// title or else the path, whether it is paused. A time that is not known is zero, a volume that is
/// not known is full, and none is above a hundred.
pub proof fn the_state_shows_the_properties(
    path: Seq<char>,
    title: Option<Seq<char>>,
    duration: Option<Measure>,
    position: Option<Measure>,
    paused: Option<bool>,
    volume: Option<Measure>,
)
    ensures
        state_read(None, title, duration, position, paused, volume) is None,
        match state_read(Some(path), title, duration, position, paused, volume) {
            None => false,
            Some(shown) => {
                &&& shown.path == path
                &&& title is Some ==> shown.title == title->0
                &&& title is None ==> shown.title == path
                &&& shown.paused <==> paused == Some(true)
                &&& duration is None ==> shown.duration_ms == 0
                &&& position is None ==> shown.position_ms == 0
                &&& volume is None ==> shown.volume == 100
                &&& shown.volume <= 100
            },
        },
{
    match volume {
        Some(v) => {
            if !v.above(100) {
                crate::measure::whole_is_no_greater(v, 100);
            }
        },
        None => {},
    }
}

/// A whole number of seconds is shown as a thousand times as many milliseconds, and a whole volume
/// up to a hundred as itself.
pub proof fn whole_quantities_are_shown_exactly(
    path: Seq<char>,
    duration: i64,
    position: i64,
    volume: nat,
)
    requires
        0 <= duration < 0x10_0000_0000,
        0 <= position < 0x10_0000_0000,
        volume <= 100,
    ensures
        match state_read(
            Some(path),
            None,
            Some(Measure::Finite { negative: false, mantissa: duration as u64, exponent: 0 }),
            Some(Measure::Finite { negative: false, mantissa: position as u64, exponent: 0 }),
            None,
            Some(Measure::Finite { negative: false, mantissa: volume as u64, exponent: 0 }),
        ) {
            None => false,
            Some(shown) => shown.duration_ms == 1000 * duration && shown.position_ms == 1000
                * position && shown.volume == volume,
        },
{
    let d = (1000 * duration) as nat;
    let t = (1000 * position) as nat;
    vstd::arithmetic::power2::lemma2_to64();
    crate::binary64::whole_numbers_are_exact(d);
    crate::binary64::whole_numbers_are_exact(t);
    assert(duration as u64 as nat * 1000nat * 1 == d);
    assert(position as u64 as nat * 1000nat * 1 == t);
    assert(volume * 1 == volume);
}

/// What a client pairs and authenticates with is what its line says: the code is tried, the token is
/// looked up, and a request to go on in a queue is refused, since there is none.
pub proof fn lines_pair_and_authenticate(
    s: Shared,
    authed: bool,
    line: Seq<char>,
    v: Json,
    id: Seq<char>,
    word: Seq<char>,
    now: i128,
    token: Seq<char>,
    resolved: Option<Seq<char>>,
    files: Seq<Scanned>,
)
    requires
        document(line) == Ok::<Json, Seq<char>>(v),
        str_field(v, "id"@) == Some(id),
    ensures
        str_field(v, "type"@) == Some("pair"@) && str_field(v, "code"@) == Some(word)
            ==> line_decided(s, authed, line, now, token, resolved, files) == pairing(
            s,
            id,
            word,
            now,
            token,
        ),
        str_field(v, "type"@) == Some("auth"@) && str_field(v, "token"@) == Some(word) ==> ({
            let (d, after, known) = line_decided(s, authed, line, now, token, resolved, files);
            &&& after == s
            &&& known <==> s.tokens.contains(word)
            &&& known ==> d == (Decision::Done { id })
            &&& !known ==> d is Refused
        }),
        str_field(v, "type"@) == Some("next"@) || str_field(v, "type"@) == Some("previous"@) ==> (
        line_decided(s, authed, line, now, token, resolved, files).0 is Refused && line_decided(
            s,
            authed,
            line,
            now,
            token,
            resolved,
            files,
        ).1 == s),
{
    reveal_strlit("pair");
    reveal_strlit("auth");
    reveal_strlit("library");
    reveal_strlit("play");
    reveal_strlit("pause");
    reveal_strlit("resume");
    reveal_strlit("toggle");
    reveal_strlit("seek");
    reveal_strlit("volume");
    reveal_strlit("next");
    reveal_strlit("previous");
    assert("pair"@.len() == 4 && "auth"@.len() == 4 && "library"@.len() == 7 && "play"@.len() == 4);
    assert("pause"@.len() == 5 && "resume"@.len() == 6 && "toggle"@.len() == 6);
    assert("seek"@.len() == 4 && "volume"@.len() == 6 && "next"@.len() == 4 && "previous"@.len()
        == 8);
    assert("pair"@[0] == 'p' && "pair"@[1] == 'a' && "auth"@[0] == 'a' && "play"@[1] == 'l');
    assert("seek"@[0] == 's' && "next"@[0] == 'n' && "play"@[0] == 'p');
}

/// A file is streamed at its own path to a request that presents a paired token, in its header or else
/// in its query, and refused to any other; only fetching is allowed.
pub proof fn paired_requests_stream(
    req: crate::http::Request,
    tokens: Set<Seq<char>>,
    path: Seq<char>,
    token: Seq<char>,
    rest: Seq<char>,
)
    requires
        req.path == "/stream/"@ + path,
        !token.contains('&'),
    ensures
        req.method == "GET"@ && header_value(req.headers, "authorization"@) == Some(
            "Bearer "@ + token,
        ) ==> http_decided(req, tokens) == (if tokens.contains(token) {
            HttpDecision::Stream(path)
        } else {
            HttpDecision::Refuse(401, "Unauthorized"@)
        }),
        req.method == "GET"@ && header_value(req.headers, "authorization"@) is None && req.query
            == "token"@.push('=') + token ==> http_decided(req, tokens) == (if tokens.contains(
            crate::http::percent_decoded(token),
        ) {
            HttpDecision::Stream(path)
        } else {
            HttpDecision::Refuse(401, "Unauthorized"@)
        }),
        req.method != "GET"@ && req.method != "HEAD"@ ==> http_decided(req, tokens)
            == HttpDecision::Refuse(405, "Method Not Allowed"@),
{
    reveal_strlit("/stream/");
    reveal_strlit("/vr");
    reveal_strlit("/hls/");
    reveal_strlit("/dash/");
    reveal_strlit("token");
    let p = req.path;
    assert(p[1] == 's');
    assert("/vr"@[1] == 'v');
    assert(!"/hls/"@.is_prefix_of(p)) by {
        if "/hls/"@.is_prefix_of(p) {
            assert(p.subrange(0, 5)[1] == 'h');
        }
    }
    assert(!"/dash/"@.is_prefix_of(p)) by {
        if "/dash/"@.is_prefix_of(p) {
            assert(p.subrange(0, 6)[1] == 'd');
        }
    }
    crate::text::what_is_added_comes_off(path, "/stream/"@);
    crate::text::what_is_added_comes_off(token, "Bearer "@);
    assert(!"token"@.contains('=') && !"token"@.contains('&'));
    crate::http::parameters_are_found_by_name("token"@, token, "token"@, rest);
}

/// What is received comes line by line: a line ends at the first newline, and what follows it is left
/// for the next; without a newline there is no line yet.
pub proof fn lines_end_at_newlines(line: Seq<u8>, rest: Seq<u8>)
    requires
        !line.contains(10u8),
    ensures
        first_line(line.push(10u8) + rest) == Some(
            (trim_newlines(lossy_text(line.push(10u8))), rest),
        ),
        first_line(line) is None,
{
    let b = line.push(10u8) + rest;
    newline_at_the_end(line, rest, 0);
    assert(b.take(line.len() as int + 1) =~= line.push(10u8));
    assert(b.skip(line.len() as int + 1) =~= rest);
}

proof fn newline_at_the_end(line: Seq<u8>, rest: Seq<u8>, i: int)
    requires
        !line.contains(10u8),
        0 <= i <= line.len(),
    ensures
        newline_from(line.push(10u8) + rest, i) == line.len(),
        newline_from(line, i) == line.len(),
    decreases line.len() - i,
{
    let b = line.push(10u8) + rest;
    if i < line.len() {
        assert(b[i] == line[i]);
        assert(line.contains(line[i]));
        newline_at_the_end(line, rest, i + 1);
    } else {
        assert(b[i] == 10);
    }
}

/// Only newlines and carriage returns at the end are taken off a line.
pub proof fn line_ends_come_off(s: Seq<char>, end: char)
    ensures
        end == '\n' || end == '\r' ==> trim_newlines(s.push(end)) == trim_newlines(s),
        end != '\n' && end != '\r' ==> trim_newlines(s.push(end)) == s.push(end),
        trim_newlines(Seq::empty()) == Seq::<char>::empty(),
{
    let t = s.push(end);
    assert(t.drop_last() =~= s);
    assert(t.last() == end);
}

/// A player that waits for its first command is reached at the socket that it was given, stays open,
/// and takes what is passed through last.
pub proof fn waiting_players_are_reached(ipc_path: Seq<char>, extra: Seq<Seq<char>>)
    ensures
        idle_args(ipc_path, extra).contains("--input-ipc-server="@ + ipc_path),
        idle_args(ipc_path, extra).contains("--idle=yes"@),
        extra.is_suffix_of(idle_args(ipc_path, extra)),
{
    let all = idle_args(ipc_path, extra);
    assert(all[0] == "--input-ipc-server="@ + ipc_path);
    assert(all[1] == "--idle=yes"@);
    assert(all.subrange(all.len() - extra.len(), all.len() as int) =~= extra);
}

/// The container that a streamed file was scanned as is that of the first file with its path; a path
/// that no file has has none.
pub proof fn the_first_file_with_the_path(files: Seq<Scanned>, path: Seq<char>, i: int, k: int)
    requires
        0 <= i <= k <= files.len(),
        forall|j: int| i <= j < k ==> (#[trigger] files[j]).path != path,
    ensures
        k < files.len() && files[k].path == path ==> container_at(files, path, i)
            == files[k].container,
        k == files.len() ==> container_at(files, path, i) is None,
    decreases k - i,
{
    if i < k {
        assert(files[i].path != path);
        the_first_file_with_the_path(files, path, i + 1, k);
    }
}

/// States that say the same are written alike, so a client that has the one misses nothing; and of two
/// that are written alike, with numbers that a reader of JSON holds exactly, both say the same.
pub proof fn equal_states_are_written_alike(a: PlaybackState, b: PlaybackState)
    ensures
        same_playback(a, b) ==> wire(ServerMessage::State(a)) == wire(ServerMessage::State(b)),
        same_playback(a, a),
        same_playback(a, b) ==> same_playback(b, a),
        crate::remote::protocol::exact_playing(a.now_playing)
            && crate::remote::protocol::exact_playing(b.now_playing)
            && crate::remote::protocol::exact(a.library_version as int)
            && crate::remote::protocol::exact(b.library_version as int) && wire(
            ServerMessage::State(a),
        ) == wire(ServerMessage::State(b)) ==> same_playback(a, b),
{
    if crate::remote::protocol::exact_playing(a.now_playing)
        && crate::remote::protocol::exact_playing(b.now_playing)
        && crate::remote::protocol::exact(a.library_version as int)
        && crate::remote::protocol::exact(b.library_version as int) && wire(ServerMessage::State(a))
        == wire(ServerMessage::State(b)) {
        crate::remote::protocol::lines_round_trip(ServerMessage::State(a));
        crate::remote::protocol::lines_round_trip(ServerMessage::State(b));
    }
}

/// What is asked for under a format's prefix goes to that format, whatever comes behind the prefix; the
/// page has its own path; and under no other path is there anything.
pub proof fn prefixes_lead_to_their_formats(
    req: crate::http::Request,
    tokens: Set<Seq<char>>,
    rest: Seq<char>,
)
    requires
        req.method == "GET"@ || req.method == "HEAD"@,
    ensures
        req.path == "/hls/"@ + rest ==> http_decided(req, tokens) == HttpDecision::Hls(rest),
        req.path == "/dash/"@ + rest ==> http_decided(req, tokens) == HttpDecision::Dash(rest),
        req.path == "/vr"@ <==> http_decided(req, tokens) is Page,
        !"/stream/"@.is_prefix_of(req.path) && !"/hls/"@.is_prefix_of(req.path)
            && !"/dash/"@.is_prefix_of(req.path) && req.path != "/vr"@ ==> http_decided(req, tokens)
            == HttpDecision::Refuse(404, "Not Found"@),
{
    reveal_strlit("/vr");
    reveal_strlit("/hls/");
    reveal_strlit("/dash/");
    let p = req.path;
    assert("/vr"@[1] == 'v');
    crate::text::what_is_added_comes_off(rest, "/hls/"@);
    crate::text::what_is_added_comes_off(rest, "/dash/"@);
    if p == "/hls/"@ + rest {
        assert(p[1] == 'h');
    }
    if p == "/dash/"@ + rest {
        assert(p[1] == 'd');
        assert(!"/hls/"@.is_prefix_of(p)) by {
            if "/hls/"@.is_prefix_of(p) {
                assert(p.subrange(0, 5)[1] == 'h');
            }
        }
    }
}

} // verus!
