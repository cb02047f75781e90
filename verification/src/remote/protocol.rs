//! The wire protocol between the server and a remote client: one JSON object per line.
//!
//! Every message that expects an answer carries an `id`, and the reply echoes it. A state push
//! carries none, so it can never be taken for a reply.
use vstd::prelude::*;
use vstd::string::*;

use crate::json::{
    document,
    field,
    model,
    number_of,
    quote,
    quoted,
    str_field,
    Json,
    Value,
};
use crate::json_writer::{
    array_of,
    array_text,
    integers_read_exactly,
    members_are_found,
    object_of,
    object_text,
    pairs_view,
    reads_array,
    reads_as,
    reads_bool,
    reads_deeper,
    reads_document,
    reads_int,
    reads_null,
    reads_object,
    reads_string,
    with_members,
};
use crate::number::Reading;
use crate::text::{dec_text, int_dec, int_text, opt_view, owned, same, views};

verus! {

/// A message read from the wire, before it is acted on.
#[derive(Debug, Clone, PartialEq)]
pub enum ClientMessage {
    /// First message on a socket that has never paired: the code shown on the server's terminal.
    Pair { id: String, code: String },
    /// First message on a socket that already has a token from a previous pairing.
    Auth { id: String, token: String },
    /// The library, as of the last scan.
    Library { id: String },
    Play { id: String, path: String },
    Pause { id: String },
    Resume { id: String },
    /// Toggle, so that a client never has to guess the current state.
    TogglePlayPause { id: String },
    Seek { id: String, position_ms: i64 },
    SetVolume { id: String, level: u8 },
    Next { id: String },
    Previous { id: String },
}

/// The content of a client's message.
pub enum Request {
    Pair { id: Seq<char>, code: Seq<char> },
    Auth { id: Seq<char>, token: Seq<char> },
    Library { id: Seq<char> },
    Play { id: Seq<char>, path: Seq<char> },
    Pause { id: Seq<char> },
    Resume { id: Seq<char> },
    TogglePlayPause { id: Seq<char> },
    Seek { id: Seq<char>, position_ms: i64 },
    SetVolume { id: Seq<char>, level: u8 },
    Next { id: Seq<char> },
    Previous { id: Seq<char> },
}

impl Request {
    /// The id that the reply will echo.
    pub open spec fn id(self) -> Seq<char> {
        match self {
            Request::Pair { id, .. } => id,
            Request::Auth { id, .. } => id,
            Request::Library { id } => id,
            Request::Play { id, .. } => id,
            Request::Pause { id } => id,
            Request::Resume { id } => id,
            Request::TogglePlayPause { id } => id,
            Request::Seek { id, .. } => id,
            Request::SetVolume { id, .. } => id,
            Request::Next { id } => id,
            Request::Previous { id } => id,
        }
    }

    /// Whether a socket may send this before it has authenticated.
    pub open spec fn pre_auth(self) -> bool {
        self is Pair || self is Auth
    }
}

/// A number cut to a volume level from 0 to 100.
pub open spec fn level_of(r: Reading) -> u8 {
    if r.as_u64() > 100 {
        100
    } else {
        r.as_u64() as u8
    }
}

/// What the number member named `key` reads as.
pub open spec fn num_field(v: Json, key: Seq<char>) -> Option<Reading> {
    match field(v, key) {
        Some(f) => number_of(f),
        None => None,
    }
}

/// The request that a JSON value makes; `None` for a value that makes none.
pub open spec fn request_of(v: Json) -> Option<Request> {
    match (str_field(v, "id"@), str_field(v, "type"@)) {
        (Some(id), Some(ty)) => {
            if ty == "pair"@ {
                match str_field(v, "code"@) {
                    Some(code) => Some(Request::Pair { id, code }),
                    None => None,
                }
            } else if ty == "auth"@ {
                match str_field(v, "token"@) {
                    Some(token) => Some(Request::Auth { id, token }),
                    None => None,
                }
            } else if ty == "library"@ {
                Some(Request::Library { id })
            } else if ty == "play"@ {
                match str_field(v, "path"@) {
                    Some(path) => Some(Request::Play { id, path }),
                    None => None,
                }
            } else if ty == "pause"@ {
                Some(Request::Pause { id })
            } else if ty == "resume"@ {
                Some(Request::Resume { id })
            } else if ty == "toggle"@ {
                Some(Request::TogglePlayPause { id })
            } else if ty == "seek"@ {
                match num_field(v, "position_ms"@) {
                    Some(r) => Some(Request::Seek { id, position_ms: r.as_i64() }),
                    None => None,
                }
            } else if ty == "volume"@ {
                match num_field(v, "level"@) {
                    Some(r) => Some(Request::SetVolume { id, level: level_of(r) }),
                    None => None,
                }
            } else if ty == "next"@ {
                Some(Request::Next { id })
            } else if ty == "previous"@ {
                Some(Request::Previous { id })
            } else {
                None
            }
        },
        _ => None,
    }
}

/// The request that a line makes; `None` for a line that is no JSON or makes none.
pub open spec fn request_on(line: Seq<char>) -> Option<Request> {
    match document(line) {
        Ok(v) => request_of(v),
        Err(_) => None,
    }
}

/// The text of the string member named `key`.
pub(crate) fn str_member(v: &Value, key: &str) -> (r: Option<String>)
    ensures
        opt_view(r) == str_field(model(*v), key@),
{
    match v.get(key) {
        Some(f) => match f.as_str() {
            Some(s) => Some(owned(s)),
            None => None,
        },
        None => None,
    }
}

/// What the number member named `key` reads as.
pub(crate) fn num_member(v: &Value, key: &str) -> (r: Option<Reading>)
    ensures
        r == num_field(model(*v), key@),
{
    match v.get(key) {
        Some(f) => f.as_number(),
        None => None,
    }
}

impl ClientMessage {
    /// The content of the message.
    pub open spec fn content(self) -> Request {
        match self {
            ClientMessage::Pair { id, code } => Request::Pair { id: id@, code: code@ },
            ClientMessage::Auth { id, token } => Request::Auth { id: id@, token: token@ },
            ClientMessage::Library { id } => Request::Library { id: id@ },
            ClientMessage::Play { id, path } => Request::Play { id: id@, path: path@ },
            ClientMessage::Pause { id } => Request::Pause { id: id@ },
            ClientMessage::Resume { id } => Request::Resume { id: id@ },
            ClientMessage::TogglePlayPause { id } => Request::TogglePlayPause { id: id@ },
            ClientMessage::Seek { id, position_ms } => Request::Seek { id: id@, position_ms },
            ClientMessage::SetVolume { id, level } => Request::SetVolume { id: id@, level },
            ClientMessage::Next { id } => Request::Next { id: id@ },
            ClientMessage::Previous { id } => Request::Previous { id: id@ },
        }
    }

    /// The id that the reply will echo.
    pub fn id(&self) -> (r: &str)
        ensures
            r@ == self.content().id(),
    {
        match self {
            ClientMessage::Pair { id, .. } => id.as_str(),
            ClientMessage::Auth { id, .. } => id.as_str(),
            ClientMessage::Library { id } => id.as_str(),
            ClientMessage::Play { id, .. } => id.as_str(),
            ClientMessage::Pause { id } => id.as_str(),
            ClientMessage::Resume { id } => id.as_str(),
            ClientMessage::TogglePlayPause { id } => id.as_str(),
            ClientMessage::Seek { id, .. } => id.as_str(),
            ClientMessage::SetVolume { id, .. } => id.as_str(),
            ClientMessage::Next { id } => id.as_str(),
            ClientMessage::Previous { id } => id.as_str(),
        }
    }

    /// True for the two messages that a socket may send before it has authenticated.
    pub fn is_pre_auth(&self) -> (r: bool)
        ensures
            r == self.content().pre_auth(),
    {
        match self {
            ClientMessage::Pair { .. } => true,
            ClientMessage::Auth { .. } => true,
            _ => false,
        }
    }

    /// Reads one line; `None` on anything malformed.
    pub fn parse(line: &str) -> (r: Option<Self>)
        ensures
            match r {
                Some(m) => request_on(line@) == Some(m.content()),
                None => request_on(line@) is None,
            },
    {
        let v = match crate::json::parse(line) {
            Ok(v) => v,
            Err(_) => {
                return None;
            },
        };
        let id = match str_member(&v, "id") {
            Some(id) => id,
            None => {
                return None;
            },
        };
        let kind = match str_member(&v, "type") {
            Some(kind) => kind,
            None => {
                return None;
            },
        };
        let ty = kind.as_str();
        if same(ty, "pair") {
            match str_member(&v, "code") {
                Some(code) => Some(ClientMessage::Pair { id, code }),
                None => None,
            }
        } else if same(ty, "auth") {
            match str_member(&v, "token") {
                Some(token) => Some(ClientMessage::Auth { id, token }),
                None => None,
            }
        } else if same(ty, "library") {
            Some(ClientMessage::Library { id })
        } else if same(ty, "play") {
            match str_member(&v, "path") {
                Some(path) => Some(ClientMessage::Play { id, path }),
                None => None,
            }
        } else if same(ty, "pause") {
            Some(ClientMessage::Pause { id })
        } else if same(ty, "resume") {
            Some(ClientMessage::Resume { id })
        } else if same(ty, "toggle") {
            Some(ClientMessage::TogglePlayPause { id })
        } else if same(ty, "seek") {
            match num_member(&v, "position_ms") {
                Some(n) => Some(ClientMessage::Seek { id, position_ms: n.to_i64() }),
                None => None,
            }
        } else if same(ty, "volume") {
            match num_member(&v, "level") {
                Some(n) => {
                    let asked: u64 = n.to_u64();
                    // Cut rather than refused: a client that sends 130 meant "as loud as this goes".
                    let level: u8 = if asked > 100 {
                        100
                    } else {
                        asked as u8
                    };
                    Some(ClientMessage::SetVolume { id, level })
                },
                None => None,
            }
        } else if same(ty, "next") {
            Some(ClientMessage::Next { id })
        } else if same(ty, "previous") {
            Some(ClientMessage::Previous { id })
        } else {
            None
        }
    }
}

/// A message written to the wire.
#[derive(Debug, Clone, PartialEq)]
pub enum ServerMessage {
    /// Pushed on connect and whenever the playback state changes. Never a reply to anything.
    State(PlaybackState),
    /// Pairing succeeded; carries the token to present on future connections instead of the code.
    Paired { id: String, token: String },
    Reply { id: String, result: ReplyBody },
    Error { id: String, message: String },
}

/// What a reply carries beside its id.
#[derive(Debug, Clone, PartialEq)]
pub enum ReplyBody {
    Done,
    Library(Vec<LibraryEntry>),
}

/// What is playing, if anything is.
#[derive(Debug, Clone, PartialEq)]
pub struct PlaybackState {
    pub now_playing: Option<NowPlaying>,
    /// Goes up whenever the library scan changes, so that a client can tell a stale listing.
    pub library_version: u64,
}

/// The file that is playing.
#[derive(Debug, Clone, PartialEq)]
pub struct NowPlaying {
    pub path: String,
    pub title: String,
    pub duration_ms: i64,
    pub position_ms: i64,
    pub paused: bool,
    pub volume: u8,
}

/// One file of the library, as a client sees it.
#[derive(Debug, Clone, PartialEq)]
pub struct LibraryEntry {
    pub path: String,
    pub title: String,
    pub duration_ms: i64,
}

impl Default for PlaybackState {
    fn default() -> (r: Self)
        ensures
            r.now_playing is None,
            r.library_version == 0,
    {
        PlaybackState { now_playing: None, library_version: 0 }
    }
}

/// The JSON word of a truth value.
pub open spec fn bool_word(b: bool) -> Seq<char> {
    if b {
        "true"@
    } else {
        "false"@
    }
}

/// The JSON word of a truth value.
pub(crate) fn bool_text(b: bool) -> (r: String)
    ensures
        r@ == bool_word(b),
{
    if b {
        owned("true")
    } else {
        owned("false")
    }
}

/// The wire form of the file that is playing.
pub open spec fn playing_text(np: NowPlaying) -> Seq<char> {
    object_text(
        seq![
            ("path"@, quoted(np.path@)),
            ("title"@, quoted(np.title@)),
            ("duration_ms"@, int_dec(np.duration_ms as int)),
            ("position_ms"@, int_dec(np.position_ms as int)),
            ("paused"@, bool_word(np.paused)),
            ("volume"@, int_dec(np.volume as int)),
        ],
    )
}

/// The wire form of what is playing: `null` when nothing is.
pub open spec fn now_text(now: Option<NowPlaying>) -> Seq<char> {
    match now {
        Some(np) => playing_text(np),
        None => "null"@,
    }
}

/// The wire form of a library entry.
pub open spec fn entry_text(e: LibraryEntry) -> Seq<char> {
    object_text(
        seq![
            ("path"@, quoted(e.path@)),
            ("title"@, quoted(e.title@)),
            ("duration_ms"@, int_dec(e.duration_ms as int)),
        ],
    )
}

/// The wire forms of library entries.
pub open spec fn entry_texts(items: Seq<LibraryEntry>) -> Seq<Seq<char>> {
    Seq::new(items.len(), |i: int| entry_text(items[i]))
}

/// The wire form of a message, without the newline that ends it.
pub open spec fn wire(m: ServerMessage) -> Seq<char> {
    match m {
        ServerMessage::State(st) => object_text(
            seq![
                ("type"@, quoted("state"@)),
                ("now_playing"@, now_text(st.now_playing)),
                ("library_version"@, int_dec(st.library_version as int)),
            ],
        ),
        ServerMessage::Paired { id, token } => object_text(
            seq![("type"@, quoted("paired"@)), ("id"@, quoted(id@)), ("token"@, quoted(token@))],
        ),
        ServerMessage::Reply { id, result } => match result {
            ReplyBody::Done => object_text(
                seq![("type"@, quoted("reply"@)), ("id"@, quoted(id@)), ("ok"@, "true"@)],
            ),
            ReplyBody::Library(items) => object_text(
                seq![
                    ("type"@, quoted("reply"@)),
                    ("id"@, quoted(id@)),
                    ("ok"@, "true"@),
                    ("result"@, array_text(entry_texts(items@))),
                ],
            ),
        },
        ServerMessage::Error { id, message } => object_text(
            seq![
                ("type"@, quoted("reply"@)),
                ("id"@, quoted(id@)),
                ("ok"@, "false"@),
                ("error"@, quoted(message@)),
            ],
        ),
    }
}

fn now_playing_json(np: &NowPlaying) -> (r: String)
    ensures
        r@ == playing_text(*np),
{
    let parts = vec![
        ("path", quote(np.path.as_str())),
        ("title", quote(np.title.as_str())),
        ("duration_ms", int_text(np.duration_ms)),
        ("position_ms", int_text(np.position_ms)),
        ("paused", bool_text(np.paused)),
        ("volume", int_text(np.volume as i64)),
    ];
    assert(pairs_view(parts@) =~= seq![
        ("path"@, quoted(np.path@)),
        ("title"@, quoted(np.title@)),
        ("duration_ms"@, int_dec(np.duration_ms as int)),
        ("position_ms"@, int_dec(np.position_ms as int)),
        ("paused"@, bool_word(np.paused)),
        ("volume"@, int_dec(np.volume as int)),
    ]);
    object_of(&parts)
}

fn entry_json(e: &LibraryEntry) -> (r: String)
    ensures
        r@ == entry_text(*e),
{
    let parts = vec![
        ("path", quote(e.path.as_str())),
        ("title", quote(e.title.as_str())),
        ("duration_ms", int_text(e.duration_ms)),
    ];
    assert(pairs_view(parts@) =~= seq![
        ("path"@, quoted(e.path@)),
        ("title"@, quoted(e.title@)),
        ("duration_ms"@, int_dec(e.duration_ms as int)),
    ]);
    object_of(&parts)
}

impl ServerMessage {
    /// One line, ended by a newline, ready to write to the socket.
    pub fn to_line(&self) -> (r: String)
        ensures
            r@ == wire(*self) + seq!['\n'],
    {
        let mut s = self.to_json();
        s.push('\n');
        assert(s@ =~= wire(*self) + seq!['\n']);
        s
    }

    fn to_json(&self) -> (r: String)
        ensures
            r@ == wire(*self),
    {
        match self {
            ServerMessage::State(st) => {
                let now = match &st.now_playing {
                    Some(np) => now_playing_json(np),
                    None => owned("null"),
                };
                let parts = vec![
                    ("type", quote("state")),
                    ("now_playing", now),
                    ("library_version", dec_text(st.library_version as u128)),
                ];
                assert(pairs_view(parts@) =~= seq![
                    ("type"@, quoted("state"@)),
                    ("now_playing"@, now_text(st.now_playing)),
                    ("library_version"@, int_dec(st.library_version as int)),
                ]);
                object_of(&parts)
            },
            ServerMessage::Paired { id, token } => {
                let parts = vec![
                    ("type", quote("paired")),
                    ("id", quote(id.as_str())),
                    ("token", quote(token.as_str())),
                ];
                assert(pairs_view(parts@) =~= seq![
                    ("type"@, quoted("paired"@)),
                    ("id"@, quoted(id@)),
                    ("token"@, quoted(token@)),
                ]);
                object_of(&parts)
            },
            ServerMessage::Reply { id, result } => match result {
                ReplyBody::Done => {
                    let parts = vec![
                        ("type", quote("reply")),
                        ("id", quote(id.as_str())),
                        ("ok", owned("true")),
                    ];
                    assert(pairs_view(parts@) =~= seq![
                        ("type"@, quoted("reply"@)),
                        ("id"@, quoted(id@)),
                        ("ok"@, "true"@),
                    ]);
                    object_of(&parts)
                },
                ReplyBody::Library(items) => {
                    let mut rows: Vec<String> = Vec::new();
                    let mut i: usize = 0;
                    while i < items.len()
                        invariant
                            i <= items@.len(),
                            rows@.len() == i,
                            forall|k: int|
                                0 <= k < i ==> (#[trigger] rows@[k])@ == entry_text(items@[k]),
                        decreases items@.len() - i,
                    {
                        rows.push(entry_json(&items[i]));
                        i += 1;
                    }
                    assert(views(rows@) =~= entry_texts(items@));
                    let parts = vec![
                        ("type", quote("reply")),
                        ("id", quote(id.as_str())),
                        ("ok", owned("true")),
                        ("result", array_of(&rows)),
                    ];
                    assert(pairs_view(parts@) =~= seq![
                        ("type"@, quoted("reply"@)),
                        ("id"@, quoted(id@)),
                        ("ok"@, "true"@),
                        ("result"@, array_text(entry_texts(items@))),
                    ]);
                    object_of(&parts)
                },
            },
            ServerMessage::Error { id, message } => {
                let parts = vec![
                    ("type", quote("reply")),
                    ("id", quote(id.as_str())),
                    ("ok", owned("false")),
                    ("error", quote(message.as_str())),
                ];
                assert(pairs_view(parts@) =~= seq![
                    ("type"@, quoted("reply"@)),
                    ("id"@, quoted(id@)),
                    ("ok"@, "false"@),
                    ("error"@, quoted(message@)),
                ]);
                object_of(&parts)
            },
        }
    }
}

/// The content of what is playing.
pub struct Playing {
    pub path: Seq<char>,
    pub title: Seq<char>,
    pub duration_ms: i64,
    pub position_ms: i64,
    pub paused: bool,
    pub volume: u8,
}

/// The content of a server's line, as a client reads it.
pub enum Answer {
    State { now_playing: Option<Playing>, library_version: u64 },
    Paired { id: Seq<char>, token: Seq<char> },
    ReplyOk { id: Seq<char> },
    Error { id: Seq<char>, message: Seq<char> },
}

impl NowPlaying {
    /// The content of what is playing.
    pub open spec fn content(self) -> Playing {
        Playing {
            path: self.path@,
            title: self.title@,
            duration_ms: self.duration_ms,
            position_ms: self.position_ms,
            paused: self.paused,
            volume: self.volume,
        }
    }
}

/// The content of what is playing, if anything is.
pub open spec fn now_content(now: Option<NowPlaying>) -> Option<Playing> {
    match now {
        Some(np) => Some(np.content()),
        None => None,
    }
}

/// A server's line, read back.
#[derive(Debug, Clone, PartialEq)]
pub enum ParsedServerMessage {
    State(PlaybackState),
    Paired { id: String, token: String },
    ReplyOk { id: String },
    Error { id: String, message: String },
}

impl ParsedServerMessage {
    /// The content of the line.
    pub open spec fn content(self) -> Answer {
        match self {
            ParsedServerMessage::State(st) => Answer::State {
                now_playing: now_content(st.now_playing),
                library_version: st.library_version,
            },
            ParsedServerMessage::Paired { id, token } => Answer::Paired { id: id@, token: token@ },
            ParsedServerMessage::ReplyOk { id } => Answer::ReplyOk { id: id@ },
            ParsedServerMessage::Error { id, message } => Answer::Error {
                id: id@,
                message: message@,
            },
        }
    }
}

/// A number cut to a byte.
pub open spec fn byte_of(r: Reading) -> u8 {
    if r.as_u64() > 255 {
        255
    } else {
        r.as_u64() as u8
    }
}

/// The truth value member named `key`.
pub open spec fn bool_field(v: Json, key: Seq<char>) -> Option<bool> {
    match field(v, key) {
        Some(Json::Bool(b)) => Some(b),
        _ => None,
    }
}

/// What is playing according to a JSON object that has every field of it.
pub open spec fn playing_of(v: Json) -> Option<Playing> {
    match (
        str_field(v, "path"@),
        str_field(v, "title"@),
        num_field(v, "duration_ms"@),
        num_field(v, "position_ms"@),
        bool_field(v, "paused"@),
        num_field(v, "volume"@),
    ) {
        (Some(path), Some(title), Some(d), Some(p), Some(paused), Some(vol)) => Some(
            Playing {
                path,
                title,
                duration_ms: d.as_i64(),
                position_ms: p.as_i64(),
                paused,
                volume: byte_of(vol),
            },
        ),
        _ => None,
    }
}

/// What a JSON value says as a server's message; `None` when it is none.
pub open spec fn answer_of(v: Json) -> Option<Answer> {
    match str_field(v, "type"@) {
        None => None,
        Some(ty) => if ty == "state"@ {
            match num_field(v, "library_version"@) {
                None => None,
                Some(version) => match field(v, "now_playing"@) {
                    None | Some(Json::Null) => Some(
                        Answer::State { now_playing: None, library_version: version.as_u64() },
                    ),
                    Some(n) => match playing_of(n) {
                        Some(np) => Some(
                            Answer::State {
                                now_playing: Some(np),
                                library_version: version.as_u64(),
                            },
                        ),
                        None => None,
                    },
                },
            }
        } else if ty == "paired"@ {
            match (str_field(v, "id"@), str_field(v, "token"@)) {
                (Some(id), Some(token)) => Some(Answer::Paired { id, token }),
                _ => None,
            }
        } else if ty == "reply"@ {
            match (str_field(v, "id"@), bool_field(v, "ok"@)) {
                (Some(id), Some(ok)) => if ok {
                    Some(Answer::ReplyOk { id })
                } else {
                    match str_field(v, "error"@) {
                        Some(message) => Some(Answer::Error { id, message }),
                        None => None,
                    }
                },
                _ => None,
            }
        } else {
            None
        },
    }
}

/// What a line says as a server's message; `None` when it is none.
pub open spec fn answer_on(line: Seq<char>) -> Option<Answer> {
    match document(line) {
        Ok(v) => answer_of(v),
        Err(_) => None,
    }
}

fn bool_member(v: &Value, key: &str) -> (r: Option<bool>)
    ensures
        r == bool_field(model(*v), key@),
{
    match v.get(key) {
        Some(f) => f.as_bool(),
        None => None,
    }
}

fn now_playing_of(n: &Value) -> (r: Option<NowPlaying>)
    ensures
        now_content(r) == playing_of(model(*n)),
{
    let path = str_member(n, "path");
    let title = str_member(n, "title");
    let duration = num_member(n, "duration_ms");
    let position = num_member(n, "position_ms");
    let paused = bool_member(n, "paused");
    let volume = num_member(n, "volume");
    match (path, title, duration, position, paused, volume) {
        (Some(path), Some(title), Some(d), Some(p), Some(paused), Some(vol)) => {
            let loud: u64 = vol.to_u64();
            Some(
                NowPlaying {
                    path,
                    title,
                    duration_ms: d.to_i64(),
                    position_ms: p.to_i64(),
                    paused,
                    volume: if loud > 255 {
                        255
                    } else {
                        loud as u8
                    },
                },
            )
        },
        _ => None,
    }
}

/// Reads a server's line back; `None` on anything that is not one.
pub fn parse_server_message(line: &str) -> (r: Option<ParsedServerMessage>)
    ensures
        match r {
            Some(m) => answer_on(line@) == Some(m.content()),
            None => answer_on(line@) is None,
        },
{
    let v = match crate::json::parse(line) {
        Ok(v) => v,
        Err(_) => {
            return None;
        },
    };
    let kind = match str_member(&v, "type") {
        Some(kind) => kind,
        None => {
            return None;
        },
    };
    let ty = kind.as_str();
    if same(ty, "state") {
        let library_version: u64 = match num_member(&v, "library_version") {
            Some(n) => n.to_u64(),
            None => {
                return None;
            },
        };
        let now_playing = match v.get("now_playing") {
            None => None,
            Some(Value::Null) => None,
            Some(n) => match now_playing_of(n) {
                Some(np) => Some(np),
                None => {
                    return None;
                },
            },
        };
        Some(ParsedServerMessage::State(PlaybackState { now_playing, library_version }))
    } else if same(ty, "paired") {
        match (str_member(&v, "id"), str_member(&v, "token")) {
            (Some(id), Some(token)) => Some(ParsedServerMessage::Paired { id, token }),
            _ => None,
        }
    } else if same(ty, "reply") {
        match (str_member(&v, "id"), bool_member(&v, "ok")) {
            (Some(id), Some(ok)) => if ok {
                Some(ParsedServerMessage::ReplyOk { id })
            } else {
                match str_member(&v, "error") {
                    Some(message) => Some(ParsedServerMessage::Error { id, message }),
                    None => None,
                }
            },
            _ => None,
        }
    } else {
        None
    }
}

/// Whether a number is small enough for every reader of JSON to take it in exactly.
pub open spec fn exact(n: int) -> bool {
    -0x20_0000_0000_0000 <= n <= 0x20_0000_0000_0000
}

/// Whether the numbers of what is playing are exact.
pub open spec fn exact_playing(now: Option<NowPlaying>) -> bool {
    match now {
        Some(np) => exact(np.duration_ms as int) && exact(np.position_ms as int),
        None => true,
    }
}

/// What a client learns from a message.
pub open spec fn answer_for(m: ServerMessage) -> Answer {
    match m {
        ServerMessage::State(st) => Answer::State {
            now_playing: now_content(st.now_playing),
            library_version: st.library_version,
        },
        ServerMessage::Paired { id, token } => Answer::Paired { id: id@, token: token@ },
        ServerMessage::Reply { id, .. } => Answer::ReplyOk { id: id@ },
        ServerMessage::Error { id, message } => Answer::Error { id: id@, message: message@ },
    }
}

/// The JSON object with the given members.
spec fn object_json(v: Seq<(Seq<char>, Json)>) -> Json {
    Json::Object(with_members(Map::empty(), v, 0))
}

spec fn playing_members(np: NowPlaying) -> Seq<(Seq<char>, Json)> {
    seq![
        ("path"@, Json::Str(np.path@)),
        ("title"@, Json::Str(np.title@)),
        ("duration_ms"@, Json::Num(int_dec(np.duration_ms as int))),
        ("position_ms"@, Json::Num(int_dec(np.position_ms as int))),
        ("paused"@, Json::Bool(np.paused)),
        ("volume"@, Json::Num(int_dec(np.volume as int))),
    ]
}

proof fn playing_reads(np: NowPlaying)
    ensures
        reads_as(playing_text(np), object_json(playing_members(np)), 2),
{
    let m = seq![
        ("path"@, quoted(np.path@)),
        ("title"@, quoted(np.title@)),
        ("duration_ms"@, int_dec(np.duration_ms as int)),
        ("position_ms"@, int_dec(np.position_ms as int)),
        ("paused"@, bool_word(np.paused)),
        ("volume"@, int_dec(np.volume as int)),
    ];
    let v = playing_members(np);
    reads_string(np.path@);
    reads_string(np.title@);
    reads_int(np.duration_ms as int);
    reads_int(np.position_ms as int);
    reads_int(np.volume as int);
    reads_bool(np.paused);
    assert forall|i: int| 0 <= i < m.len() implies (#[trigger] m[i]).0 == v[i].0 && reads_as(
        m[i].1,
        v[i].1,
        1,
    ) by {
        if i == 0 {
        } else if i == 1 {
        } else if i == 2 {
        } else if i == 3 {
        } else if i == 4 {
        } else {
            assert(i == 5);
        }
    }
    reads_object(m, v, 1);
}

/// The field names of what is playing differ from each other.
proof fn playing_names_differ()
    ensures
        ({
            let p = "path"@;
            let t = "title"@;
            let d = "duration_ms"@;
            let q = "position_ms"@;
            let h = "paused"@;
            let v = "volume"@;
            &&& p != t && p != d && p != q && p != h && p != v
            &&& t != d && t != q && t != h && t != v
            &&& d != q && d != h && d != v
            &&& q != h && q != v
            &&& h != v
        }),
{
    reveal_strlit("path");
    reveal_strlit("title");
    reveal_strlit("duration_ms");
    reveal_strlit("position_ms");
    reveal_strlit("paused");
    reveal_strlit("volume");
    assert("path"@.len() == 4 && "title"@.len() == 5 && "paused"@.len() == 6);
    assert("duration_ms"@.len() == 11 && "position_ms"@.len() == 11 && "volume"@.len() == 6);
    assert("duration_ms"@[0] == 'd' && "position_ms"@[0] == 'p');
    assert("paused"@[0] == 'p' && "volume"@[0] == 'v');
}

proof fn playing_reads_back(np: NowPlaying)
    requires
        exact_playing(Some(np)),
    ensures
        playing_of(object_json(playing_members(np))) == Some(np.content()),
{
    playing_names_differ();
    reveal_with_fuel(with_members, 7);
    integers_read_exactly(np.duration_ms as int);
    integers_read_exactly(np.position_ms as int);
    integers_read_exactly(np.volume as int);
    let m = with_members(Map::empty(), playing_members(np), 0);
    assert(m.contains_key("path"@) && m["path"@] == Json::Str(np.path@));
    assert(m.contains_key("title"@) && m["title"@] == Json::Str(np.title@));
    assert(m.contains_key("duration_ms"@) && m["duration_ms"@] == Json::Num(
        int_dec(np.duration_ms as int),
    ));
    assert(m.contains_key("position_ms"@) && m["position_ms"@] == Json::Num(
        int_dec(np.position_ms as int),
    ));
    assert(m.contains_key("paused"@) && m["paused"@] == Json::Bool(np.paused));
    assert(m.contains_key("volume"@) && m["volume"@] == Json::Num(int_dec(np.volume as int)));
}

/// The names and kinds on the wire differ from each other where a reader tells them apart.
proof fn wire_names_differ()
    ensures
        ({
            let t = "type"@;
            let i = "id"@;
            let o = "ok"@;
            let e = "error"@;
            let r = "result"@;
            let k = "token"@;
            let n = "now_playing"@;
            let l = "library_version"@;
            &&& t != i && t != o && t != e && t != r && t != k && t != n && t != l
            &&& i != o && i != e && i != r && i != k && i != n && i != l
            &&& o != e && o != r
            &&& e != r
            &&& n != l
        }),
        "state"@ != "paired"@,
        "state"@ != "reply"@,
        "paired"@ != "reply"@,
{
    reveal_strlit("type");
    reveal_strlit("id");
    reveal_strlit("ok");
    reveal_strlit("error");
    reveal_strlit("result");
    reveal_strlit("token");
    reveal_strlit("now_playing");
    reveal_strlit("library_version");
    reveal_strlit("state");
    reveal_strlit("paired");
    reveal_strlit("reply");
    assert("type"@.len() == 4 && "id"@.len() == 2 && "ok"@.len() == 2 && "error"@.len() == 5);
    assert("result"@.len() == 6 && "token"@.len() == 5 && "now_playing"@.len() == 11);
    assert("library_version"@.len() == 15 && "state"@.len() == 5 && "paired"@.len() == 6);
    assert("reply"@.len() == 5);
    assert("id"@[0] == 'i' && "ok"@[0] == 'o');
    assert("state"@[0] == 's' && "reply"@[0] == 'r');
    assert("error"@[0] == 'e' && "token"@[0] == 't');
}

spec fn state_members(now: Json, version: u64) -> Seq<(Seq<char>, Json)> {
    seq![
        ("type"@, Json::Str("state"@)),
        ("now_playing"@, now),
        ("library_version"@, Json::Num(int_dec(version as int))),
    ]
}

spec fn now_json(now: Option<NowPlaying>) -> Json {
    match now {
        Some(np) => object_json(playing_members(np)),
        None => Json::Null,
    }
}

proof fn state_document(st: PlaybackState)
    ensures
        document(wire(ServerMessage::State(st)) + seq!['\n']) == Ok::<Json, Seq<char>>(
            object_json(state_members(now_json(st.now_playing), st.library_version)),
        ),
{
    let m = seq![
        ("type"@, quoted("state"@)),
        ("now_playing"@, now_text(st.now_playing)),
        ("library_version"@, int_dec(st.library_version as int)),
    ];
    let v = state_members(now_json(st.now_playing), st.library_version);
    reads_string("state"@);
    reads_deeper(quoted("state"@), Json::Str("state"@), 1, 2);
    reads_int(st.library_version as int);
    let n = int_dec(st.library_version as int);
    reads_deeper(n, Json::Num(n), 1, 2);
    match st.now_playing {
        Some(np) => {
            playing_reads(np);
        },
        None => {
            reads_null();
            reads_deeper("null"@, Json::Null, 1, 2);
        },
    }
    assert forall|i: int| 0 <= i < m.len() implies (#[trigger] m[i]).0 == v[i].0 && reads_as(
        m[i].1,
        v[i].1,
        2,
    ) by {
        if i == 0 {
        } else if i == 1 {
        } else {
            assert(i == 2);
        }
    }
    reads_object(m, v, 2);
    reads_document(object_text(m), object_json(v), 3);
}

/// A state push never carries an id, so no client can take it for the reply to a request.
pub proof fn state_carries_no_id(st: PlaybackState)
    ensures
        match document(wire(ServerMessage::State(st)) + seq!['\n']) {
            Ok(v) => field(v, "id"@) is None,
            Err(_) => false,
        },
{
    state_document(st);
    wire_names_differ();
    reveal_with_fuel(with_members, 4);
}

proof fn state_reads_back(st: PlaybackState)
    requires
        exact_playing(st.now_playing),
        exact(st.library_version as int),
    ensures
        answer_on(wire(ServerMessage::State(st)) + seq!['\n']) == Some(
            answer_for(ServerMessage::State(st)),
        ),
{
    state_document(st);
    wire_names_differ();
    integers_read_exactly(st.library_version as int);
    match st.now_playing {
        Some(np) => {
            playing_reads_back(np);
        },
        None => {},
    }
    reveal_with_fuel(with_members, 4);
    let now = now_json(st.now_playing);
    let m = with_members(Map::empty(), state_members(now, st.library_version), 0);
    assert(m.contains_key("type"@) && m["type"@] == Json::Str("state"@));
    assert(m.contains_key("now_playing"@) && m["now_playing"@] == now);
    assert(m.contains_key("library_version"@) && m["library_version"@] == Json::Num(
        int_dec(st.library_version as int),
    ));
}

proof fn paired_reads_back(id: Seq<char>, token: Seq<char>)
    ensures
        answer_on(
            object_text(
                seq![("type"@, quoted("paired"@)), ("id"@, quoted(id)), ("token"@, quoted(token))],
            ) + seq!['\n'],
        ) == Some(Answer::Paired { id, token }),
{
    let m = seq![("type"@, quoted("paired"@)), ("id"@, quoted(id)), ("token"@, quoted(token))];
    let v = seq![
        ("type"@, Json::Str("paired"@)),
        ("id"@, Json::Str(id)),
        ("token"@, Json::Str(token)),
    ];
    reads_string("paired"@);
    reads_string(id);
    reads_string(token);
    assert forall|i: int| 0 <= i < m.len() implies (#[trigger] m[i]).0 == v[i].0 && reads_as(
        m[i].1,
        v[i].1,
        1,
    ) by {
        if i == 0 {
        } else if i == 1 {
        } else {
            assert(i == 2);
        }
    }
    reads_object(m, v, 1);
    reads_document(object_text(m), object_json(v), 2);
    wire_names_differ();
    reveal_with_fuel(with_members, 4);
    let w = with_members(Map::empty(), v, 0);
    assert(w.contains_key("type"@) && w["type"@] == Json::Str("paired"@));
    assert(w.contains_key("id"@) && w["id"@] == Json::Str(id));
    assert(w.contains_key("token"@) && w["token"@] == Json::Str(token));
}

/// The members of a reply: its kind, its id, whether it succeeded, and possibly one more.
proof fn reply_reads_back(
    id: Seq<char>,
    ok: bool,
    extra: Option<(Seq<char>, Seq<char>, Json)>,
    h: int,
)
    requires
        1 <= h < 60,
        match extra {
            Some((k, t, v)) => reads_as(t, v, h) && (if ok {
                k == "result"@
            } else {
                k == "error"@ && v is Str
            }),
            None => ok,
        },
    ensures
        ({
            let head = seq![
                ("type"@, quoted("reply"@)),
                ("id"@, quoted(id)),
                ("ok"@, bool_word(ok)),
            ];
            let m = match extra {
                Some((k, t, v)) => head.push((k, t)),
                None => head,
            };
            answer_on(object_text(m) + seq!['\n']) == Some(
                if ok {
                    Answer::ReplyOk { id }
                } else {
                    Answer::Error {
                        id,
                        message: match extra {
                            Some((_, _, Json::Str(said))) => said,
                            _ => Seq::empty(),
                        },
                    }
                },
            )
        }),
{
    let head = seq![("type"@, quoted("reply"@)), ("id"@, quoted(id)), ("ok"@, bool_word(ok))];
    let head_v = seq![
        ("type"@, Json::Str("reply"@)),
        ("id"@, Json::Str(id)),
        ("ok"@, Json::Bool(ok)),
    ];
    reads_string("reply"@);
    reads_deeper(quoted("reply"@), Json::Str("reply"@), 1, h);
    reads_string(id);
    reads_deeper(quoted(id), Json::Str(id), 1, h);
    reads_bool(ok);
    reads_deeper(bool_word(ok), Json::Bool(ok), 1, h);
    let m = match extra {
        Some((k, t, v)) => head.push((k, t)),
        None => head,
    };
    let w = match extra {
        Some((k, t, v)) => head_v.push((k, v)),
        None => head_v,
    };
    assert forall|i: int| 0 <= i < m.len() implies (#[trigger] m[i]).0 == w[i].0 && reads_as(
        m[i].1,
        w[i].1,
        h,
    ) by {
        if i == 0 {
        } else if i == 1 {
        } else if i == 2 {
        } else {
            assert(i == 3);
        }
    }
    reads_object(m, w, h);
    reads_document(object_text(m), object_json(w), h + 1);
    wire_names_differ();
    reveal_with_fuel(with_members, 5);
    let map = with_members(Map::empty(), w, 0);
    assert(map.contains_key("type"@) && map["type"@] == Json::Str("reply"@));
    assert(map.contains_key("id"@) && map["id"@] == Json::Str(id));
    assert(map.contains_key("ok"@) && map["ok"@] == Json::Bool(ok));
    match extra {
        Some((k, t, v)) => {
            assert(map.contains_key(k) && map[k] == v);
        },
        None => {},
    }
}

spec fn entry_json_of(e: LibraryEntry) -> Json {
    object_json(
        seq![
            ("path"@, Json::Str(e.path@)),
            ("title"@, Json::Str(e.title@)),
            ("duration_ms"@, Json::Num(int_dec(e.duration_ms as int))),
        ],
    )
}

proof fn entry_reads(e: LibraryEntry)
    ensures
        reads_as(entry_text(e), entry_json_of(e), 2),
{
    let m = seq![
        ("path"@, quoted(e.path@)),
        ("title"@, quoted(e.title@)),
        ("duration_ms"@, int_dec(e.duration_ms as int)),
    ];
    let v = seq![
        ("path"@, Json::Str(e.path@)),
        ("title"@, Json::Str(e.title@)),
        ("duration_ms"@, Json::Num(int_dec(e.duration_ms as int))),
    ];
    reads_string(e.path@);
    reads_string(e.title@);
    reads_int(e.duration_ms as int);
    assert forall|i: int| 0 <= i < m.len() implies (#[trigger] m[i]).0 == v[i].0 && reads_as(
        m[i].1,
        v[i].1,
        1,
    ) by {
        if i == 0 {
        } else if i == 1 {
        } else {
            assert(i == 2);
        }
    }
    reads_object(m, v, 1);
}

/// Every line that the server writes reads back as what it was written from: a client learns
/// exactly the id, token, error or state that was sent. A number beyond 2^53 is outside this law,
/// since a reader of JSON rounds it.
pub proof fn lines_round_trip(m: ServerMessage)
    requires
        match m {
            ServerMessage::State(st) => exact_playing(st.now_playing) && exact(
                st.library_version as int,
            ),
            _ => true,
        },
    ensures
        answer_on(wire(m) + seq!['\n']) == Some(answer_for(m)),
{
    match m {
        ServerMessage::State(st) => {
            state_reads_back(st);
        },
        ServerMessage::Paired { id, token } => {
            paired_reads_back(id@, token@);
        },
        ServerMessage::Reply { id, result } => match result {
            ReplyBody::Done => {
                reply_reads_back(id@, true, None, 1);
            },
            ReplyBody::Library(items) => {
                let texts = entry_texts(items@);
                let vals = Seq::new(items@.len(), |i: int| entry_json_of(items@[i]));
                assert forall|i: int| 0 <= i < texts.len() implies reads_as(
                    #[trigger] texts[i],
                    vals[i],
                    2,
                ) by {
                    entry_reads(items@[i]);
                }
                reads_array(texts, vals, 2);
                let t = array_text(texts);
                reply_reads_back(id@, true, Some(("result"@, t, Json::Array(vals))), 3);
                let head = seq![
                    ("type"@, quoted("reply"@)),
                    ("id"@, quoted(id@)),
                    ("ok"@, "true"@),
                ];
                assert(head.push(("result"@, t)) =~= seq![
                    ("type"@, quoted("reply"@)),
                    ("id"@, quoted(id@)),
                    ("ok"@, "true"@),
                    ("result"@, t),
                ]);
            },
        },
        ServerMessage::Error { id, message } => {
            reads_string(message@);
            let t = quoted(message@);
            reply_reads_back(id@, false, Some(("error"@, t, Json::Str(message@))), 1);
            let head = seq![("type"@, quoted("reply"@)), ("id"@, quoted(id@)), ("ok"@, "false"@)];
            assert(head.push(("error"@, t)) =~= seq![
                ("type"@, quoted("reply"@)),
                ("id"@, quoted(id@)),
                ("ok"@, "false"@),
                ("error"@, t),
            ]);
        },
    }
}

/// Only the pairing and the authenticating message may come before authentication.
pub proof fn only_pair_and_auth_come_first(line: Seq<char>)
    requires
        request_on(line) is Some,
    ensures
        request_on(line)->0.pre_auth() <==> (match document(line) {
            Ok(v) => str_field(v, "type"@) == Some("pair"@) || str_field(v, "type"@) == Some(
                "auth"@,
            ),
            Err(_) => false,
        }),
{
}

/// Whoever reads a push of the state finds under each name what is playing: the path, the title, the
/// duration and the position in milliseconds, whether it is paused and the volume; `null` where nothing
/// is. It says that it is a state, and the version of the library.
pub proof fn the_state_can_be_read(st: PlaybackState)
    ensures
        match document(wire(ServerMessage::State(st)) + seq!['\n']) {
            Err(_) => false,
            Ok(v) => {
                &&& str_field(v, "type"@) == Some("state"@)
                &&& field(v, "library_version"@) == Some(
                    Json::Num(int_dec(st.library_version as int)),
                )
                &&& match (st.now_playing, field(v, "now_playing"@)) {
                    (Some(np), Some(n)) => {
                        &&& str_field(n, "path"@) == Some(np.path@)
                        &&& str_field(n, "title"@) == Some(np.title@)
                        &&& field(n, "duration_ms"@) == Some(
                            Json::Num(int_dec(np.duration_ms as int)),
                        )
                        &&& field(n, "position_ms"@) == Some(
                            Json::Num(int_dec(np.position_ms as int)),
                        )
                        &&& field(n, "paused"@) == Some(Json::Bool(np.paused))
                        &&& field(n, "volume"@) == Some(Json::Num(int_dec(np.volume as int)))
                    },
                    (None, n) => n == Some(Json::Null),
                    _ => false,
                }
            },
        },
{
    state_document(st);
    wire_names_differ();
    let s = state_members(now_json(st.now_playing), st.library_version);
    members_are_found(Map::empty(), s, 0, 0);
    members_are_found(Map::empty(), s, 0, 1);
    members_are_found(Map::empty(), s, 0, 2);
    if let Some(np) = st.now_playing {
        playing_names_differ();
        let p = playing_members(np);
        members_are_found(Map::empty(), p, 0, 0);
        members_are_found(Map::empty(), p, 0, 1);
        members_are_found(Map::empty(), p, 0, 2);
        members_are_found(Map::empty(), p, 0, 3);
        members_are_found(Map::empty(), p, 0, 4);
        members_are_found(Map::empty(), p, 0, 5);
    }
}

/// What a message asks for goes by its type, with the id and whatever else the type calls for: a code,
/// a token, a path or a number. One without an id or a type asks for nothing.
pub proof fn requests_are_told_by_type(v: Json, text: Seq<char>)
    ensures
        str_field(v, "id"@) is None || str_field(v, "type"@) is None ==> request_of(v) is None,
        match (str_field(v, "id"@), str_field(v, "type"@)) {
            (Some(id), Some(ty)) => {
                let r = request_of(v);
                &&& r is Some ==> r->0.id() == id
                &&& r == Some(Request::Library { id }) <==> ty == "library"@
                &&& r == Some(Request::Pause { id }) <==> ty == "pause"@
                &&& r == Some(Request::Resume { id }) <==> ty == "resume"@
                &&& r == Some(Request::TogglePlayPause { id }) <==> ty == "toggle"@
                &&& r == Some(Request::Next { id }) <==> ty == "next"@
                &&& r == Some(Request::Previous { id }) <==> ty == "previous"@
                &&& r == Some(Request::Pair { id, code: text }) <==> ty == "pair"@ && str_field(
                    v,
                    "code"@,
                ) == Some(text)
                &&& r == Some(Request::Auth { id, token: text }) <==> ty == "auth"@ && str_field(
                    v,
                    "token"@,
                ) == Some(text)
                &&& r == Some(Request::Play { id, path: text }) <==> ty == "play"@ && str_field(
                    v,
                    "path"@,
                ) == Some(text)
            },
            _ => true,
        },
{
    reveal_strlit("pair");
    reveal_strlit("auth");
    reveal_strlit("library");
    reveal_strlit("play");
    reveal_strlit("pause");
    reveal_strlit("resume");
    reveal_strlit("toggle");
    reveal_strlit("seek");
    reveal_strlit("volume");
    reveal_strlit("next");
    reveal_strlit("previous");
    assert("pair"@.len() == 4 && "pair"@[0] == 'p' && "pair"@[1] == 'a' && "pair"@[2] == 'i'
        && "pair"@[3] == 'r');
    assert("auth"@.len() == 4 && "auth"@[0] == 'a' && "auth"@[1] == 'u' && "auth"@[2] == 't'
        && "auth"@[3] == 'h');
    assert("library"@.len() == 7 && "library"@[0] == 'l' && "library"@[1] == 'i'
        && "library"@[2] == 'b' && "library"@[3] == 'r' && "library"@[4] == 'a'
        && "library"@[5] == 'r' && "library"@[6] == 'y');
    assert("play"@.len() == 4 && "play"@[0] == 'p' && "play"@[1] == 'l' && "play"@[2] == 'a'
        && "play"@[3] == 'y');
    assert("pause"@.len() == 5 && "pause"@[0] == 'p' && "pause"@[1] == 'a' && "pause"@[2] == 'u'
        && "pause"@[3] == 's' && "pause"@[4] == 'e');
    assert("resume"@.len() == 6 && "resume"@[0] == 'r' && "resume"@[1] == 'e' && "resume"@[2] == 's'
        && "resume"@[3] == 'u' && "resume"@[4] == 'm' && "resume"@[5] == 'e');
    assert("toggle"@.len() == 6 && "toggle"@[0] == 't' && "toggle"@[1] == 'o' && "toggle"@[2] == 'g'
        && "toggle"@[3] == 'g' && "toggle"@[4] == 'l' && "toggle"@[5] == 'e');
    assert("seek"@.len() == 4 && "seek"@[0] == 's' && "seek"@[1] == 'e' && "seek"@[2] == 'e'
        && "seek"@[3] == 'k');
    assert("volume"@.len() == 6 && "volume"@[0] == 'v' && "volume"@[1] == 'o' && "volume"@[2] == 'l'
        && "volume"@[3] == 'u' && "volume"@[4] == 'm' && "volume"@[5] == 'e');
    assert("next"@.len() == 4 && "next"@[0] == 'n' && "next"@[1] == 'e' && "next"@[2] == 'x'
        && "next"@[3] == 't');
    assert("previous"@.len() == 8 && "previous"@[0] == 'p' && "previous"@[1] == 'r'
        && "previous"@[2] == 'e' && "previous"@[3] == 'v' && "previous"@[4] == 'i'
        && "previous"@[5] == 'o' && "previous"@[6] == 'u' && "previous"@[7] == 's');
}

/// Whoever reads the reply to a request for the library finds the id, and every entry in order with its
/// path, its title and its duration.
pub proof fn the_library_can_be_read(id: String, items: Vec<LibraryEntry>)
    ensures
        match document(
            wire(ServerMessage::Reply { id, result: ReplyBody::Library(items) }) + seq!['\n'],
        ) {
            Err(_) => false,
            Ok(v) => {
                &&& str_field(v, "type"@) == Some("reply"@)
                &&& str_field(v, "id"@) == Some(id@)
                &&& field(v, "ok"@) == Some(Json::Bool(true))
                &&& match field(v, "result"@) {
                    Some(Json::Array(a)) => a.len() == items@.len() && forall|i: int|
                        0 <= i < a.len() ==> str_field(#[trigger] a[i], "path"@) == Some(
                            items@[i].path@,
                        ) && str_field(a[i], "title"@) == Some(items@[i].title@) && field(
                            a[i],
                            "duration_ms"@,
                        ) == Some(Json::Num(int_dec(items@[i].duration_ms as int))),
                    _ => false,
                }
            },
        },
{
    let texts = entry_texts(items@);
    let vals = Seq::new(items@.len(), |i: int| entry_json_of(items@[i]));
    assert forall|i: int| 0 <= i < texts.len() implies reads_as(#[trigger] texts[i], vals[i], 2) by {
        entry_reads(items@[i]);
    }
    reads_array(texts, vals, 2);
    let t = array_text(texts);
    let m = seq![
        ("type"@, quoted("reply"@)),
        ("id"@, quoted(id@)),
        ("ok"@, "true"@),
        ("result"@, t),
    ];
    let w = seq![
        ("type"@, Json::Str("reply"@)),
        ("id"@, Json::Str(id@)),
        ("ok"@, Json::Bool(true)),
        ("result"@, Json::Array(vals)),
    ];
    reads_string("reply"@);
    reads_deeper(quoted("reply"@), Json::Str("reply"@), 1, 3);
    reads_string(id@);
    reads_deeper(quoted(id@), Json::Str(id@), 1, 3);
    reads_bool(true);
    reads_deeper("true"@, Json::Bool(true), 1, 3);
    assert forall|i: int| 0 <= i < m.len() implies (#[trigger] m[i]).0 == w[i].0 && reads_as(
        m[i].1,
        w[i].1,
        3,
    ) by {
        if i == 0 {
        } else if i == 1 {
        } else if i == 2 {
        } else {
            assert(i == 3);
        }
    }
    reads_object(m, w, 3);
    reads_document(object_text(m), object_json(w), 4);
    wire_names_differ();
    members_are_found(Map::empty(), w, 0, 0);
    members_are_found(Map::empty(), w, 0, 1);
    members_are_found(Map::empty(), w, 0, 2);
    members_are_found(Map::empty(), w, 0, 3);
    assert forall|i: int| 0 <= i < vals.len() implies str_field(#[trigger] vals[i], "path"@) == Some(
        items@[i].path@,
    ) && str_field(vals[i], "title"@) == Some(items@[i].title@) && field(vals[i], "duration_ms"@)
        == Some(Json::Num(int_dec(items@[i].duration_ms as int))) by {
        let e = items@[i];
        let x = seq![
            ("path"@, Json::Str(e.path@)),
            ("title"@, Json::Str(e.title@)),
            ("duration_ms"@, Json::Num(int_dec(e.duration_ms as int))),
        ];
        playing_names_differ();
        members_are_found(Map::empty(), x, 0, 0);
        members_are_found(Map::empty(), x, 0, 1);
        members_are_found(Map::empty(), x, 0, 2);
    }
}

} // verus!
