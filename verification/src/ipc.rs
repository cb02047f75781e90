//! Talking to the player over its JSON socket: what a command looks like on the wire, which message
//! answers it, and what becomes of the events that arrive in between.
use vstd::arithmetic::power2::{lemma2_to64, pow2};
use vstd::prelude::*;
use vstd::string::*;

use crate::binary64::nearest;
use crate::json::{
    document,
    field,
    measure_of,
    members,
    members_map,
    model,
    model_of_object,
    models,
    parse,
    quote,
    quoted,
    str_field,
    Json,
    Value,
};
use crate::json_writer::{
    array_of,
    array_text,
    integers_read_as_nearest,
    object_of,
    object_text,
    pairs_view,
    reads_array,
    reads_as,
    reads_document,
    reads_int,
    reads_object,
    reads_string,
    with_members,
};
use crate::measure::Measure;
use crate::remote::protocol::{bool_text, bool_word, str_member};
use crate::text::{
    dec,
    dec_text,
    int_dec,
    opt_str_view,
    opt_view,
    owned,
    same,
    trim,
    trim_text,
    views,
};

verus! {

/// The socket of a player started for a purpose: a named pipe on Windows, else a file in the user's
/// runtime directory, which no other user can write to. Its name holds the process, so that two
/// runs do not collide.
pub open spec fn ipc_path(
    tag: Seq<char>,
    windows: bool,
    runtime_dir: Option<Seq<char>>,
    temp: Seq<char>,
    pid: u32,
) -> Seq<char> {
    if windows {
        "\\\\.\\pipe\\lumen-"@ + tag
    } else {
        let base = match runtime_dir {
            Some(d) => if d.len() > 0 {
                d
            } else {
                temp
            },
            None => temp,
        };
        base + "/lumen-"@ + tag + "-"@ + dec(pid as nat) + ".sock"@
    }
}

/// The socket of a player started for a purpose.
pub fn default_ipc_path(
    tag: &str,
    windows: bool,
    runtime_dir: Option<&str>,
    temp: &str,
    pid: u32,
) -> (r: String)
    ensures
        r@ == ipc_path(tag@, windows, opt_str_view(runtime_dir), temp@, pid),
{
    if windows {
        let mut out = owned("\\\\.\\pipe\\lumen-");
        out.append(tag);
        return out;
    }
    let mut out = match runtime_dir {
        Some(d) => if d.is_empty() {
            owned(temp)
        } else {
            owned(d)
        },
        None => owned(temp),
    };
    out.append("/lumen-");
    out.append(tag);
    out.append("-");
    out.append(dec_text(pid as u128).as_str());
    out.append(".sock");
    out
}

/// The words as JSON strings.
pub open spec fn quoted_all(words: Seq<Seq<char>>) -> Seq<Seq<char>> {
    Seq::new(words.len(), |i: int| quoted(words[i]))
}

/// A command on the wire, with the number that its answer will carry.
pub open spec fn command_text(words: Seq<Seq<char>>, id: u64) -> Seq<char> {
    object_text(
        seq![("command"@, array_text(quoted_all(words))), ("request_id"@, int_dec(id as int))],
    )
}

/// A command on the wire, with the number that its answer will carry.
pub fn command_line(words: &Vec<String>, id: u64) -> (r: String)
    ensures
        r@ == command_text(views(words@), id),
{
    let mut parts: Vec<String> = Vec::new();
    let mut i: usize = 0;
    while i < words.len()
        invariant
            i <= words@.len(),
            parts@.len() == i,
            forall|k: int| 0 <= k < i ==> (#[trigger] parts@[k])@ == quoted(words@[k]@),
        decreases words@.len() - i,
    {
        parts.push(quote(words[i].as_str()));
        i += 1;
    }
    assert(views(parts@) =~= quoted_all(views(words@)));
    let pairs = vec![("command", array_of(&parts)), ("request_id", dec_text(id as u128))];
    assert(pairs_view(pairs@) =~= seq![
        ("command"@, array_text(quoted_all(views(words@)))),
        ("request_id"@, int_dec(id as int)),
    ]);
    object_of(&pairs)
}

/// The words as JSON values.
pub open spec fn word_values(words: Seq<Seq<char>>) -> Seq<Json> {
    Seq::new(words.len(), |i: int| Json::Str(words[i]))
}

/// Whatever the words of a command hold, the player reads exactly those words: a path with quotes
/// or backslashes in it survives.
pub proof fn command_words_survive(words: Seq<Seq<char>>, id: u64)
    ensures
        match document(command_text(words, id)) {
            Ok(v) => field(v, "command"@) == Some(Json::Array(word_values(words))) && field(
                v,
                "request_id"@,
            ) == Some(Json::Num(int_dec(id as int))),
            Err(_) => false,
        },
{
    let texts = quoted_all(words);
    let vals = word_values(words);
    assert forall|i: int| 0 <= i < texts.len() implies reads_as(#[trigger] texts[i], vals[i], 1) by {
        reads_string(words[i]);
    }
    reads_array(texts, vals, 1);
    let n = int_dec(id as int);
    reads_int(id as int);
    assert(reads_as(n, Json::Num(n), 2)) by {
        reveal(reads_as);
    }
    let m = seq![("command"@, array_text(texts)), ("request_id"@, n)];
    let v = seq![("command"@, Json::Array(vals)), ("request_id"@, Json::Num(n))];
    assert forall|i: int| 0 <= i < m.len() implies (#[trigger] m[i]).0 == v[i].0 && reads_as(
        m[i].1,
        v[i].1,
        2,
    ) by {
        if i == 0 {
        } else {
            assert(i == 1);
        }
    }
    reads_object(m, v, 2);
    reads_document(object_text(m), Json::Object(with_members(Map::empty(), v, 0)), 3);
    reveal_with_fuel(with_members, 3);
    reveal_strlit("command");
    reveal_strlit("request_id");
    assert("command"@.len() == 7 && "request_id"@.len() == 10);
}

/// The member of an object, taken out of it.
fn take_field(v: Value, key: &str) -> (r: Option<Value>)
    ensures
        match r {
            Some(x) => field(model(v), key@) == Some(model(x)),
            None => field(model(v), key@) is None,
        },
{
    match v {
        Value::Object(given) => {
            let mut m = given;
            let ghost all = members(m@);
            proof {
                model_of_object(m);
                assert(all.take(m@.len() as int) =~= all);
            }
            let mut i: usize = m.len();
            while i > 0
                invariant
                    i <= m@.len(),
                    all == members(m@),
                    v == Value::Object(m),
                    model(v) == Json::Object(members_map(all)),
                    field(model(v), key@) == field(
                        Json::Object(members_map(all.take(i as int))),
                        key@,
                    ),
                decreases i,
            {
                proof {
                    let part = all.take(i as int);
                    assert(part.drop_last() =~= all.take(i - 1));
                    assert(part.last() == all[i - 1]);
                }
                if same(m[i - 1].0.as_str(), key) {
                    let (_, found) = m.swap_remove(i - 1);
                    return Some(found);
                }
                i -= 1;
            }
            None
        },
        _ => None,
    }
}

/// The state of a connection to the player.
pub struct Mpv {
    next_id: u64,
    /// Events seen while waiting for an answer.
    queued: Vec<Value>,
    closed: bool,
}

/// What a message means to whoever waits for the answer of a number.
pub enum Received {
    /// The answer: its data, or nothing where the player answered with an error.
    Answer(Option<Value>),
    /// Not the answer. An event is kept for later.
    Waiting,
}

/// Whether a message answers the command of a number. Numbers in messages are binary64 values, so
/// the command's number counts as the nearest of those.
pub open spec fn answers(v: Json, id: u64) -> bool {
    match field(v, "request_id"@) {
        Some(f) => match measure_of(f) {
            Some(m) => m.equals(nearest(id as nat, 1)),
            None => false,
        },
        None => false,
    }
}

/// A message that gives back a command's number as it was sent answers that command.
pub proof fn an_echoed_number_answers(v: Json, id: u64)
    requires
        field(v, "request_id"@) == Some(Json::Num(int_dec(id as int))),
    ensures
        answers(v, id),
{
    integers_read_as_nearest(id as nat);
    let m = nearest(id as nat, 1);
    match m {
        Measure::Finite { negative, mantissa, exponent } => {
            lemma2_to64();
            assert(mantissa as nat * pow2(0) == mantissa);
        },
        _ => {},
    }
}

/// The data of an answer; nothing where it reports an error.
pub open spec fn answer_data(v: Json) -> Option<Json> {
    if str_field(v, "error"@) == Some("success"@) {
        field(v, "data"@)
    } else {
        None
    }
}

impl Mpv {
    /// How many commands have gone out.
    pub closed spec fn sent(&self) -> nat {
        self.next_id as nat
    }

    /// The events that are kept, the oldest first.
    pub closed spec fn events(&self) -> Seq<Json> {
        models(self.queued@)
    }

    /// Whether the player is gone.
    pub closed spec fn gone(&self) -> bool {
        self.closed
    }

    pub fn new() -> (r: Self)
        ensures
            r.sent() == 0,
            r.events() == Seq::<Json>::empty(),
            !r.gone(),
    {
        let r = Mpv { next_id: 0, queued: Vec::new(), closed: false };
        assert(r.events() =~= Seq::<Json>::empty());
        r
    }

    /// True once the player's socket has closed.
    pub fn is_closed(&self) -> (r: bool)
        ensures
            r == self.gone(),
    {
        self.closed
    }

    /// Notes that the player's socket has closed.
    pub fn disconnected(&mut self)
        ensures
            final(self).gone(),
            final(self).sent() == old(self).sent(),
            final(self).events() == old(self).events(),
    {
        self.closed = true;
    }

    /// The next command: its number and its line.
    pub fn command(&mut self, words: &Vec<String>) -> (r: (u64, String))
        requires
            old(self).sent() < u64::MAX,
        ensures
            r.0 == old(self).sent() + 1,
            r.1@ == command_text(views(words@), r.0),
            final(self).sent() == old(self).sent() + 1,
            final(self).events() == old(self).events(),
            final(self).gone() == old(self).gone(),
    {
        self.next_id = self.next_id + 1;
        let id: u64 = self.next_id;
        (id, command_line(words, id))
    }

    /// Takes in a message while the answer of the number `id` is awaited. An event that arrives
    /// first is kept, never dropped: it may say why a file failed.
    pub fn receive(&mut self, id: u64, v: Value) -> (r: Received)
        ensures
            final(self).sent() == old(self).sent(),
            final(self).gone() == old(self).gone(),
            answers(model(v), id) ==> final(self).events() == old(self).events() && (match r {
                Received::Answer(Some(d)) => answer_data(model(v)) == Some(model(d)),
                Received::Answer(None) => answer_data(model(v)) is None,
                Received::Waiting => false,
            }),
            !answers(model(v), id) ==> r is Waiting && final(self).events() == (if field(
                model(v),
                "event"@,
            ) is Some {
                old(self).events().push(model(v))
            } else {
                old(self).events()
            }),
    {
        let mine = match v.get("request_id") {
            Some(f) => match f.as_f64() {
                Some(m) => m.is_same(Measure::of_whole(id)),
                None => false,
            },
            None => false,
        };
        if mine {
            let fine = match str_member(&v, "error") {
                Some(e) => same(e.as_str(), "success"),
                None => false,
            };
            if !fine {
                return Received::Answer(None);
            }
            return Received::Answer(take_field(v, "data"));
        }
        if v.get("event").is_some() {
            let ghost was = self.events();
            let ghost m = model(v);
            self.queued.push(v);
            assert(self.events() =~= was.push(m));
        }
        Received::Waiting
    }

    /// The oldest event that is kept, if any.
    pub fn next_event(&mut self) -> (r: Option<Value>)
        ensures
            final(self).sent() == old(self).sent(),
            final(self).gone() == old(self).gone(),
            match r {
                Some(v) => old(self).events().len() > 0 && model(v) == old(self).events()[0] && final(
                    self).events() == old(self).events().skip(1),
                None => old(self).events().len() == 0 && final(self).events() == old(self).events(),
            },
    {
        if self.queued.len() == 0 {
            assert(self.events().len() == 0);
            return None;
        }
        let ghost was = self.events();
        let v = self.queued.remove(0);
        assert(was[0] == model(v));
        assert(self.events() =~= was.skip(1));
        Some(v)
    }
}

/// A message that arrives while no answer is awaited, when it is an event.
pub fn as_event(v: Value) -> (r: Option<Value>)
    ensures
        match r {
            Some(w) => field(model(v), "event"@) is Some && w == v,
            None => field(model(v), "event"@) is None,
        },
{
    if v.get("event").is_some() {
        Some(v)
    } else {
        None
    }
}

/// The message on a line; `None` for a blank line, or one that is not JSON: losing one stray line
/// is better than losing a whole run.
pub fn incoming(line: &str) -> (r: Option<Value>)
    ensures
        match r {
            Some(v) => document(line@) == Ok::<Json, Seq<char>>(model(v)) && trim(line@).len() > 0,
            None => document(line@) is Err || trim(line@).len() == 0,
        },
{
    if trim_text(line).as_str().is_empty() {
        return None;
    }
    match parse(line) {
        Ok(v) => Some(v),
        Err(_) => None,
    }
}

/// The text of a property: a string unless it is empty, a number as it is shown, a truth value.
pub open spec fn property_text(v: Json, shown: Seq<char>) -> Option<Seq<char>> {
    match v {
        Json::Str(s) => if s.len() > 0 {
            Some(s)
        } else {
            None
        },
        Json::Num(_) => Some(shown),
        Json::Bool(b) => Some(bool_word(b)),
        _ => None,
    }
}

/// The text of a property. `shown` is how the value is shown if it is a number.
pub fn get_string(v: &Value, shown: &str) -> (r: Option<String>)
    ensures
        opt_view(r) == property_text(model(*v), shown@),
{
    match v {
        Value::Str(s) => if s.as_str().is_empty() {
            None
        } else {
            Some(s.clone())
        },
        Value::Num(_) => Some(owned(shown)),
        Value::Bool(b) => Some(bool_text(*b)),
        _ => None,
    }
}

/// The name of an event, if this value is one.
pub fn event_name(v: &Value) -> (r: Option<&str>)
    ensures
        opt_str_view(r) == str_field(model(*v), "event"@),
{
    match v.get("event") {
        Some(e) => e.as_str(),
        None => None,
    }
}

/// Whether the reason for which a file ended means that something went wrong. Only `error` does:
/// `stop` covers a skip by the user and by the run itself.
pub fn end_reason_is_failure(reason: &str) -> (r: bool)
    ensures
        r == (reason@ == "error"@),
{
    same(reason, "error")
}

/// Two processes never share a player's socket for one purpose; the socket lies in the user's runtime
/// directory where there is one, else in the directory for temporary files, and its purpose ends the
/// name of a pipe.
pub proof fn sockets_do_not_collide(
    tag: Seq<char>,
    dir: Option<Seq<char>>,
    temp: Seq<char>,
    pid: u32,
    other: u32,
)
    ensures
        pid != other ==> ipc_path(tag, false, dir, temp, pid) != ipc_path(
            tag,
            false,
            dir,
            temp,
            other,
        ),
        dir is Some && dir->0.len() > 0 ==> dir->0.is_prefix_of(
            ipc_path(tag, false, dir, temp, pid),
        ),
        dir is None ==> temp.is_prefix_of(ipc_path(tag, false, dir, temp, pid)),
        tag.is_suffix_of(ipc_path(tag, true, dir, temp, pid)),
{
    let base = match dir {
        Some(d) => if d.len() > 0 {
            d
        } else {
            temp
        },
        None => temp,
    };
    let a = ipc_path(tag, false, dir, temp, pid);
    let b = ipc_path(tag, false, dir, temp, other);
    let head = base + "/lumen-"@ + tag + "-"@;
    let n = head.len() as int;
    let s = ".sock"@.len() as int;
    assert(a.subrange(0, base.len() as int) =~= base);
    if a == b {
        assert(a.subrange(n, a.len() - s) =~= dec(pid as nat));
        assert(b.subrange(n, b.len() - s) =~= dec(other as nat));
        crate::json_writer::dec_value(pid as nat);
        crate::json_writer::dec_value(other as nat);
    }
    let w = ipc_path(tag, true, dir, temp, pid);
    assert(w.subrange(w.len() - tag.len(), w.len() as int) =~= tag);
}

/// A property's text is the string that it is, the number as it is shown or the word for a truth
/// value; an empty string or anything else is none. An answer's data counts only where the player
/// reports success.
pub proof fn properties_have_their_text(s: Seq<char>, shown: Seq<char>, v: Json)
    ensures
        s.len() > 0 ==> property_text(Json::Str(s), shown) == Some(s),
        property_text(Json::Str(Seq::empty()), shown) is None,
        property_text(Json::Num(s), shown) == Some(shown),
        property_text(Json::Bool(true), shown) == Some("true"@),
        property_text(Json::Bool(false), shown) == Some("false"@),
        property_text(Json::Null, shown) is None,
        str_field(v, "error"@) == Some("success"@) ==> answer_data(v) == field(v, "data"@),
        str_field(v, "error"@) != Some("success"@) ==> answer_data(v) is None,
{
}

} // verus!
