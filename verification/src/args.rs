//! The command line: which command is asked for, and with which options.
use vstd::prelude::*;
use vstd::string::*;

use crate::paths::joined;
use crate::scan::ScanOptions;
use crate::session::PlayOptions;
use crate::text::{
    debug_str,
    debug_text,
    dec,
    numerals_read_back,
    opt_view,
    owned,
    parse_uint,
    parse_uint_text,
    same,
    starts_with,
    views,
};
use crate::verify::{DEFAULT_BUDGET_BYTES, DEFAULT_REVERIFY_DAYS};

verus! {

/// The first place from `i` on that holds `name`, or the end.
pub open spec fn place_from(a: Seq<Seq<char>>, name: Seq<char>, i: int) -> int
    decreases a.len() - i,
{
    if i < 0 || i >= a.len() || a[i] == name {
        i
    } else {
        place_from(a, name, i + 1)
    }
}

/// Where the arguments that are passed on begin: a bare `--`, or the end.
pub open spec fn stop_of(a: Seq<Seq<char>>) -> int {
    place_from(a, "--"@, 0)
}

/// Every place before the first is another argument.
pub proof fn place_is_first(a: Seq<Seq<char>>, name: Seq<char>, i: int)
    requires
        0 <= i <= a.len(),
    ensures
        i <= place_from(a, name, i) <= a.len(),
        place_from(a, name, i) < a.len() ==> a[place_from(a, name, i)] == name,
        forall|k: int| i <= k < place_from(a, name, i) ==> a[k] != name,
    decreases a.len() - i,
{
    if i < a.len() && a[i] != name {
        place_is_first(a, name, i + 1);
    }
}

fn place(args: &[String], name: &str) -> (r: usize)
    ensures
        r == place_from(views(args@), name@, 0),
        r <= args@.len(),
{
    let ghost a = views(args@);
    let mut i: usize = 0;
    while i < args.len()
        invariant
            i <= args@.len(),
            a == views(args@),
            place_from(a, name@, 0) == place_from(a, name@, i as int),
        decreases args@.len() - i,
    {
        if same(args[i].as_str(), name) {
            return i;
        }
        i += 1;
    }
    i
}

/// Whether an option without a value is given.
pub open spec fn has_flag(a: Seq<Seq<char>>, name: Seq<char>) -> bool {
    exists|i: int| 0 <= i < stop_of(a) && #[trigger] a[i] == name
}

/// Whether an option without a value is given, before any bare `--`.
pub fn flag(args: &[String], name: &str) -> (r: bool)
    ensures
        r == has_flag(views(args@), name@),
{
    let ghost a = views(args@);
    let stop: usize = place(args, "--");
    proof {
        place_is_first(a, "--"@, 0);
    }
    let mut i: usize = 0;
    while i < stop
        invariant
            i <= stop <= args@.len(),
            a == views(args@),
            stop == stop_of(a),
            forall|k: int| 0 <= k < i ==> #[trigger] a[k] != name@,
        decreases stop - i,
    {
        assert(a[i as int] == args@[i as int]@);
        if same(args[i].as_str(), name) {
            return true;
        }
        i += 1;
    }
    false
}

/// The value of an option: what follows its first mention.
pub open spec fn value_of(a: Seq<Seq<char>>, name: Seq<char>) -> Option<Seq<char>> {
    let at = place_from(a, name, 0);
    if at < stop_of(a) && at + 1 < a.len() {
        Some(a[at + 1])
    } else {
        None
    }
}

/// The value of an option that is given before any bare `--`; `None` when nothing follows it.
pub fn value(args: &[String], name: &str) -> (r: Option<String>)
    ensures
        opt_view(r) == value_of(views(args@), name@),
{
    let stop: usize = place(args, "--");
    let at: usize = place(args, name);
    if at < stop && at < args.len() - 1 {
        Some(args[at + 1].clone())
    } else {
        None
    }
}

/// The arguments after a bare `--`.
pub open spec fn passed_on(a: Seq<Seq<char>>) -> Seq<Seq<char>> {
    if stop_of(a) < a.len() {
        a.skip(stop_of(a) + 1)
    } else {
        Seq::empty()
    }
}

/// The arguments after a bare `--`, which go to the player as they are.
pub fn passthrough(args: &[String]) -> (r: Vec<String>)
    ensures
        views(r@) == passed_on(views(args@)),
{
    let ghost a = views(args@);
    let stop: usize = place(args, "--");
    let mut out: Vec<String> = Vec::new();
    if stop == args.len() {
        assert(views(out@) =~= passed_on(a));
        return out;
    }
    let mut i: usize = stop + 1;
    while i < args.len()
        invariant
            stop < i <= args@.len(),
            a == views(args@),
            out@.len() == i - stop - 1,
            forall|k: int| 0 <= k < out@.len() ==> (#[trigger] out@[k])@ == a[stop + 1 + k],
        decreases args@.len() - i,
    {
        out.push(args[i].clone());
        i += 1;
    }
    assert(views(out@) =~= passed_on(a));
    out
}

/// Whether an option of the scanning commands takes a value.
pub open spec fn takes_value(a: Seq<char>) -> bool {
    a == "--seconds"@ || a == "--limit"@ || a == "--depth"@ || a == "--vo"@ || a == "--hwdec"@ || a
        == "--json"@
}

fn wants_value(a: &str) -> (r: bool)
    ensures
        r == takes_value(a@),
{
    same(a, "--seconds") || same(a, "--limit") || same(a, "--depth") || same(a, "--vo") || same(
        a,
        "--hwdec",
    ) || same(a, "--json")
}

/// What stands alone from the `i`-th argument on: neither an option nor its value.
pub open spec fn alone_from(a: Seq<Seq<char>>, stop: int, i: int) -> Seq<Seq<char>>
    decreases stop + 1 - i,
{
    if i < 0 || i >= stop || i >= a.len() {
        Seq::empty()
    } else if takes_value(a[i]) {
        alone_from(a, stop, i + 2)
    } else if "--"@.is_prefix_of(a[i]) {
        alone_from(a, stop, i + 1)
    } else {
        seq![a[i]] + alone_from(a, stop, i + 1)
    }
}

/// The paths that are given: everything that is neither an option, an option's value, nor after
/// `--`.
pub open spec fn paths_given(a: Seq<Seq<char>>) -> Seq<Seq<char>> {
    alone_from(a, stop_of(a), 0)
}

/// The paths that are given: everything that is neither an option, an option's value, nor after
/// `--`.
pub fn positional(args: &[String]) -> (r: Vec<String>)
    ensures
        views(r@) == paths_given(views(args@)),
{
    let ghost a = views(args@);
    let stop: usize = place(args, "--");
    let mut out: Vec<String> = Vec::new();
    let mut i: usize = 0;
    assert(views(out@) + alone_from(a, stop as int, 0) =~= paths_given(a));
    while i < stop
        invariant
            stop <= args@.len(),
            a == views(args@),
            views(out@) + alone_from(a, stop as int, i as int) == paths_given(a),
        decreases stop - i,
    {
        let ghost had = views(out@);
        if wants_value(args[i].as_str()) {
            if stop - i <= 2 {
                assert(alone_from(a, stop as int, i + 2) =~= Seq::<Seq<char>>::empty());
                assert(views(out@) =~= paths_given(a));
                return out;
            }
            i += 2;
        } else {
            if !starts_with(args[i].as_str(), "--") {
                out.push(args[i].clone());
                assert(views(out@) =~= had + seq![a[i as int]]);
                assert(had + (seq![a[i as int]] + alone_from(a, stop as int, i + 1)) =~= views(
                    out@,
                ) + alone_from(a, stop as int, i + 1));
            }
            i += 1;
        }
    }
    assert(views(out@) =~= paths_given(a));
    out
}

/// An option given after a bare `--` is the player's: it is neither seen as a flag, nor as a value,
/// nor as a path, and it reaches the player.
pub proof fn the_rest_is_passed_on(a: Seq<Seq<char>>, rest: Seq<Seq<char>>, name: Seq<char>)
    requires
        forall|i: int| 0 <= i < a.len() ==> a[i] != "--"@,
    ensures
        passed_on(a.push("--"@) + rest) == rest,
        paths_given(a.push("--"@) + rest) == paths_given(a),
        has_flag(a.push("--"@) + rest, name) == has_flag(a, name),
{
    let all = a.push("--"@) + rest;
    place_is_first(all, "--"@, 0);
    place_is_first(a, "--"@, 0);
    let n = a.len() as int;
    assert(all[n] == "--"@);
    assert(stop_of(a) == n);
    assert(stop_of(all) == n) by {
        let s = stop_of(all);
        if s < n {
            assert(all[s] == a[s]);
        }
    }
    assert(passed_on(all) =~= rest);
    same_prefix_same_paths(a, all, n, 0);
    if has_flag(all, name) {
        let i = choose|i: int| 0 <= i < stop_of(all) && #[trigger] all[i] == name;
        assert(a[i] == name);
    }
    if has_flag(a, name) {
        let i = choose|i: int| 0 <= i < stop_of(a) && #[trigger] a[i] == name;
        assert(all[i] == name);
    }
}

proof fn same_prefix_same_paths(a: Seq<Seq<char>>, b: Seq<Seq<char>>, stop: int, i: int)
    requires
        0 <= i,
        stop <= a.len(),
        stop <= b.len(),
        forall|k: int| 0 <= k < stop ==> a[k] == b[k],
    ensures
        alone_from(a, stop, i) == alone_from(b, stop, i),
    decreases stop + 1 - i,
{
    if i < stop {
        same_prefix_same_paths(a, b, stop, i + 1);
        same_prefix_same_paths(a, b, stop, i + 2);
    }
}

/// A command of the program.
#[derive(Debug, Clone, Copy, PartialEq, Eq, Structural)]
pub enum Command {
    Doctor,
    Setup,
    Scan,
    Items,
    Play,
    Test,
    Serve,
    Unpair,
    Reindex,
    Verify,
    Help,
    Version,
    /// None of these: the usage is an error message.
    Unknown,
}

/// The command that a word asks for.
pub open spec fn command_named(w: Seq<char>) -> Command {
    if w == "doctor"@ {
        Command::Doctor
    } else if w == "setup"@ {
        Command::Setup
    } else if w == "scan"@ {
        Command::Scan
    } else if w == "items"@ {
        Command::Items
    } else if w == "play"@ {
        Command::Play
    } else if w == "test"@ {
        Command::Test
    } else if w == "serve"@ {
        Command::Serve
    } else if w == "unpair"@ {
        Command::Unpair
    } else if w == "reindex"@ {
        Command::Reindex
    } else if w == "verify"@ {
        Command::Verify
    } else if w == "--help"@ || w == "-h"@ || w == "help"@ {
        Command::Help
    } else if w == "--version"@ || w == "-V"@ || w == "version"@ {
        Command::Version
    } else {
        Command::Unknown
    }
}

/// The command that the first argument asks for.
pub fn command(args: &[String]) -> (r: Command)
    ensures
        r == (if args@.len() > 0 {
            command_named(args@[0]@)
        } else {
            Command::Unknown
        }),
{
    if args.len() == 0 {
        return Command::Unknown;
    }
    let w = args[0].as_str();
    if same(w, "doctor") {
        Command::Doctor
    } else if same(w, "setup") {
        Command::Setup
    } else if same(w, "scan") {
        Command::Scan
    } else if same(w, "items") {
        Command::Items
    } else if same(w, "play") {
        Command::Play
    } else if same(w, "test") {
        Command::Test
    } else if same(w, "serve") {
        Command::Serve
    } else if same(w, "unpair") {
        Command::Unpair
    } else if same(w, "reindex") {
        Command::Reindex
    } else if same(w, "verify") {
        Command::Verify
    } else if same(w, "--help") || same(w, "-h") || same(w, "help") {
        Command::Help
    } else if same(w, "--version") || same(w, "-V") || same(w, "version") {
        Command::Version
    } else {
        Command::Unknown
    }
}

/// What is asked of a scan, and of the session that may follow it.
#[derive(Debug, Clone)]
pub struct Run {
    pub roots: Vec<String>,
    /// Whether each file's content is to be identified.
    pub identify: bool,
    pub scan: ScanOptions,
    pub play: PlayOptions,
    /// Where the machine-readable report is to be written.
    pub json: Option<String>,
}

/// A whole number given as an option's value: `None` when it is missing or is no such number.
pub open spec fn number_given(a: Seq<Seq<char>>, name: Seq<char>, max: nat) -> Option<nat> {
    match value_of(a, name) {
        Some(v) => parse_uint(v, max),
        None => None,
    }
}

fn number(args: &[String], name: &str, max: u64) -> (r: Option<u64>)
    ensures
        match r {
            Some(n) => number_given(views(args@), name@, max as nat) == Some(n as nat),
            None => number_given(views(args@), name@, max as nat) is None,
        },
        r is Some ==> r->0 <= max,
{
    match value(args, name) {
        Some(v) => parse_uint_text(v.as_str(), max),
        None => None,
    }
}

fn count(args: &[String], name: &str) -> (r: Option<usize>)
    ensures
        match r {
            Some(n) => number_given(views(args@), name@, usize::MAX as nat) == Some(n as nat),
            None => number_given(views(args@), name@, usize::MAX as nat) is None,
        },
{
    match number(args, name, usize::MAX as u64) {
        Some(n) => Some(n as usize),
        None => None,
    }
}

/// How many seconds of each file are to be played: what is asked for; else twenty where files are
/// only tested, and all of it otherwise.
pub open spec fn seconds_asked(cmd: Command, a: Seq<Seq<char>>) -> Option<nat> {
    match number_given(a, "--seconds"@, u64::MAX as nat) {
        Some(n) => Some(n),
        None => if cmd == Command::Test {
            Some(20)
        } else {
            None
        },
    }
}

/// Whether options are those that the arguments ask for.
pub open spec fn is_asked(r: Run, cmd: Command, a: Seq<Seq<char>>) -> bool {
    &&& views(r.roots@) == paths_given(a)
    &&& r.identify == has_flag(a, "--identify"@)
    &&& r.scan.include_samples == has_flag(a, "--include-samples"@)
    &&& match r.scan.limit {
        Some(n) => number_given(a, "--limit"@, usize::MAX as nat) == Some(n as nat),
        None => number_given(a, "--limit"@, usize::MAX as nat) is None,
    }
    &&& match r.scan.max_depth {
        Some(n) => number_given(a, "--depth"@, usize::MAX as nat) == Some(n as nat),
        None => number_given(a, "--depth"@, usize::MAX as nat) is None,
    }
    &&& match r.play.seconds_each {
        Some(n) => seconds_asked(cmd, a) == Some(n as nat),
        None => seconds_asked(cmd, a) is None,
    }
    &&& r.play.start_paused == has_flag(a, "--paused"@)
    &&& opt_view(r.play.vo) == value_of(a, "--vo"@)
    &&& r.play.hwdec@ == match value_of(a, "--hwdec"@) {
        Some(h) => h,
        None => "auto-safe"@,
    }
    &&& r.play.fullscreen == !has_flag(a, "--windowed"@)
    &&& r.play.shuffle == has_flag(a, "--shuffle"@)
    &&& views(r.play.extra_args@) == passed_on(a)
    &&& r.play.dry_run == has_flag(a, "--dry-run"@)
    &&& opt_view(r.json) == value_of(a, "--json"@)
}

/// The options of a command that scans, from the arguments after its name.
pub fn run_options(cmd: Command, args: &[String]) -> (r: Result<Run, String>)
    ensures
        match r {
            Ok(o) => paths_given(views(args@)).len() > 0 && is_asked(o, cmd, views(args@)),
            Err(e) => paths_given(views(args@)).len() == 0 && e@
                == "give me at least one file or folder to scan"@,
        },
{
    let roots = positional(args);
    assert(paths_given(views(args@)).len() == roots@.len());
    if roots.len() == 0 {
        return Err(owned("give me at least one file or folder to scan"));
    }
    let scan = ScanOptions {
        include_samples: flag(args, "--include-samples"),
        limit: count(args, "--limit"),
        max_depth: count(args, "--depth"),
    };
    let mut play = PlayOptions::new();
    play.seconds_each = match number(args, "--seconds", u64::MAX) {
        Some(n) => Some(n),
        None => if cmd == Command::Test {
            Some(20)
        } else {
            None
        },
    };
    play.start_paused = flag(args, "--paused");
    play.vo = value(args, "--vo");
    play.fullscreen = !flag(args, "--windowed");
    play.shuffle = flag(args, "--shuffle");
    play.extra_args = passthrough(args);
    play.dry_run = flag(args, "--dry-run");
    match value(args, "--hwdec") {
        Some(h) => {
            play.hwdec = h;
        },
        None => {},
    }
    Ok(
        Run {
            roots,
            identify: flag(args, "--identify"),
            scan,
            play,
            json: value(args, "--json"),
        },
    )
}

/// The first argument from `i` on that stands alone, where `--port` and `--bind` take a value.
pub open spec fn served_from(a: Seq<Seq<char>>, stop: int, i: int) -> Option<Seq<char>>
    decreases stop + 1 - i,
{
    if i < 0 || i >= stop || i >= a.len() {
        None
    } else if a[i] == "--port"@ || a[i] == "--bind"@ {
        served_from(a, stop, i + 2)
    } else if !"--"@.is_prefix_of(a[i]) {
        Some(a[i])
    } else {
        served_from(a, stop, i + 1)
    }
}

/// The library that is to be served: the first argument that stands alone.
pub fn serve_root(args: &[String]) -> (r: Result<String, String>)
    ensures
        match r {
            Ok(root) => served_from(views(args@), stop_of(views(args@)), 0) == Some(root@),
            Err(e) => served_from(views(args@), stop_of(views(args@)), 0) is None && e@
                == "usage: lumen serve <path> [--port <n>] [--bind <addr>]"@,
        },
{
    let ghost a = views(args@);
    let stop: usize = place(args, "--");
    let mut i: usize = 0;
    while i < stop
        invariant
            stop <= args@.len(),
            a == views(args@),
            stop == stop_of(a),
            served_from(a, stop as int, 0) == served_from(a, stop as int, i as int),
        decreases stop - i,
    {
        let w = args[i].as_str();
        if same(w, "--port") || same(w, "--bind") {
            if stop - i <= 2 {
                assert(served_from(a, stop as int, i + 2) is None);
                return Err(owned("usage: lumen serve <path> [--port <n>] [--bind <addr>]"));
            }
            i += 2;
        } else if !starts_with(w, "--") {
            return Ok(owned(w));
        } else {
            i += 1;
        }
    }
    Err(owned("usage: lumen serve <path> [--port <n>] [--bind <addr>]"))
}

/// The message on an option whose value is not what it must be.
pub open spec fn bad_value(must: Seq<char>, got: Seq<char>) -> Seq<char> {
    must + ", got "@ + debug_str(got)
}

fn bad_value_text(must: &str, got: &str) -> (r: String)
    ensures
        r@ == bad_value(must@, got@),
{
    let mut s = owned(must);
    s.append(", got ");
    s.append(debug_text(got).as_str());
    s
}

/// A number that an option must give when it is given at all.
pub open spec fn number_or(
    a: Seq<Seq<char>>,
    name: Seq<char>,
    max: nat,
    otherwise: nat,
    must: Seq<char>,
) -> Result<nat, Seq<char>> {
    match value_of(a, name) {
        None => Ok(otherwise),
        Some(v) => match parse_uint(v, max) {
            Some(n) => Ok(n),
            None => Err(bad_value(must, v)),
        },
    }
}

/// A number that an option gives, `otherwise` without it; an error where it gives no number.
fn checked_number(args: &[String], name: &str, max: u64, otherwise: u64, must: &str) -> (r: Result<
    u64,
    String,
>)
    requires
        otherwise <= max,
    ensures
        match r {
            Ok(n) => n <= max && number_or(
                views(args@),
                name@,
                max as nat,
                otherwise as nat,
                must@,
            ) == Ok::<nat, Seq<char>>(n as nat),
            Err(e) => number_or(views(args@), name@, max as nat, otherwise as nat, must@) == Err::<
                nat,
                Seq<char>,
            >(e@),
        },
{
    match value(args, name) {
        None => Ok(otherwise),
        Some(v) => match parse_uint_text(v.as_str(), max) {
            Some(n) => Ok(n),
            None => Err(bad_value_text(must, v.as_str())),
        },
    }
}

/// Where the server is to listen: port 7890 on every interface unless the options say otherwise.
pub fn serve_endpoint(args: &[String]) -> (r: Result<(u16, String), String>)
    ensures
        match r {
            Ok((port, bind)) => number_or(
                views(args@),
                "--port"@,
                u16::MAX as nat,
                7890,
                "--port must be a number"@,
            ) == Ok::<nat, Seq<char>>(port as nat) && bind@ == match value_of(
                views(args@),
                "--bind"@,
            ) {
                Some(b) => b,
                None => "0.0.0.0"@,
            },
            Err(e) => number_or(
                views(args@),
                "--port"@,
                u16::MAX as nat,
                7890,
                "--port must be a number"@,
            ) == Err::<nat, Seq<char>>(e@),
        },
{
    match checked_number(args, "--port", u16::MAX as u64, 7890, "--port must be a number") {
        Err(e) => Err(e),
        Ok(port) => {
            let bind = match value(args, "--bind") {
                Some(b) => b,
                None => owned("0.0.0.0"),
            };
            Ok((port as u16, bind))
        },
    }
}

/// What is asked about paired devices.
#[derive(Debug, Clone)]
pub enum Unpair {
    /// Revoke every device.
    All,
    /// List the devices.
    List,
    /// Revoke the devices whose token begins so.
    Matching(String),
}

/// The first argument from `i` on that is no option.
pub open spec fn plain_from(a: Seq<Seq<char>>, i: int) -> Option<Seq<char>>
    decreases a.len() - i,
{
    if i < 0 || i >= a.len() {
        None
    } else if !"--"@.is_prefix_of(a[i]) {
        Some(a[i])
    } else {
        plain_from(a, i + 1)
    }
}

/// The first argument that is no option.
pub fn first_plain(args: &[String]) -> (r: Option<String>)
    ensures
        opt_view(r) == plain_from(views(args@), 0),
{
    let ghost a = views(args@);
    let mut i: usize = 0;
    while i < args.len()
        invariant
            i <= args@.len(),
            a == views(args@),
            plain_from(a, 0) == plain_from(a, i as int),
        decreases args@.len() - i,
    {
        if !starts_with(args[i].as_str(), "--") {
            return Some(args[i].clone());
        }
        i += 1;
    }
    None
}

/// What is asked about paired devices: `--all` anywhere revokes every one; else the first argument
/// that is no option says which; without one they are listed.
pub fn unpair_asked(args: &[String]) -> (r: Unpair)
    ensures
        match r {
            Unpair::All => views(args@).contains("--all"@),
            Unpair::List => !views(args@).contains("--all"@) && plain_from(views(args@), 0) is None,
            Unpair::Matching(t) => !views(args@).contains("--all"@) && plain_from(views(args@), 0)
                == Some(t@),
        },
{
    let ghost a = views(args@);
    let at: usize = place(args, "--all");
    proof {
        place_is_first(a, "--all"@, 0);
    }
    if at < args.len() {
        assert(a[at as int] == "--all"@);
        return Unpair::All;
    }
    assert(!a.contains("--all"@)) by {
        if a.contains("--all"@) {
            let k = choose|k: int| 0 <= k < a.len() && a[k] == "--all"@;
            assert(a[k] != "--all"@);
        }
    }
    match first_plain(args) {
        Some(t) => Unpair::Matching(t),
        None => Unpair::List,
    }
}

/// The library whose index is meant, and where that index is kept.
pub open spec fn index_place(a: Seq<Seq<char>>, root: Seq<char>) -> Seq<char> {
    match value_of(a, "--index"@) {
        Some(db) => db,
        None => joined(root, ".lumen-index"@),
    }
}

/// Where a library's index is kept: what `--index` says, or below the library.
pub fn index_path(args: &[String], root: &str) -> (r: String)
    ensures
        r@ == index_place(views(args@), root@),
{
    match value(args, "--index") {
        Some(db) => db,
        None => crate::reindex::default_index_path(root),
    }
}

/// The library to index: the first argument that is no option.
pub fn reindex_root(args: &[String]) -> (r: Result<String, String>)
    ensures
        match r {
            Ok(root) => plain_from(views(args@), 0) == Some(root@),
            Err(e) => plain_from(views(args@), 0) is None && e@
                == "usage: lumen reindex <path> [--index <db>]"@,
        },
{
    match first_plain(args) {
        Some(root) => Ok(root),
        None => Err(owned("usage: lumen reindex <path> [--index <db>]")),
    }
}

/// The library to verify: the first argument that is no option.
pub fn verify_root(args: &[String]) -> (r: Result<String, String>)
    ensures
        match r {
            Ok(root) => plain_from(views(args@), 0) == Some(root@),
            Err(e) => plain_from(views(args@), 0) is None && e@
                == "usage: lumen verify <path> [--index <db>] [--reverify-days <n>] [--budget <bytes>]"@,
        },
{
    match first_plain(args) {
        Some(root) => Ok(root),
        None => Err(
            owned(
                "usage: lumen verify <path> [--index <db>] [--reverify-days <n>] [--budget <bytes>]",
            ),
        ),
    }
}

/// After how many days a file is checked again, as the arguments say.
pub open spec fn days_asked(a: Seq<Seq<char>>) -> Result<nat, Seq<char>> {
    number_or(
        a,
        "--reverify-days"@,
        u64::MAX as nat,
        DEFAULT_REVERIFY_DAYS as nat,
        "--reverify-days must be a number"@,
    )
}

/// How many bytes a run may read, as the arguments say.
pub open spec fn budget_asked(a: Seq<Seq<char>>) -> Result<nat, Seq<char>> {
    number_or(
        a,
        "--budget"@,
        u64::MAX as nat,
        DEFAULT_BUDGET_BYTES as nat,
        "--budget must be a number of bytes"@,
    )
}

/// After how many days a file is checked again, and how many bytes one run reads.
pub fn verify_limits(args: &[String]) -> (r: Result<(u64, u64), String>)
    ensures
        match r {
            Ok((days, budget)) => days_asked(views(args@)) == Ok::<nat, Seq<char>>(days as nat)
                && budget_asked(views(args@)) == Ok::<nat, Seq<char>>(budget as nat),
            Err(e) => match days_asked(views(args@)) {
                Err(m) => e@ == m,
                Ok(_) => budget_asked(views(args@)) == Err::<nat, Seq<char>>(e@),
            },
        },
{
    let days: u64 = match checked_number(
        args,
        "--reverify-days",
        u64::MAX,
        DEFAULT_REVERIFY_DAYS,
        "--reverify-days must be a number",
    ) {
        Ok(n) => n,
        Err(e) => return Err(e),
    };
    match checked_number(
        args,
        "--budget",
        u64::MAX,
        DEFAULT_BUDGET_BYTES,
        "--budget must be a number of bytes",
    ) {
        Ok(budget) => Ok((days, budget)),
        Err(e) => Err(e),
    }
}

/// The message on a path that does not exist.
pub fn missing_root(root: &str) -> (r: String)
    ensures
        r@ == root@ + " does not exist"@,
{
    let mut s = owned(root);
    s.append(" does not exist");
    s
}

/// The help text.
pub const USAGE: &'static str =
    "lumen — media library player and test harness

  lumen doctor                        check mpv and this machine's decoding support
  lumen setup                         fetch mpv into this folder (Windows), or explain how
  lumen scan  <paths...>              walk the library and report what is there
  lumen items <paths...>              the collection, grouped into films and seasons
  lumen play  <paths...>              play everything found
  lumen test  <paths...>              open every file briefly and report which fail
  lumen serve <path>                  run a persistent player a phone can pair with and control
  lumen unpair [<token>] [--all]      list, or revoke, devices previously paired with `serve`
  lumen reindex <path> [--index <db>] persist an incremental library index; re-probes only what changed
  lumen verify  <path> [--index <db>] re-check indexed files' bytes against their last confirmed digest

Options
  --seconds <n>       play only n seconds of each file (default 20 for `test`)
  --limit <n>         stop after n playable files
  --depth <n>         maximum directory depth
  --identify          compute a content identity per file and report duplicates
  --include-samples   keep files that look like sample clips
  --shuffle           play in random order
  --windowed          do not go fullscreen
  --paused            start paused
  --vo <name>         video output (default gpu-next)
  --hwdec <mode>      hardware decoding (default auto-safe)
  --dry-run           print the mpv command and playlist, launch nothing
  --json <path>       write the machine-readable report here
  --                  everything after this is passed to mpv verbatim

`serve` options
  --port <n>          TCP port to listen on (default 7890)
  --bind <addr>       address to bind (default 0.0.0.0 — every interface)

`unpair` — with no arguments, lists every currently-paired device (by a short prefix, never the
full token). With one, revokes whichever token starts with it — the whole token, or the prefix
`unpair` just showed you. `--all` revokes every paired device at once. The server does not need to
be running; this edits the same token file `serve` reads on its next start.

`reindex` — a persistent alternative to `scan`: the first run probes everything and writes an index
file (default `<path>/.lumen-index`, override with `--index`); every run after that re-probes only
files whose size or modified time actually changed, recognises a renamed-but-identical file as moved
rather than lost, and keeps a tombstoned record for a file that temporarily disappears rather than
forgetting it outright. Safe to interrupt and re-run at any time — nothing is left half-written.

`verify` options
  --reverify-days <n> re-check an already-confirmed file at most this often (default 30; a large
                       file comes due sooner than this on its own — see below)
  --budget <bytes>     stop after reading roughly this many bytes this run (default 8 GiB)

`verify` — re-reads indexed files' actual bytes and compares them to the digest recorded the last
time they were checked, catching corruption a size/mtime check can't: bit rot, a failed write, a bad
sector. Never overprints a mismatch as newly fine — a confirmed-good file that later disagrees stays
flagged, and is re-checked before anything else, until a later pass finds it matching again or
`reindex` sees the file legitimately change. Prioritised, not a flat oldest-first queue: an
unresolved mismatch first, then a file that has never been verified at all, then one `reindex` itself
already flagged as worth a look, then everything else due — oldest-confirmed-first, with a bigger
file coming due sooner than a small one on the same interval. Bounded by `--budget` per run, so a
library too large to verify in one sitting is covered by repeated invocations (a scheduled task, same
as `serve`'s own) rather than one run that never ends. Exits 1 if a mismatch or a read failure was
found this run, 0 otherwise, so a script can act on the difference.

Other
  --help              this text
  --version           version and target platform

Exit codes: 0 all played, 1 at least one file failed, 2 usage or setup error.";

proof fn found_behind(pre: Seq<Seq<char>>, name: Seq<char>, rest: Seq<Seq<char>>, i: int)
    requires
        !pre.contains(name),
        0 <= i <= pre.len(),
    ensures
        place_from(pre.push(name) + rest, name, i) == pre.len(),
    decreases pre.len() - i,
{
    let a = pre.push(name) + rest;
    if i < pre.len() {
        assert(a[i] == pre[i]);
        assert(pre.contains(pre[i]));
        found_behind(pre, name, rest, i + 1);
    }
}

/// The value of an option is what follows its first mention, whatever stands before and after; an
/// option that is not mentioned has none.
pub proof fn values_follow_their_option(
    pre: Seq<Seq<char>>,
    name: Seq<char>,
    v: Seq<char>,
    rest: Seq<Seq<char>>,
)
    requires
        !pre.contains(name),
        !pre.contains("--"@),
        name != "--"@,
    ensures
        value_of(pre.push(name).push(v) + rest, name) == Some(v),
        value_of(pre, name) is None,
        value_of(pre.push(name), name) is None,
{
    let tail = seq![v] + rest;
    let a = pre.push(name).push(v) + rest;
    assert(a =~= pre.push(name) + tail);
    found_behind(pre, name, tail, 0);
    place_is_first(a, "--"@, 0);
    let stop = stop_of(a);
    if stop <= pre.len() {
        if stop < pre.len() {
            assert(pre[stop] == a[stop]);
            assert(pre.contains("--"@));
        } else {
            assert(a[stop] == name);
        }
    }
    assert(a[pre.len() as int + 1] == v);
    place_is_first(pre, name, 0);
    place_is_first(pre, "--"@, 0);
    let at = place_from(pre, name, 0);
    if at < pre.len() {
        assert(pre.contains(pre[at]));
    }
    let b = pre.push(name);
    found_behind(pre, name, Seq::empty(), 0);
    assert(b + Seq::<Seq<char>>::empty() =~= b);
}

/// A switch is on exactly where it is given before a bare `--`.
pub proof fn switches_are_given(a: Seq<Seq<char>>, name: Seq<char>)
    requires
        !a.contains("--"@),
    ensures
        has_flag(a, name) <==> a.contains(name),
{
    place_is_first(a, "--"@, 0);
    if stop_of(a) < a.len() {
        assert(a.contains(a[stop_of(a)]));
    }
}

proof fn plain_words_stand_alone(a: Seq<Seq<char>>, i: int)
    requires
        0 <= i <= a.len(),
        forall|k: int| 0 <= k < a.len() ==> !"--"@.is_prefix_of(#[trigger] a[k]),
    ensures
        alone_from(a, a.len() as int, i) == a.skip(i),
    decreases a.len() - i,
{
    if i < a.len() {
        plain_words_stand_alone(a, i + 1);
        options_begin_with_hyphens(a[i]);
        assert(!"--"@.is_prefix_of(a[i]));
        assert(a.skip(i) =~= seq![a[i]] + a.skip(i + 1));
    } else {
        assert(a.skip(i) =~= Seq::empty());
    }
}

proof fn options_begin_with_hyphens(w: Seq<char>)
    ensures
        takes_value(w) ==> "--"@.is_prefix_of(w),
        "--"@.is_prefix_of("--"@),
{
    reveal_strlit("--");
    reveal_strlit("--seconds");
    reveal_strlit("--limit");
    reveal_strlit("--depth");
    reveal_strlit("--vo");
    reveal_strlit("--hwdec");
    reveal_strlit("--json");
    if takes_value(w) {
        assert("--"@ =~= w.subrange(0, 2));
    }
    assert("--"@ =~= "--"@.subrange(0, 2));
}

/// Words that are no options are all taken for paths, in order.
pub proof fn plain_words_are_paths(a: Seq<Seq<char>>)
    requires
        forall|k: int| 0 <= k < a.len() ==> !"--"@.is_prefix_of(#[trigger] a[k]),
    ensures
        paths_given(a) == a,
        a.len() > 0 ==> plain_from(a, 0) == Some(a[0]),
        a.len() > 0 ==> served_from(a, stop_of(a), 0) == Some(a[0]),
{
    place_is_first(a, "--"@, 0);
    options_begin_with_hyphens("--"@);
    if stop_of(a) < a.len() {
        assert("--"@.is_prefix_of(a[stop_of(a)]));
    }
    plain_words_stand_alone(a, 0);
    assert(a.skip(0) =~= a);
    if a.len() > 0 {
        assert(!"--"@.is_prefix_of(a[0]));
        reveal_strlit("--");
        reveal_strlit("--port");
        reveal_strlit("--bind");
        assert("--"@ =~= "--port"@.subrange(0, 2));
        assert("--"@ =~= "--bind"@.subrange(0, 2));
    }
}

/// The numbers that are given for the options that take one are those that count.
pub proof fn numbers_given_count(
    r: Run,
    cmd: Command,
    pre: Seq<Seq<char>>,
    n: usize,
    rest: Seq<Seq<char>>,
)
    requires
        !pre.contains("--"@),
    ensures
        !pre.contains("--limit"@) && is_asked(
            r,
            cmd,
            pre.push("--limit"@).push(dec(n as nat)) + rest,
        ) ==> r.scan.limit == Some(n),
        !pre.contains("--depth"@) && is_asked(
            r,
            cmd,
            pre.push("--depth"@).push(dec(n as nat)) + rest,
        ) ==> r.scan.max_depth == Some(n),
        !pre.contains("--seconds"@) && is_asked(
            r,
            cmd,
            pre.push("--seconds"@).push(dec(n as nat)) + rest,
        ) ==> r.play.seconds_each == Some(n as u64),
        !pre.contains("--seconds"@) && is_asked(r, cmd, pre) ==> r.play.seconds_each == (if cmd
            == Command::Test {
            Some(20u64)
        } else {
            None
        }),
{
    reveal_strlit("--");
    reveal_strlit("--limit");
    reveal_strlit("--depth");
    reveal_strlit("--seconds");
    assert("--"@.len() == 2 && "--limit"@.len() == 7 && "--depth"@.len() == 7 && "--seconds"@.len()
        == 9);
    numerals_read_back(n as nat, usize::MAX as nat);
    numerals_read_back(n as nat, u64::MAX as nat);
    if !pre.contains("--limit"@) {
        values_follow_their_option(pre, "--limit"@, dec(n as nat), rest);
    }
    if !pre.contains("--depth"@) {
        values_follow_their_option(pre, "--depth"@, dec(n as nat), rest);
    }
    if !pre.contains("--seconds"@) {
        values_follow_their_option(pre, "--seconds"@, dec(n as nat), rest);
    }
}

/// Each switch sets its own option, and a player fills the screen unless a window is asked for.
pub proof fn switches_set_their_own(r: Run, cmd: Command, a: Seq<Seq<char>>)
    requires
        is_asked(r, cmd, a),
        !a.contains("--"@),
    ensures
        r.play.fullscreen <==> !a.contains("--windowed"@),
        r.play.shuffle <==> a.contains("--shuffle"@),
        r.play.start_paused <==> a.contains("--paused"@),
        r.play.dry_run <==> a.contains("--dry-run"@),
        r.scan.include_samples <==> a.contains("--include-samples"@),
        r.identify <==> a.contains("--identify"@),
{
    switches_are_given(a, "--windowed"@);
    switches_are_given(a, "--shuffle"@);
    switches_are_given(a, "--paused"@);
    switches_are_given(a, "--dry-run"@);
    switches_are_given(a, "--include-samples"@);
    switches_are_given(a, "--identify"@);
}

/// A number that an option must give is the one that is given, or the usual one where the option is
/// not; anything else that is given is an error that shows it.
pub proof fn given_numbers_are_checked(
    pre: Seq<Seq<char>>,
    name: Seq<char>,
    v: Seq<char>,
    n: nat,
    rest: Seq<Seq<char>>,
    max: nat,
    otherwise: nat,
    must: Seq<char>,
)
    requires
        !pre.contains(name),
        !pre.contains("--"@),
        name != "--"@,
    ensures
        n <= max ==> number_or(
            pre.push(name).push(dec(n)) + rest,
            name,
            max,
            otherwise,
            must,
        ) == Ok::<nat, Seq<char>>(n),
        number_or(pre, name, max, otherwise, must) == Ok::<nat, Seq<char>>(otherwise),
        n > max ==> number_or(pre.push(name).push(dec(n)) + rest, name, max, otherwise, must) is Err,
        v.len() == 0 ==> number_or(
            pre.push(name).push(v) + rest,
            name,
            max,
            otherwise,
            must,
        ) is Err,
{
    values_follow_their_option(pre, name, dec(n), rest);
    values_follow_their_option(pre, name, v, rest);
    if n <= max {
        numerals_read_back(n, max);
    } else {
        crate::json_writer::dec_value(n);
        crate::json_writer::dec_is_digits(n);
        assert(crate::text::is_digit(dec(n)[0]));
    }
}

/// Each command is asked for by its own word and no other.
pub proof fn commands_go_by_their_words(w: Seq<char>)
    ensures
        command_named(w) == Command::Play <==> w == "play"@,
        command_named(w) == Command::Test <==> w == "test"@,
        command_named(w) == Command::Scan <==> w == "scan"@,
        command_named(w) == Command::Items <==> w == "items"@,
        command_named(w) == Command::Serve <==> w == "serve"@,
        command_named(w) == Command::Doctor <==> w == "doctor"@,
        command_named(w) == Command::Setup <==> w == "setup"@,
        command_named(w) == Command::Unpair <==> w == "unpair"@,
        command_named(w) == Command::Reindex <==> w == "reindex"@,
        command_named(w) == Command::Verify <==> w == "verify"@,
        command_named("help"@) == Command::Help,
        command_named("version"@) == Command::Version,
{
    reveal_strlit("doctor");
    reveal_strlit("setup");
    reveal_strlit("scan");
    reveal_strlit("items");
    reveal_strlit("play");
    reveal_strlit("test");
    reveal_strlit("serve");
    reveal_strlit("unpair");
    reveal_strlit("reindex");
    reveal_strlit("verify");
    reveal_strlit("--help");
    reveal_strlit("-h");
    reveal_strlit("help");
    reveal_strlit("version");
    assert("doctor"@.len() == 6 && "doctor"@[0] == 'd' && "setup"@.len() == 5 && "setup"@[2] == 't');
    assert("scan"@.len() == 4 && "scan"@[0] == 's' && "items"@.len() == 5 && "items"@[0] == 'i');
    assert("play"@.len() == 4 && "play"@[0] == 'p' && "test"@.len() == 4 && "test"@[0] == 't');
    assert("serve"@.len() == 5 && "serve"@[0] == 's' && "serve"@[2] == 'r');
    assert("unpair"@.len() == 6 && "unpair"@[0] == 'u');
    assert("reindex"@.len() == 7 && "reindex"@[0] == 'r');
    assert("verify"@.len() == 6 && "verify"@[0] == 'v' && "version"@.len() == 7 && "version"@[0]
        == 'v');
    assert("help"@.len() == 4 && "help"@[0] == 'h' && "--help"@.len() == 6 && "-h"@.len() == 2);
}

/// A trial runs for twenty seconds a file unless told otherwise, nothing else stops by itself; a check
/// comes after thirty days and reads eight gibibytes; the index is where it is said to be, or below
/// the library.
pub proof fn what_is_not_said_is_as_usual(
    cmd: Command,
    pre: Seq<Seq<char>>,
    n: nat,
    rest: Seq<Seq<char>>,
    db: Seq<char>,
    root: Seq<char>,
)
    requires
        !pre.contains("--"@),
        n <= u64::MAX,
    ensures
        !pre.contains("--seconds"@) ==> seconds_asked(cmd, pre) == (if cmd == Command::Test {
            Some(20nat)
        } else {
            None
        }) && seconds_asked(cmd, pre.push("--seconds"@).push(dec(n)) + rest) == Some(n),
        !pre.contains("--reverify-days"@) ==> days_asked(pre) == Ok::<nat, Seq<char>>(30)
            && days_asked(pre.push("--reverify-days"@).push(dec(n)) + rest) == Ok::<
            nat,
            Seq<char>,
        >(n),
        !pre.contains("--budget"@) ==> budget_asked(pre) == Ok::<nat, Seq<char>>(
            8 * 1024 * 1024 * 1024,
        ) && budget_asked(pre.push("--budget"@).push(dec(n)) + rest) == Ok::<nat, Seq<char>>(n),
        !pre.contains("--index"@) ==> index_place(pre, root) == joined(root, ".lumen-index"@)
            && index_place(pre.push("--index"@).push(db) + rest, root) == db,
{
    reveal_strlit("--");
    reveal_strlit("--seconds");
    reveal_strlit("--reverify-days");
    reveal_strlit("--budget");
    reveal_strlit("--index");
    assert("--"@.len() == 2 && "--seconds"@.len() == 9 && "--reverify-days"@.len() == 15);
    assert("--budget"@.len() == 8 && "--index"@.len() == 7);
    numerals_read_back(n, u64::MAX as nat);
    if !pre.contains("--seconds"@) {
        values_follow_their_option(pre, "--seconds"@, dec(n), rest);
    }
    if !pre.contains("--reverify-days"@) {
        values_follow_their_option(pre, "--reverify-days"@, dec(n), rest);
    }
    if !pre.contains("--budget"@) {
        values_follow_their_option(pre, "--budget"@, dec(n), rest);
    }
    if !pre.contains("--index"@) {
        values_follow_their_option(pre, "--index"@, db, rest);
    }
}

/// A value that an option takes reaches what the option is for: the record's place, the video output
/// and the decoder. Without them there is no record, the player's own output, and a decoder that is
/// safe.
pub proof fn values_reach_what_they_are_for(
    r: Run,
    cmd: Command,
    pre: Seq<Seq<char>>,
    v: Seq<char>,
    rest: Seq<Seq<char>>,
)
    requires
        !pre.contains("--"@),
    ensures
        !pre.contains("--json"@) && is_asked(r, cmd, pre.push("--json"@).push(v) + rest)
            ==> opt_view(r.json) == Some(v),
        !pre.contains("--vo"@) && is_asked(r, cmd, pre.push("--vo"@).push(v) + rest) ==> opt_view(
            r.play.vo,
        ) == Some(v),
        !pre.contains("--hwdec"@) && is_asked(r, cmd, pre.push("--hwdec"@).push(v) + rest)
            ==> r.play.hwdec@ == v,
        !pre.contains("--json"@) && is_asked(r, cmd, pre) ==> r.json is None,
        !pre.contains("--vo"@) && is_asked(r, cmd, pre) ==> r.play.vo is None,
        !pre.contains("--hwdec"@) && is_asked(r, cmd, pre) ==> r.play.hwdec@ == "auto-safe"@,
{
    reveal_strlit("--");
    reveal_strlit("--json");
    reveal_strlit("--vo");
    reveal_strlit("--hwdec");
    assert("--"@.len() == 2 && "--json"@.len() == 6 && "--vo"@.len() == 4 && "--hwdec"@.len() == 7);
    if !pre.contains("--json"@) {
        values_follow_their_option(pre, "--json"@, v, rest);
    }
    if !pre.contains("--vo"@) {
        values_follow_their_option(pre, "--vo"@, v, rest);
    }
    if !pre.contains("--hwdec"@) {
        values_follow_their_option(pre, "--hwdec"@, v, rest);
    }
}

} // verus!
