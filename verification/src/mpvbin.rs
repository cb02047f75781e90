//! Finding mpv.
//!
//! A player that someone put beside this program was chosen: it comes before whatever else is
//! installed.
use vstd::prelude::*;
use vstd::string::*;

use crate::machine::Machine;
use crate::text::{
    chars_of,
    is_space,
    lines,
    lines_of,
    opt_str_view,
    opt_view,
    owned,
    same,
    slice_text,
    space,
    trim,
    trim_text,
    views,
};

verus! {

/// The executable's name.
pub const MPV_EXE: &'static str = "mpv";

/// The executable's name on Windows.
pub const MPV_EXE_WINDOWS: &'static str = "mpv.exe";

/// The executable's name on a machine.
pub open spec fn exe_on(m: Machine) -> Seq<char> {
    match m {
        Machine::Unix => "mpv"@,
        Machine::Windows { .. } => "mpv.exe"@,
    }
}

/// The executable's name on a machine.
pub fn exe_name(machine: &Machine) -> (r: &'static str)
    ensures
        r@ == exe_on(*machine),
{
    match machine {
        Machine::Unix => "mpv",
        Machine::Windows { .. } => "mpv.exe",
    }
}

/// The places beside this program.
pub open spec fn bundled(m: Machine, dir: Seq<char>) -> Seq<Seq<char>> {
    seq![
        m.inside(dir, exe_on(m)),
        m.below(dir, seq!["mpv"@, exe_on(m)]),
        m.below(dir, seq!["mpv"@, "bin"@, exe_on(m)]),
    ]
}

/// The places below the directories that programs are installed in.
pub open spec fn installed(m: Machine, bases: Seq<Seq<char>>) -> Seq<Seq<char>>
    decreases bases.len(),
{
    if bases.len() == 0 {
        Seq::empty()
    } else {
        installed(m, bases.drop_last()) + seq![
            m.below(bases.last(), seq!["Programs"@, "mpv"@, exe_on(m)]),
            m.below(bases.last(), seq!["mpv"@, exe_on(m)]),
            m.below(bases.last(), seq!["mpv.net"@, exe_on(m)]),
        ]
    }
}

/// The places that package managers use in a home directory.
pub open spec fn packaged(m: Machine, home: Seq<char>) -> Seq<Seq<char>> {
    seq![
        m.below(m.below(home, seq!["scoop"@, "apps"@, "mpv"@]), seq!["current"@, exe_on(m)]),
        m.below(home, seq!["scoop"@, "shims"@, exe_on(m)]),
    ]
}

/// Where the machine normally keeps the program.
pub open spec fn usual(m: Machine, home: Option<Seq<char>>) -> Seq<Seq<char>> {
    match m {
        Machine::Unix => seq![
            "/usr/local/bin/mpv"@,
            "/usr/bin/mpv"@,
            "/snap/bin/mpv"@,
        ],
        Machine::Windows { bases } => installed(m, views(bases@)) + (match home {
            Some(h) => packaged(m, h),
            None => Seq::empty(),
        }) + seq!["C:\\ProgramData\\chocolatey\\bin\\mpv.exe"@],
    }
}

/// Where to look, in order: what is said explicitly, then beside this program, then where the
/// machine normally keeps it.
pub open spec fn places(
    over: Option<Seq<char>>,
    exe_dir: Option<Seq<char>>,
    home: Option<Seq<char>>,
    m: Machine,
) -> Seq<Seq<char>> {
    (match over {
        Some(p) => seq![p],
        None => Seq::empty(),
    }) + (match exe_dir {
        Some(d) => bundled(m, d),
        None => Seq::empty(),
    }) + usual(m, home)
}

/// Where to look, in order.
pub fn candidates(
    override_path: Option<&str>,
    exe_dir: Option<&str>,
    home: Option<&str>,
    machine: &Machine,
) -> (r: Vec<String>)
    ensures
        views(r@) == places(
            opt_str_view(override_path),
            opt_str_view(exe_dir),
            opt_str_view(home),
            *machine,
        ),
{
    let mut out: Vec<String> = Vec::new();
    let exe = exe_name(machine);
    match override_path {
        Some(p) => {
            out.push(owned(p));
        },
        None => {},
    }
    let ghost first = match override_path {
        Some(p) => seq![p@],
        None => Seq::<Seq<char>>::empty(),
    };
    assert(views(out@) =~= first);
    match exe_dir {
        Some(dir) => {
            out.push(machine.enter(dir, exe));
            out.push(machine.enter2(dir, "mpv", exe));
            out.push(machine.enter3(dir, "mpv", "bin", exe));
            assert(views(out@) =~= first + bundled(*machine, dir@));
        },
        None => {},
    }
    let ghost beside = first + match exe_dir {
        Some(dir) => bundled(*machine, dir@),
        None => Seq::<Seq<char>>::empty(),
    };
    assert(views(out@) =~= beside);
    match machine {
        Machine::Unix => {
            out.push(owned("/usr/local/bin/mpv"));
            out.push(owned("/usr/bin/mpv"));
            out.push(owned("/snap/bin/mpv"));
            assert(views(out@) =~= beside + usual(*machine, opt_str_view(home)));
        },
        Machine::Windows { bases } => {
            let ghost all = views(bases@);
            let mut i: usize = 0;
            assert(all.take(0) =~= Seq::<Seq<char>>::empty());
            assert(beside + installed(*machine, all.take(0)) =~= beside);
            while i < bases.len()
                invariant
                    i <= bases@.len(),
                    exe@ == exe_on(*machine),
                    all == views(bases@),
                    views(out@) == beside + installed(*machine, all.take(i as int)),
                decreases bases@.len() - i,
            {
                let base = bases[i].as_str();
                let ghost had = views(out@);
                proof {
                    assert(all.take(i as int + 1).drop_last() =~= all.take(i as int));
                    assert(all.take(i as int + 1).last() == base@);
                }
                out.push(machine.enter3(base, "Programs", "mpv", exe));
                out.push(machine.enter2(base, "mpv", exe));
                out.push(machine.enter2(base, "mpv.net", exe));
                let ghost more = installed(*machine, all.take(i as int + 1));
                assert(more.len() == installed(*machine, all.take(i as int)).len() + 3);
                assert(views(out@) =~= had + seq![
                    machine.below(base@, seq!["Programs"@, "mpv"@, exe@]),
                    machine.below(base@, seq!["mpv"@, exe@]),
                    machine.below(base@, seq!["mpv.net"@, exe@]),
                ]);
                assert(views(out@) =~= beside + more);
                i += 1;
            }
            assert(all.take(i as int) =~= all);
            let ghost had = views(out@);
            match home {
                Some(h) => {
                    let apps = machine.enter3(h, "scoop", "apps", "mpv");
                    out.push(machine.enter2(apps.as_str(), "current", exe));
                    out.push(machine.enter3(h, "scoop", "shims", exe));
                    assert(views(out@) =~= had + packaged(*machine, h@));
                },
                None => {
                    assert(views(out@) =~= had + Seq::<Seq<char>>::empty());
                },
            }
            let ghost known = views(out@);
            let ghost kept = match home {
                Some(h) => packaged(*machine, h@),
                None => Seq::<Seq<char>>::empty(),
            };
            assert(known == beside + installed(*machine, all) + kept);
            out.push(owned("C:\\ProgramData\\chocolatey\\bin\\mpv.exe"));
            let ghost last = views(out@).last();
            assert(views(out@) =~= known + seq![last]);
            assert(usual(*machine, opt_str_view(home)) =~= installed(*machine, all) + kept + seq![
                last,
            ]);
            assert(views(out@) =~= beside + usual(*machine, opt_str_view(home)));
        },
    }
    out
}

/// What is said explicitly comes first; what stands beside this program comes before what is
/// installed; and there is always somewhere to look.
pub proof fn nearer_comes_first(
    over: Option<Seq<char>>,
    exe_dir: Option<Seq<char>>,
    home: Option<Seq<char>>,
    m: Machine,
)
    ensures
        places(over, exe_dir, home, m).len() > 0,
        over is Some ==> places(over, exe_dir, home, m)[0] == over->0,
        exe_dir is Some ==> {
            let at = if over is Some {
                1int
            } else {
                0
            };
            let p = places(over, exe_dir, home, m);
            &&& p.subrange(at, at + 3) == bundled(m, exe_dir->0)
            &&& p.skip(at + 3) == usual(m, home)
        },
{
    let p = places(over, exe_dir, home, m);
    assert(usual(m, home).len() > 0);
    if exe_dir is Some {
        let at = if over is Some {
            1int
        } else {
            0
        };
        assert(p.subrange(at, at + 3) =~= bundled(m, exe_dir->0));
        assert(p.skip(at + 3) =~= usual(m, home));
    }
}

/// What to say to someone who has no mpv.
pub open spec fn hint_on(windows: bool) -> Seq<char> {
    if windows {
        "mpv was not found.

Easiest fix — let this program fetch it:
    lumen setup

Or do it by hand, which always works:
    1. Download a Windows build from https://mpv.io/installation/
       (the shinchiro builds; take the x86_64 one)
    2. Extract it and copy mpv.exe into this folder, beside lumen.exe.

Or install it system-wide:
    winget install mpv.net

Or point at a copy you already have, without moving anything:
    set LUMEN_MPV=D:\\path\\to\\mpv.exe"@
    } else {
        "mpv was not found. Install it with one of:
    apt install mpv      dnf install mpv      pacman -S mpv      zypper install mpv

Or point at a copy you already have:
    export LUMEN_MPV=/path/to/mpv"@
    }
}

/// What to say to someone who has no mpv.
pub fn install_hint(windows: bool) -> (r: &'static str)
    ensures
        r@ == hint_on(windows),
{
    if windows {
        "mpv was not found.

Easiest fix — let this program fetch it:
    lumen setup

Or do it by hand, which always works:
    1. Download a Windows build from https://mpv.io/installation/
       (the shinchiro builds; take the x86_64 one)
    2. Extract it and copy mpv.exe into this folder, beside lumen.exe.

Or install it system-wide:
    winget install mpv.net

Or point at a copy you already have, without moving anything:
    set LUMEN_MPV=D:\\path\\to\\mpv.exe"
    } else {
        "mpv was not found. Install it with one of:
    apt install mpv      dnf install mpv      pacman -S mpv      zypper install mpv

Or point at a copy you already have:
    export LUMEN_MPV=/path/to/mpv"
    }
}

/// The first word of a line; nothing where the line holds none.
pub open spec fn word_from(s: Seq<char>, i: int) -> Seq<char>
    decreases s.len() - i,
{
    if i < 0 || i >= s.len() || is_space(s[i]) {
        Seq::empty()
    } else {
        seq![s[i]] + word_from(s, i + 1)
    }
}

/// The first word of a line; nothing where the line holds none.
pub open spec fn first_word(line: Seq<char>) -> Seq<char> {
    word_from(trim(line), 0)
}

proof fn word_end(s: Seq<char>, i: int, end: int)
    requires
        0 <= i <= end <= s.len(),
        forall|k: int| i <= k < end ==> !is_space(s[k]),
        end == s.len() || is_space(s[end]),
    ensures
        word_from(s, i) == s.subrange(i, end),
    decreases end - i,
{
    if i < end {
        word_end(s, i + 1, end);
        assert(s.subrange(i, end) =~= seq![s[i]] + s.subrange(i + 1, end));
    } else {
        assert(s.subrange(i, end) =~= Seq::<char>::empty());
    }
}

fn first_word_of(line: &str) -> (r: String)
    ensures
        r@ == first_word(line@),
{
    let t = chars_of(trim_text(line).as_str());
    let mut i: usize = 0;
    while i < t.len() && !space(t[i])
        invariant
            i <= t@.len(),
            forall|k: int| 0 <= k < i ==> !is_space(t@[k]),
        decreases t@.len() - i,
    {
        i += 1;
    }
    proof {
        word_end(t@, 0, i as int);
    }
    slice_text(&t, 0, i)
}

/// The names that the first `n` lines list after a header line: the first word of each, without
/// options, each name once.
pub open spec fn names_listed(l: Seq<Seq<char>>, n: nat) -> Seq<Seq<char>>
    decreases n,
{
    if n <= 1 || n > l.len() {
        Seq::empty()
    } else {
        let rest = names_listed(l, (n - 1) as nat);
        let w = first_word(l[n - 1]);
        if w.len() > 0 && w[0] != '-' && !rest.contains(w) {
            rest.push(w)
        } else {
            rest
        }
    }
}

/// The names in what the player lists, such as video outputs: the first word of each line but the
/// header, each once, in order.
pub fn parse_list(raw: &str) -> (r: Vec<String>)
    ensures
        views(r@) == names_listed(lines(raw@), lines(raw@).len()),
{
    let all = lines_of(raw);
    let ghost l = lines(raw@);
    let mut out: Vec<String> = Vec::new();
    let total: usize = all.len();
    assert(l.len() == total);
    assert(views(out@) =~= Seq::<Seq<char>>::empty());
    if total == 0 {
        return out;
    }
    let mut i: usize = 1;
    while i < total
        invariant
            1 <= i <= total,
            total == all@.len(),
            l == views(all@),
            views(out@) == names_listed(l, i as nat),
        decreases total - i,
    {
        let w = first_word_of(all[i].as_str());
        let ghost had = views(out@);
        let wanted = w.as_str().unicode_len() > 0 && w.as_str().get_char(0) != '-';
        if wanted && !holds(&out, w.as_str()) {
            let ghost name = w@;
            out.push(w);
            assert(views(out@) =~= had.push(name));
        }
        i += 1;
    }
    out
}

fn holds(list: &Vec<String>, name: &str) -> (r: bool)
    ensures
        r == views(list@).contains(name@),
{
    let mut i: usize = 0;
    while i < list.len()
        invariant
            i <= list@.len(),
            forall|k: int| 0 <= k < i ==> views(list@)[k] != name@,
        decreases list@.len() - i,
    {
        if same(list[i].as_str(), name) {
            assert(views(list@)[i as int] == name@);
            return true;
        }
        i += 1;
    }
    false
}

proof fn prefix_lists(l: Seq<Seq<char>>, n: nat)
    requires
        n <= l.len(),
    ensures
        names_listed(l, n).no_duplicates(),
        forall|i: int|
            0 <= i < names_listed(l, n).len() ==> (#[trigger] names_listed(l, n)[i]).len() > 0
                && names_listed(l, n)[i][0] != '-',
    decreases n,
{
    if n > 1 {
        prefix_lists(l, (n - 1) as nat);
    }
}

/// A listed name is listed once, is not empty, and is no option.
pub proof fn names_are_listed_once(raw: Seq<char>)
    ensures
        names_listed(lines(raw), lines(raw).len()).no_duplicates(),
        forall|i: int|
            0 <= i < names_listed(lines(raw), lines(raw).len()).len() ==> (
            #[trigger] names_listed(lines(raw), lines(raw).len())[i]).len() > 0 && names_listed(
                lines(raw),
                lines(raw).len(),
            )[i][0] != '-',
{
    prefix_lists(lines(raw), lines(raw).len());
}

/// The version that the player reports: its first line, trimmed; `None` when that is empty.
pub fn version_line(stdout: &str) -> (r: Option<String>)
    ensures
        opt_view(r) == (if lines(stdout@).len() > 0 && trim(lines(stdout@)[0]).len() > 0 {
            Some(trim(lines(stdout@)[0]))
        } else {
            None
        }),
{
    let all = lines_of(stdout);
    assert(lines(stdout@).len() == all@.len());
    if all.len() == 0 {
        return None;
    }
    let first = trim_text(all[0].as_str());
    if first.as_str().unicode_len() > 0 {
        Some(first)
    } else {
        None
    }
}

/// Whether a text is one word: not empty, and without white space.
pub open spec fn is_word(w: Seq<char>) -> bool {
    w.len() > 0 && forall|i: int| 0 <= i < w.len() ==> !is_space(#[trigger] w[i])
}

/// The first word of a line is what stands before the first white space after the blanks that the line
/// begins with; a line that is one word is that word.
pub proof fn the_first_word_leads(blank: Seq<char>, w: Seq<char>, rest: Seq<char>)
    requires
        crate::text::is_blank(blank),
        is_word(w),
        rest.len() > 0,
        !is_space(rest.last()),
    ensures
        first_word(blank + (w.push(' ') + rest)) == w,
        first_word(blank + w) == w,
{
    let none = Seq::<char>::empty();
    let line = w.push(' ') + rest;
    assert(!is_space(w[0]) && !is_space(w[w.len() - 1]));
    assert(is_space(' '));
    assert(blank + line + none =~= blank + line);
    crate::text::trimming_takes_off_blanks(blank, line, none);
    word_end(line, 0, w.len() as int);
    assert(line.subrange(0, w.len() as int) =~= w);
    assert(blank + w + none =~= blank + w);
    crate::text::trimming_takes_off_blanks(blank, w, none);
    word_end(w, 0, w.len() as int);
    assert(w.subrange(0, w.len() as int) =~= w);
}

/// Every line but the header that begins with a word that is no option has that word listed.
pub proof fn every_line_is_listed(l: Seq<Seq<char>>, n: nat, k: int)
    requires
        n <= l.len(),
        1 <= k < n,
        first_word(l[k]).len() > 0,
        first_word(l[k])[0] != '-',
    ensures
        names_listed(l, n).contains(first_word(l[k])),
    decreases n,
{
    let rest = names_listed(l, (n - 1) as nat);
    let all = names_listed(l, n);
    let w = first_word(l[k]);
    if k < n - 1 {
        every_line_is_listed(l, (n - 1) as nat, k);
        let i = choose|i: int| 0 <= i < rest.len() && rest[i] == w;
        assert(all[i] == w);
    } else if !rest.contains(w) {
        assert(all[rest.len() as int] == w);
    }
}

/// On every machine each place that is looked in ends in the program's own name there.
pub proof fn bundled_places_end_in_the_program(m: Machine, dir: Seq<char>, i: int)
    requires
        0 <= i < 3,
    ensures
        bundled(m, dir).len() == 3,
        dir.is_prefix_of(bundled(m, dir)[i]),
        exe_on(m).is_suffix_of(bundled(m, dir)[i]),
{
    let exe = exe_on(m);
    crate::machine::names_stand_in_directories(m, dir, exe);
    let a = seq!["mpv"@, exe];
    let b = seq!["mpv"@, "bin"@, exe];
    assert(a.drop_last() =~= seq!["mpv"@]);
    assert(b.drop_last() =~= seq!["mpv"@, "bin"@]);
    assert(b.drop_last().drop_last() =~= seq!["mpv"@]);
    assert(seq!["mpv"@].drop_last() =~= Seq::<Seq<char>>::empty());
    assert(m.below(dir, Seq::empty()) == dir);
    let d1 = m.inside(dir, "mpv"@);
    let d2 = m.inside(d1, "bin"@);
    assert(m.below(dir, seq!["mpv"@]) == d1);
    assert(m.below(dir, seq!["mpv"@, "bin"@]) == d2) by {
        assert(seq!["mpv"@, "bin"@].drop_last() =~= seq!["mpv"@]);
    }
    assert(m.below(dir, a) == m.inside(d1, exe));
    assert(m.below(dir, b) == m.inside(d2, exe));
    crate::machine::names_stand_in_directories(m, dir, "mpv"@);
    crate::machine::names_stand_in_directories(m, d1, "bin"@);
    crate::machine::names_stand_in_directories(m, d1, exe);
    crate::machine::names_stand_in_directories(m, d2, exe);
    begins_twice(dir, d1, m.inside(d1, exe));
    begins_twice(dir, d1, d2);
    begins_twice(dir, d2, m.inside(d2, exe));
}

proof fn begins_twice(a: Seq<char>, b: Seq<char>, c: Seq<char>)
    requires
        a.is_prefix_of(b),
        b.is_prefix_of(c),
    ensures
        a.is_prefix_of(c),
{
    assert(c.subrange(0, a.len() as int) =~= c.subrange(0, b.len() as int).subrange(
        0,
        a.len() as int,
    ));
}

proof fn installed_places_end_in_the_program(m: Machine, bases: Seq<Seq<char>>, i: int)
    requires
        0 <= i < installed(m, bases).len(),
    ensures
        exe_on(m).is_suffix_of(installed(m, bases)[i]),
    decreases bases.len(),
{
    if bases.len() > 0 {
        let before = installed(m, bases.drop_last());
        if i < before.len() {
            installed_places_end_in_the_program(m, bases.drop_last(), i);
        } else {
            let b = bases.last();
            let a = seq!["Programs"@, "mpv"@, exe_on(m)];
            let c = seq!["mpv"@, exe_on(m)];
            let d = seq!["mpv.net"@, exe_on(m)];
            crate::machine::names_stand_in_directories(m, m.below(b, a.drop_last()), exe_on(m));
            crate::machine::names_stand_in_directories(m, m.below(b, c.drop_last()), exe_on(m));
            crate::machine::names_stand_in_directories(m, m.below(b, d.drop_last()), exe_on(m));
        }
    }
}

/// On every machine each place that a program is usually kept in ends in the program's own name there.
pub proof fn usual_places_end_in_the_program(m: Machine, home: Option<Seq<char>>, i: int)
    requires
        0 <= i < usual(m, home).len(),
    ensures
        exe_on(m).is_suffix_of(usual(m, home)[i]),
{
    let place = usual(m, home)[i];
    match m {
        Machine::Unix => {
            reveal_strlit("mpv");
            reveal_strlit("/usr/local/bin/mpv");
            reveal_strlit("/usr/bin/mpv");
            reveal_strlit("/snap/bin/mpv");
            let n = "mpv"@.len() as int;
            assert(place.subrange(place.len() - n, place.len() as int) =~= "mpv"@);
        },
        Machine::Windows { bases } => {
            let there = installed(m, views(bases@));
            if i < there.len() {
                installed_places_end_in_the_program(m, views(bases@), i);
            } else if i == usual(m, home).len() - 1 {
                reveal_strlit("mpv.exe");
                reveal_strlit("C:\\ProgramData\\chocolatey\\bin\\mpv.exe");
                let n = "mpv.exe"@.len() as int;
                assert(place.subrange(place.len() - n, place.len() as int) =~= "mpv.exe"@);
            } else if let Some(h) = home {
                let p = m.below(h, seq!["scoop"@, "apps"@, "mpv"@]);
                let a = seq!["current"@, exe_on(m)];
                let c = seq!["scoop"@, "shims"@, exe_on(m)];
                crate::machine::names_stand_in_directories(m, m.below(p, a.drop_last()), exe_on(m));
                crate::machine::names_stand_in_directories(m, m.below(h, c.drop_last()), exe_on(m));
                assert(place == packaged(m, h)[i - there.len()]);
            }
        },
    }
}

} // verus!
