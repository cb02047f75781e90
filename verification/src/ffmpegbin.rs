//! Finding ffmpeg.
//!
//! The same order as for the player: an explicit choice, then beside this program, then where the
//! machine normally keeps it.
use vstd::prelude::*;
use vstd::string::*;

use crate::machine::Machine;
use crate::text::{opt_str_view, owned, views};

verus! {

/// The executable's name.
pub const FFMPEG_EXE: &'static str = "ffmpeg";

/// The executable's name on Windows.
pub const FFMPEG_EXE_WINDOWS: &'static str = "ffmpeg.exe";

/// The executable's name on a machine.
pub open spec fn exe_on(m: Machine) -> Seq<char> {
    match m {
        Machine::Unix => "ffmpeg"@,
        Machine::Windows { .. } => "ffmpeg.exe"@,
    }
}

/// The executable's name on a machine.
pub fn exe_name(machine: &Machine) -> (r: &'static str)
    ensures
        r@ == exe_on(*machine),
{
    match machine {
        Machine::Unix => "ffmpeg",
        Machine::Windows { .. } => "ffmpeg.exe",
    }
}

/// The places beside this program.
pub open spec fn bundled(m: Machine, dir: Seq<char>) -> Seq<Seq<char>> {
    seq![
        m.inside(dir, exe_on(m)),
        m.below(dir, seq!["ffmpeg"@, exe_on(m)]),
        m.below(dir, seq!["ffmpeg"@, "bin"@, exe_on(m)]),
    ]
}

/// The places below the directories that programs are installed in.
pub open spec fn installed(m: Machine, bases: Seq<Seq<char>>) -> Seq<Seq<char>>
    decreases bases.len(),
{
    if bases.len() == 0 {
        Seq::empty()
    } else {
        installed(m, bases.drop_last()) + seq![
            m.below(m.below(bases.last(), seq!["Programs"@, "ffmpeg"@]), seq!["bin"@, exe_on(m)]),
            m.below(bases.last(), seq!["ffmpeg"@, "bin"@, exe_on(m)]),
        ]
    }
}

/// The places that package managers use in a home directory.
pub open spec fn packaged(m: Machine, home: Seq<char>) -> Seq<Seq<char>> {
    seq![
        m.below(
            m.below(home, seq!["scoop"@, "apps"@, "ffmpeg"@]),
            seq!["current"@, "bin"@, exe_on(m)],
        ),
        m.below(home, seq!["scoop"@, "shims"@, exe_on(m)]),
    ]
}

/// Where the machine normally keeps the program.
pub open spec fn usual(m: Machine, home: Option<Seq<char>>) -> Seq<Seq<char>> {
    match m {
        Machine::Unix => seq![
            "/usr/local/bin/ffmpeg"@,
            "/usr/bin/ffmpeg"@,
            "/snap/bin/ffmpeg"@,
        ],
        Machine::Windows { bases } => installed(m, views(bases@)) + (match home {
            Some(h) => packaged(m, h),
            None => Seq::empty(),
        }) + seq!["C:\\ProgramData\\chocolatey\\bin\\ffmpeg.exe"@],
    }
}

/// Where to look, in order: what is said explicitly, then beside this program, then where the
/// machine normally keeps it.
pub open spec fn places(
    over: Option<Seq<char>>,
    exe_dir: Option<Seq<char>>,
    home: Option<Seq<char>>,
    m: Machine,
) -> Seq<Seq<char>> {
    (match over {
        Some(p) => seq![p],
        None => Seq::empty(),
    }) + (match exe_dir {
        Some(d) => bundled(m, d),
        None => Seq::empty(),
    }) + usual(m, home)
}

/// Where to look, in order.
pub fn candidates(
    override_path: Option<&str>,
    exe_dir: Option<&str>,
    home: Option<&str>,
    machine: &Machine,
) -> (r: Vec<String>)
    ensures
        views(r@) == places(
            opt_str_view(override_path),
            opt_str_view(exe_dir),
            opt_str_view(home),
            *machine,
        ),
{
    let mut out: Vec<String> = Vec::new();
    let exe = exe_name(machine);
    match override_path {
        Some(p) => {
            out.push(owned(p));
        },
        None => {},
    }
    let ghost first = match override_path {
        Some(p) => seq![p@],
        None => Seq::<Seq<char>>::empty(),
    };
    assert(views(out@) =~= first);
    match exe_dir {
        Some(dir) => {
            out.push(machine.enter(dir, exe));
            out.push(machine.enter2(dir, "ffmpeg", exe));
            out.push(machine.enter3(dir, "ffmpeg", "bin", exe));
            assert(views(out@) =~= first + bundled(*machine, dir@));
        },
        None => {},
    }
    let ghost beside = first + match exe_dir {
        Some(dir) => bundled(*machine, dir@),
        None => Seq::<Seq<char>>::empty(),
    };
    assert(views(out@) =~= beside);
    match machine {
        Machine::Unix => {
            out.push(owned("/usr/local/bin/ffmpeg"));
            out.push(owned("/usr/bin/ffmpeg"));
            out.push(owned("/snap/bin/ffmpeg"));
            assert(views(out@) =~= beside + usual(*machine, opt_str_view(home)));
        },
        Machine::Windows { bases } => {
            let ghost all = views(bases@);
            let mut i: usize = 0;
            assert(all.take(0) =~= Seq::<Seq<char>>::empty());
            assert(beside + installed(*machine, all.take(0)) =~= beside);
            while i < bases.len()
                invariant
                    i <= bases@.len(),
                    exe@ == exe_on(*machine),
                    all == views(bases@),
                    views(out@) == beside + installed(*machine, all.take(i as int)),
                decreases bases@.len() - i,
            {
                let base = bases[i].as_str();
                let ghost had = views(out@);
                proof {
                    assert(all.take(i as int + 1).drop_last() =~= all.take(i as int));
                    assert(all.take(i as int + 1).last() == base@);
                }
                let programs = machine.enter2(base, "Programs", "ffmpeg");
                out.push(machine.enter2(programs.as_str(), "bin", exe));
                out.push(machine.enter3(base, "ffmpeg", "bin", exe));
                let ghost more = installed(*machine, all.take(i as int + 1));
                assert(more.len() == installed(*machine, all.take(i as int)).len() + 2);
                assert(views(out@) =~= had + seq![
                    machine.below(
                        machine.below(base@, seq!["Programs"@, "ffmpeg"@]),
                        seq!["bin"@, exe@],
                    ),
                    machine.below(base@, seq!["ffmpeg"@, "bin"@, exe@]),
                ]);
                assert(views(out@) =~= beside + more);
                i += 1;
            }
            assert(all.take(i as int) =~= all);
            let ghost had = views(out@);
            match home {
                Some(h) => {
                    let apps = machine.enter3(h, "scoop", "apps", "ffmpeg");
                    out.push(machine.enter3(apps.as_str(), "current", "bin", exe));
                    out.push(machine.enter3(h, "scoop", "shims", exe));
                    assert(views(out@) =~= had + packaged(*machine, h@));
                },
                None => {
                    assert(views(out@) =~= had + Seq::<Seq<char>>::empty());
                },
            }
            let ghost known = views(out@);
            let ghost kept = match home {
                Some(h) => packaged(*machine, h@),
                None => Seq::<Seq<char>>::empty(),
            };
            assert(known == beside + installed(*machine, all) + kept);
            out.push(owned("C:\\ProgramData\\chocolatey\\bin\\ffmpeg.exe"));
            let ghost last = views(out@).last();
            assert(views(out@) =~= known + seq![last]);
            assert(usual(*machine, opt_str_view(home)) =~= installed(*machine, all) + kept + seq![
                last,
            ]);
            assert(views(out@) =~= beside + usual(*machine, opt_str_view(home)));
        },
    }
    out
}

/// What is said explicitly comes first; what stands beside this program comes before what is
/// installed; and there is always somewhere to look.
pub proof fn nearer_comes_first(
    over: Option<Seq<char>>,
    exe_dir: Option<Seq<char>>,
    home: Option<Seq<char>>,
    m: Machine,
)
    ensures
        places(over, exe_dir, home, m).len() > 0,
        over is Some ==> places(over, exe_dir, home, m)[0] == over->0,
        exe_dir is Some ==> {
            let at = if over is Some {
                1int
            } else {
                0
            };
            let p = places(over, exe_dir, home, m);
            &&& p.subrange(at, at + 3) == bundled(m, exe_dir->0)
            &&& p.skip(at + 3) == usual(m, home)
        },
{
    let p = places(over, exe_dir, home, m);
    assert(usual(m, home).len() > 0);
    if exe_dir is Some {
        let at = if over is Some {
            1int
        } else {
            0
        };
        assert(p.subrange(at, at + 3) =~= bundled(m, exe_dir->0));
        assert(p.skip(at + 3) =~= usual(m, home));
    }
}

/// What to say to someone who has no ffmpeg.
pub open spec fn hint_on(windows: bool) -> Seq<char> {
    if windows {
        "ffmpeg was not found, so HLS segmenting is unavailable (direct playback via /stream/ is
unaffected).

    1. Download a Windows build from https://www.gyan.dev/ffmpeg/builds/ (the release essentials or
       full build) or https://github.com/BtbN/FFmpeg-Builds/releases (the win64-gpl build).
    2. Extract it and copy ffmpeg.exe into this folder, beside lumen.exe.

Or install it system-wide:
    winget install ffmpeg

Or point at a copy you already have, without moving anything:
    set LUMEN_FFMPEG=D:\\path\\to\\ffmpeg.exe"@
    } else {
        "ffmpeg was not found, so HLS segmenting is unavailable (direct playback via /stream/ is
unaffected). Install it with one of:
    apt install ffmpeg      dnf install ffmpeg      pacman -S ffmpeg      zypper install ffmpeg

Or point at a copy you already have:
    export LUMEN_FFMPEG=/path/to/ffmpeg"@
    }
}

/// What to say to someone who has no ffmpeg.
pub fn install_hint(windows: bool) -> (r: &'static str)
    ensures
        r@ == hint_on(windows),
{
    if windows {
        "ffmpeg was not found, so HLS segmenting is unavailable (direct playback via /stream/ is
unaffected).

    1. Download a Windows build from https://www.gyan.dev/ffmpeg/builds/ (the release essentials or
       full build) or https://github.com/BtbN/FFmpeg-Builds/releases (the win64-gpl build).
    2. Extract it and copy ffmpeg.exe into this folder, beside lumen.exe.

Or install it system-wide:
    winget install ffmpeg

Or point at a copy you already have, without moving anything:
    set LUMEN_FFMPEG=D:\\path\\to\\ffmpeg.exe"
    } else {
        "ffmpeg was not found, so HLS segmenting is unavailable (direct playback via /stream/ is
unaffected). Install it with one of:
    apt install ffmpeg      dnf install ffmpeg      pacman -S ffmpeg      zypper install ffmpeg

Or point at a copy you already have:
    export LUMEN_FFMPEG=/path/to/ffmpeg"
    }
}

proof fn installed_places_end_in_the_program(m: Machine, bases: Seq<Seq<char>>, i: int)
    requires
        0 <= i < installed(m, bases).len(),
    ensures
        exe_on(m).is_suffix_of(installed(m, bases)[i]),
    decreases bases.len(),
{
    if bases.len() > 0 {
        let before = installed(m, bases.drop_last());
        if i < before.len() {
            installed_places_end_in_the_program(m, bases.drop_last(), i);
        } else {
            let b = bases.last();
            let p = m.below(b, seq!["Programs"@, "ffmpeg"@]);
            let a = seq!["bin"@, exe_on(m)];
            let c = seq!["ffmpeg"@, "bin"@, exe_on(m)];
            crate::machine::names_stand_in_directories(m, m.below(p, a.drop_last()), exe_on(m));
            crate::machine::names_stand_in_directories(m, m.below(b, c.drop_last()), exe_on(m));
        }
    }
}

/// On every machine each place that a program is usually kept in ends in the program's own name there.
pub proof fn usual_places_end_in_the_program(m: Machine, home: Option<Seq<char>>, i: int)
    requires
        0 <= i < usual(m, home).len(),
    ensures
        exe_on(m).is_suffix_of(usual(m, home)[i]),
{
    let place = usual(m, home)[i];
    match m {
        Machine::Unix => {
            reveal_strlit("ffmpeg");
            reveal_strlit("/usr/local/bin/ffmpeg");
            reveal_strlit("/usr/bin/ffmpeg");
            reveal_strlit("/snap/bin/ffmpeg");
            let n = "ffmpeg"@.len() as int;
            assert(place.subrange(place.len() - n, place.len() as int) =~= "ffmpeg"@);
        },
        Machine::Windows { bases } => {
            let there = installed(m, views(bases@));
            if i < there.len() {
                installed_places_end_in_the_program(m, views(bases@), i);
            } else if i == usual(m, home).len() - 1 {
                reveal_strlit("ffmpeg.exe");
                reveal_strlit("C:\\ProgramData\\chocolatey\\bin\\ffmpeg.exe");
                let n = "ffmpeg.exe"@.len() as int;
                assert(place.subrange(place.len() - n, place.len() as int) =~= "ffmpeg.exe"@);
            } else if let Some(h) = home {
                let p = m.below(h, seq!["scoop"@, "apps"@, "ffmpeg"@]);
                let a = seq!["current"@, "bin"@, exe_on(m)];
                let c = seq!["scoop"@, "shims"@, exe_on(m)];
                crate::machine::names_stand_in_directories(m, m.below(p, a.drop_last()), exe_on(m));
                crate::machine::names_stand_in_directories(m, m.below(h, c.drop_last()), exe_on(m));
                assert(place == packaged(m, h)[i - there.len()]);
            }
        },
    }
}

} // verus!
