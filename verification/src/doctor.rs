//! Whether this machine is able to play anything, and with what.
use vstd::prelude::*;
use vstd::string::*;

use crate::mpvbin::{hint_on, install_hint};
use crate::text::{join, join_text, lines, lines_of, owned, same, views};

verus! {

/// The player that was found.
#[derive(Debug, Clone)]
pub struct Player {
    pub path: String,
    /// The first line of what it says of its version.
    pub version: Option<String>,
    /// The video outputs it lists.
    pub outputs: Vec<String>,
    /// The hardware decoders it lists.
    pub decoders: Vec<String>,
}

/// What was found out about a machine.
#[derive(Debug, Clone)]
pub struct Findings {
    /// This program's version.
    pub version: String,
    pub os: String,
    pub arch: String,
    pub windows: bool,
    /// Where this program runs from.
    pub exe: Option<String>,
    pub player: Option<Player>,
    /// What the record of earlier sessions says, or why it cannot be read.
    pub calibration: String,
}

/// The first `n` lines, each indented.
pub open spec fn indented(l: Seq<Seq<char>>, n: nat) -> Seq<char>
    decreases n,
{
    if n == 0 || n > l.len() {
        Seq::empty()
    } else {
        indented(l, (n - 1) as nat) + "  "@ + l[n - 1] + "\n"@
    }
}

/// What is said of the video outputs.
pub open spec fn outputs_shown(vos: Seq<Seq<char>>) -> Seq<char> {
    if vos.contains("gpu-next"@) {
        "  gpu-next present — the libplacebo renderer this product is built on\n"@
    } else if vos.len() == 0 {
        "  could not be queried; this mpv may be a wrapper rather than the real binary\n"@
    } else {
        "  gpu-next MISSING (have: "@ + join(vos, ", "@)
            + "). Playback still works via `gpu`, but HDR handling\n  and tone mapping differ from what the product will ship. Run with --vo gpu.\n"@
    }
}

/// The decoders that are no mere mode of choosing one.
pub open spec fn proper(hw: Seq<Seq<char>>) -> Seq<Seq<char>>
    decreases hw.len(),
{
    if hw.len() == 0 {
        Seq::empty()
    } else {
        let rest = proper(hw.drop_last());
        if hw.last() != "no"@ && hw.last() != "auto"@ {
            rest.push(hw.last())
        } else {
            rest
        }
    }
}

/// What is said of the hardware decoders.
pub open spec fn decoders_shown(hw: Seq<Seq<char>>) -> Seq<char> {
    let have = proper(hw);
    if have.len() == 0 {
        "  none reported. Files will decode on the CPU: 4K HEVC and AV1 may stutter, and\n  that is a driver problem rather than anything to do with the file.\n"@
    } else {
        "  "@ + join(have, ", "@)
            + "\n  (compiled-in support; `lumen test` reports what actually decoded)\n"@
    }
}

/// What is said of a machine.
pub open spec fn examined(f: Findings) -> Seq<char> {
    let named = "lumen "@ + f.version@ + "  ("@ + f.os@ + " "@ + f.arch@ + ")\n"@;
    let placed = match f.exe {
        Some(p) => named + "  running from "@ + p@ + "\n"@,
        None => named,
    };
    let asked = placed + "\nmpv\n"@;
    match f.player {
        None => {
            let hint = lines(hint_on(f.windows));
            asked + "  NOT FOUND\n\n"@ + indented(hint, hint.len())
        },
        Some(p) => asked + "  "@ + (match p.version {
            Some(v) => v@,
            None => "(no version line)"@,
        }) + "\n  at "@ + p.path@ + "\n\nvideo output\n"@ + outputs_shown(views(p.outputs@))
            + "\nhardware decoding\n"@ + decoders_shown(views(p.decoders@))
            + "\nfidelity calibration\n  "@ + f.calibration@
            + "\n\nnext\n  lumen scan  <your media folder>\n  lumen test  <your media folder> --limit 5\n"@,
    }
}

fn outputs_text(vos: &Vec<String>) -> (r: String)
    ensures
        r@ == outputs_shown(views(vos@)),
{
    let mut i: usize = 0;
    while i < vos.len()
        invariant
            i <= vos@.len(),
            forall|k: int| 0 <= k < i ==> views(vos@)[k] != "gpu-next"@,
        decreases vos@.len() - i,
    {
        if same(vos[i].as_str(), "gpu-next") {
            assert(views(vos@)[i as int] == "gpu-next"@);
            return owned("  gpu-next present — the libplacebo renderer this product is built on\n");
        }
        i += 1;
    }
    if vos.len() == 0 {
        return owned(
            "  could not be queried; this mpv may be a wrapper rather than the real binary\n",
        );
    }
    let mut s = owned("  gpu-next MISSING (have: ");
    s.append(join_text(vos, ", ").as_str());
    s.append(
        "). Playback still works via `gpu`, but HDR handling\n  and tone mapping differ from what the product will ship. Run with --vo gpu.\n",
    );
    s
}

fn decoders_text(hw: &Vec<String>) -> (r: String)
    ensures
        r@ == decoders_shown(views(hw@)),
{
    let ghost all = views(hw@);
    let mut have: Vec<String> = Vec::new();
    let mut i: usize = 0;
    assert(all.take(0) =~= Seq::<Seq<char>>::empty());
    assert(views(have@) =~= Seq::<Seq<char>>::empty());
    while i < hw.len()
        invariant
            i <= hw@.len(),
            all == views(hw@),
            views(have@) == proper(all.take(i as int)),
        decreases hw@.len() - i,
    {
        let ghost had = views(have@);
        proof {
            assert(all.take(i as int + 1).drop_last() =~= all.take(i as int));
            assert(all.take(i as int + 1).last() == hw@[i as int]@);
        }
        if !same(hw[i].as_str(), "no") && !same(hw[i].as_str(), "auto") {
            have.push(hw[i].clone());
            assert(views(have@) =~= had.push(hw@[i as int]@));
        }
        i += 1;
    }
    assert(all.take(i as int) =~= all);
    assert(proper(all).len() == have@.len());
    if have.len() == 0 {
        return owned(
            "  none reported. Files will decode on the CPU: 4K HEVC and AV1 may stutter, and\n  that is a driver problem rather than anything to do with the file.\n",
        );
    }
    let mut s = owned("  ");
    s.append(join_text(&have, ", ").as_str());
    s.append("\n  (compiled-in support; `lumen test` reports what actually decoded)\n");
    s
}

/// What is said of a machine, and the exit status: 2 when it has no player.
pub fn doctor(f: &Findings) -> (r: (String, u8))
    ensures
        r.0@ == examined(*f),
        r.1 == (if f.player is None {
            2u8
        } else {
            0
        }),
{
    let mut s = owned("lumen ");
    s.append(f.version.as_str());
    s.append("  (");
    s.append(f.os.as_str());
    s.append(" ");
    s.append(f.arch.as_str());
    s.append(")\n");
    match &f.exe {
        Some(p) => {
            s.append("  running from ");
            s.append(p.as_str());
            s.append("\n");
        },
        None => {},
    }
    s.append("\nmpv\n");
    match &f.player {
        None => {
            s.append("  NOT FOUND\n\n");
            let hint = lines_of(install_hint(f.windows));
            let ghost l = lines(hint_on(f.windows));
            let ghost head = s@;
            assert(l.len() == hint@.len());
            let mut i: usize = 0;
            assert(head + indented(l, 0) =~= head);
            while i < hint.len()
                invariant
                    i <= hint@.len(),
                    l == views(hint@),
                    s@ == head + indented(l, i as nat),
                decreases hint@.len() - i,
            {
                s.append("  ");
                s.append(hint[i].as_str());
                s.append("\n");
                i += 1;
                assert(s@ =~= head + indented(l, i as nat));
            }
            (s, 2)
        },
        Some(p) => {
            s.append("  ");
            match &p.version {
                Some(v) => {
                    s.append(v.as_str());
                },
                None => {
                    s.append("(no version line)");
                },
            }
            s.append("\n  at ");
            s.append(p.path.as_str());
            s.append("\n\nvideo output\n");
            s.append(outputs_text(&p.outputs).as_str());
            s.append("\nhardware decoding\n");
            s.append(decoders_text(&p.decoders).as_str());
            s.append("\nfidelity calibration\n  ");
            s.append(f.calibration.as_str());
            s.append(
                "\n\nnext\n  lumen scan  <your media folder>\n  lumen test  <your media folder> --limit 5\n",
            );
            (s, 0)
        },
    }
}

/// The decoders that are shown are those that are no mode of choosing one, all of them and in order.
pub proof fn modes_are_no_decoders(hw: Seq<Seq<char>>)
    ensures
        proper(hw) == hw.filter(|d: Seq<char>| d != "no"@ && d != "auto"@),
    decreases hw.len(),
{
    reveal(Seq::filter);
    if hw.len() > 0 {
        modes_are_no_decoders(hw.drop_last());
    }
}

/// The renderer is present exactly where the player names it, wherever in the list; where it is not,
/// the outputs that there are get named.
pub proof fn the_renderer_is_looked_for(before: Seq<Seq<char>>, after: Seq<Seq<char>>, vos: Seq<Seq<char>>)
    ensures
        "  gpu-next present"@.is_prefix_of(outputs_shown(before.push("gpu-next"@) + after)),
        !vos.contains("gpu-next"@) && vos.len() > 0 ==> ("  gpu-next MISSING (have: "@ + join(
            vos,
            ", "@,
        )).is_prefix_of(outputs_shown(vos)),
{
    let with = before.push("gpu-next"@) + after;
    assert(with[before.len() as int] == "gpu-next"@);
    reveal_strlit("  gpu-next present");
    reveal_strlit("  gpu-next present — the libplacebo renderer this product is built on\n");
    let l = outputs_shown(with);
    assert(l.subrange(0, 18) =~= "  gpu-next present"@);
    if !vos.contains("gpu-next"@) && vos.len() > 0 {
        let head = "  gpu-next MISSING (have: "@ + join(vos, ", "@);
        assert(outputs_shown(vos).subrange(0, head.len() as int) =~= head);
    }
}

/// What is said of a machine begins with the version and the system; a player that is not there is
/// missed.
pub proof fn findings_begin_with_the_version(f: Findings)
    ensures
        ("lumen "@ + f.version@ + "  ("@ + f.os@ + " "@ + f.arch@ + ")\n"@).is_prefix_of(examined(f)),
        f.player is None ==> exists|p: Seq<char>, q: Seq<char>| #[trigger]
            p.add("\nmpv\n"@ + "  NOT FOUND\n\n"@).add(q) == examined(f),
{
    let named = "lumen "@ + f.version@ + "  ("@ + f.os@ + " "@ + f.arch@ + ")\n"@;
    let placed = match f.exe {
        Some(p) => named + "  running from "@ + p@ + "\n"@,
        None => named,
    };
    assert(named.is_prefix_of(placed)) by {
        assert(placed.subrange(0, named.len() as int) =~= named);
    }
    let all = examined(f);
    let rest = all.skip(placed.len() as int);
    assert(all =~= placed + rest);
    assert(all.subrange(0, named.len() as int) =~= placed.subrange(0, named.len() as int));
    if f.player is None {
        let hint = lines(hint_on(f.windows));
        assert(placed.add("\nmpv\n"@ + "  NOT FOUND\n\n"@).add(indented(hint, hint.len())) =~= all);
    }
}

proof fn middle(a: Seq<char>, b: Seq<char>, c: Seq<char>, all: Seq<char>)
    requires
        all == a + b + c,
    ensures
        exists|p: Seq<char>, q: Seq<char>| #[trigger] p.add(b).add(q) == all,
{
    assert(a.add(b).add(c) == all);
}

/// A player that is there is named with its place and its version, and what it can do is told.
pub proof fn a_player_is_told_of(f: Findings, x: Player)
    requires
        f.player == Some(x),
    ensures
        exists|p: Seq<char>, q: Seq<char>| #[trigger]
            p.add("\n  at "@ + x.path@ + "\n\nvideo output\n"@).add(q) == examined(f),
        x.version is Some ==> exists|p: Seq<char>, q: Seq<char>| #[trigger]
            p.add(x.version->0@).add(q) == examined(f),
        exists|p: Seq<char>, q: Seq<char>| #[trigger]
            p.add(outputs_shown(views(x.outputs@))).add(q) == examined(f),
        exists|p: Seq<char>, q: Seq<char>| #[trigger]
            p.add(decoders_shown(views(x.decoders@))).add(q) == examined(f),
        exists|p: Seq<char>, q: Seq<char>| #[trigger] p.add(f.calibration@).add(q) == examined(f),
{
    let named = "lumen "@ + f.version@ + "  ("@ + f.os@ + " "@ + f.arch@ + ")\n"@;
    let placed = match f.exe {
        Some(p) => named + "  running from "@ + p@ + "\n"@,
        None => named,
    };
    let version = match x.version {
        Some(v) => v@,
        None => "(no version line)"@,
    };
    let begun = placed + "\nmpv\n"@ + "  "@;
    let outputs = outputs_shown(views(x.outputs@));
    let decoders = decoders_shown(views(x.decoders@));
    let ended
        = "\n\nnext\n  lumen scan  <your media folder>\n  lumen test  <your media folder> --limit 5\n"@;
    told_in_turn(
        begun,
        version,
        x.path@,
        outputs,
        decoders,
        f.calibration@,
        ended,
        examined(f),
    );
}

proof fn told_in_turn(
    begun: Seq<char>,
    version: Seq<char>,
    path: Seq<char>,
    outputs: Seq<char>,
    decoders: Seq<char>,
    log: Seq<char>,
    ended: Seq<char>,
    all: Seq<char>,
)
    requires
        all == begun + version + "\n  at "@ + path + "\n\nvideo output\n"@ + outputs
            + "\nhardware decoding\n"@ + decoders + "\nfidelity calibration\n  "@ + log + ended,
    ensures
        exists|p: Seq<char>, q: Seq<char>| #[trigger]
            p.add("\n  at "@ + path + "\n\nvideo output\n"@).add(q) == all,
        exists|p: Seq<char>, q: Seq<char>| #[trigger] p.add(version).add(q) == all,
        exists|p: Seq<char>, q: Seq<char>| #[trigger] p.add(outputs).add(q) == all,
        exists|p: Seq<char>, q: Seq<char>| #[trigger] p.add(decoders).add(q) == all,
        exists|p: Seq<char>, q: Seq<char>| #[trigger] p.add(log).add(q) == all,
{
    let a = "\n  at "@;
    let b = "\n\nvideo output\n"@;
    let c = "\nhardware decoding\n"@;
    let d = "\nfidelity calibration\n  "@;
    let s1 = begun + version;
    let s2 = s1 + a + path + b;
    let s3 = s2 + outputs;
    let s4 = s3 + c;
    let s5 = s4 + decoders;
    let s6 = s5 + d;
    middle(s6, log, ended, all);
    let t5 = d + log + ended;
    assert(all =~= s5 + t5);
    middle(s4, decoders, t5, all);
    let t3 = c + decoders + t5;
    assert(all =~= s3 + t3);
    middle(s2, outputs, t3, all);
    let t2 = outputs + t3;
    assert(s2 + t2 =~= s3 + t3);
    assert(s2 =~= s1 + (a + path + b));
    middle(s1, a + path + b, t2, all);
    let t1 = a + path + b + t2;
    assert(s1 + t1 =~= s2 + t2);
    middle(begun, version, t1, all);
}

/// The decoders that are no mere mode are named; where there is none that is said.
pub proof fn decoders_are_named(hw: Seq<Seq<char>>)
    ensures
        proper(hw).len() > 0 ==> ("  "@ + join(proper(hw), ", "@)).is_prefix_of(decoders_shown(hw)),
        proper(hw).len() == 0 ==> "  none reported"@.is_prefix_of(decoders_shown(hw)),
{
    let l = decoders_shown(hw);
    if proper(hw).len() > 0 {
        let head = "  "@ + join(proper(hw), ", "@);
        assert(l.subrange(0, head.len() as int) =~= head);
    } else {
        reveal_strlit("  none reported");
        reveal_strlit(
            "  none reported. Files will decode on the CPU: 4K HEVC and AV1 may stutter, and\n  that is a driver problem rather than anything to do with the file.\n",
        );
        assert(l.subrange(0, 15) =~= "  none reported"@);
    }
}

} // verus!
