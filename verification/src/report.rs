//! Console and JSON output.
use vstd::prelude::*;
use vstd::string::*;

use crate::measure::Measure;
use crate::number::{bit_count, nearest_whole, power_of_two};
pub use crate::record::render_json;
use crate::scan::{
    are_groups,
    contents,
    group,
    grouped,
    is_group,
    notes_of,
    year_suffix,
    year_suffix_text,
    Found,
    Group,
    Item,
    MediaKind,
    Scan,
    Scanned,
    ScannedFile,
};
use crate::session::{
    count_of,
    is_failed,
    is_late,
    is_played,
    is_software,
    is_stuck,
    is_unreached,
    those,
    FileResult,
    Outcome,
    SessionReport,
    Which,
};
use crate::tally::{summary, summary_text};
use crate::text::{
    chars_of,
    dec,
    dec_text,
    digits_value,
    join,
    join_text,
    opt_view,
    owned,
    pad0,
    padded_text,
    same,
    slice_text,
    upper,
    upper_text,
    views,
};

verus! {

/// The binary64 value nearest to a number: its 53 leading binary digits, rounded.
fn to_53_bits(n: u64) -> (r: u128)
    ensures
        r == nearest_whole(n as nat, 1),
        r <= 0x1_0000_0000_0000_0000,
        n < 0x20_0000_0000_0000 ==> r == n,
{
    proof {
        vstd::arithmetic::power2::lemma2_to64();
        vstd::arithmetic::power2::lemma2_to64_rest();
        assert(n as nat / 1 == n as nat && n as nat % 1 == 0);
    }
    if n < 0x20_0000_0000_0000 {
        proof {
            crate::json_writer::nearest_of_exact(n as nat);
        }
        return n as u128;
    }
    let b: u32 = bit_count(n);
    proof {
        crate::number::round_keeps_high_bit(n as nat, 0, 1);
    }
    let unit: u64 = power_of_two(b - 53);
    let q: u64 = n / unit;
    let low: u64 = n % unit;
    let up = 2 * (low as u128) > unit as u128 || (2 * (low as u128) == unit as u128 && q % 2 == 1);
    proof {
        assert(low * 1 + 0 == low);
        assert(q * unit <= n) by (nonlinear_arith)
            requires
                q == n / unit,
                unit > 0,
        ;
        assert((q + 1) * unit == q * unit + unit) by (nonlinear_arith);
        crate::number::bits_bounds(n as nat);
        // The next multiple is at most the next power of two.
        let k = (b - 53) as nat;
        vstd::arithmetic::power2::lemma_pow2_adds(k, 53);
        let top = pow2_53();
        assert(q + 1 <= top) by (nonlinear_arith)
            requires
                q == n / unit,
                n < unit * top,
                unit > 0,
        ;
        assert((q + 1) * unit <= top * unit) by (nonlinear_arith)
            requires
                q + 1 <= top,
                unit > 0,
        ;
        assert(top * unit == unit * top) by (nonlinear_arith);
        if b < 64 {
            vstd::arithmetic::power2::lemma_pow2_strictly_increases(b as nat, 64);
        }
    }
    if up {
        q as u128 * unit as u128 + unit as u128
    } else {
        q as u128 * unit as u128
    }
}

/// 2^53.
spec fn pow2_53() -> int {
    0x20_0000_0000_0000
}

/// Which unit a size is shown in: the fourth at the most.
pub open spec fn unit_index(v: nat) -> nat {
    if v < 1024 {
        0
    } else if v < 1024 * 1024 {
        1
    } else if v < 1024 * 1024 * 1024 {
        2
    } else if v < 1024 * 1024 * 1024 * 1024 {
        3
    } else {
        4
    }
}

/// How many bytes a unit stands for.
pub open spec fn unit_bytes(i: nat) -> nat {
    if i == 1 {
        1024
    } else if i == 2 {
        1024 * 1024
    } else if i == 3 {
        1024 * 1024 * 1024
    } else {
        1024 * 1024 * 1024 * 1024
    }
}

/// The name of a unit.
pub open spec fn unit_name(i: nat) -> Seq<char> {
    if i == 1 {
        " KiB"@
    } else if i == 2 {
        " MiB"@
    } else if i == 3 {
        " GiB"@
    } else {
        " TiB"@
    }
}

/// The tenths of a unit nearest to a size, ties to even.
pub open spec fn tenths(v: nat, unit: nat) -> nat {
    let q = v * 10 / unit;
    let r = v * 10 % unit;
    if 2 * r > unit || (2 * r == unit && q % 2 == 1) {
        q + 1
    } else {
        q
    }
}

/// A size as a person writes it: whole bytes, or one decimal place of a greater unit.
pub open spec fn size_shown(bytes: u64) -> Seq<char> {
    let v = nearest_whole(bytes as nat, 1);
    let i = unit_index(v);
    if i == 0 {
        dec(bytes as nat) + " B"@
    } else {
        let t = tenths(v, unit_bytes(i));
        dec(t / 10) + "."@ + dec(t % 10) + unit_name(i)
    }
}

/// A size as a person writes it.
pub fn human_size(bytes: u64) -> (r: String)
    ensures
        r@ == size_shown(bytes),
{
    let v: u128 = to_53_bits(bytes);
    if v < 1024 {
        let mut s = dec_text(bytes as u128);
        s.append(" B");
        return s;
    }
    let (unit, name): (u128, &str) = if v < 1024 * 1024 {
        (1024, " KiB")
    } else if v < 1024 * 1024 * 1024 {
        (1024 * 1024, " MiB")
    } else if v < 1024 * 1024 * 1024 * 1024 {
        (1024 * 1024 * 1024, " GiB")
    } else {
        (1024 * 1024 * 1024 * 1024, " TiB")
    };
    let q: u128 = v * 10 / unit;
    let rest: u128 = v * 10 % unit;
    let t: u128 = if 2 * rest > unit || (2 * rest == unit && q % 2 == 1) {
        q + 1
    } else {
        q
    };
    let mut s = dec_text(t / 10);
    s.append(".");
    s.append(dec_text(t % 10).as_str());
    s.append(name);
    s
}

/// A length of time as a person writes it: hours, minutes and seconds, or minutes and seconds. A
/// dash for none.
pub open spec fn time_shown(m: Measure) -> Seq<char> {
    if !m.positive() {
        "—"@
    } else {
        let total = m.whole_part() as nat;
        let h = total / 3600;
        let min = total % 3600 / 60;
        let s = total % 60;
        if h > 0 {
            dec(h) + ":"@ + pad0(dec(min), 2) + ":"@ + pad0(dec(s), 2)
        } else {
            dec(min) + ":"@ + pad0(dec(s), 2)
        }
    }
}

/// A length of time as a person writes it.
pub fn human_duration(seconds: Measure) -> (r: String)
    ensures
        r@ == time_shown(seconds),
{
    if !seconds.is_positive() {
        return owned("—");
    }
    let total: u64 = seconds.whole();
    let h: u64 = total / 3600;
    let m: u64 = total % 3600 / 60;
    let s: u64 = total % 60;
    if h > 0 {
        let mut out = dec_text(h as u128);
        out.append(":");
        out.append(padded_text(m as u128, 2).as_str());
        out.append(":");
        out.append(padded_text(s as u128, 2).as_str());
        out
    } else {
        let mut out = dec_text(m as u128);
        out.append(":");
        out.append(padded_text(s as u128, 2).as_str());
        out
    }
}

/// A text cut to a width, with an ellipsis in the place of what was cut.
pub open spec fn cut(s: Seq<char>, width: nat) -> Seq<char> {
    if s.len() <= width {
        s
    } else if width == 0 {
        "…"@
    } else {
        s.take(width - 1) + "…"@
    }
}

/// Cuts a text to a width in characters, with an ellipsis when it was cut. No character is broken.
pub fn ellipsize(s: &str, width: usize) -> (r: String)
    ensures
        r@ == cut(s@, width as nat),
        width > 0 ==> r@.len() <= width,
{
    proof {
        reveal_strlit("…");
    }
    let chars = chars_of(s);
    if chars.len() <= width {
        return owned(s);
    }
    let keep: usize = if width == 0 {
        0
    } else {
        width - 1
    };
    let mut out = slice_text(&chars, 0, keep);
    assert(out@ =~= s@.take(keep as int));
    out.append("…");
    assert(out@ =~= cut(s@, width as nat));
    out
}

/// How many files are of a kind.
pub open spec fn kind_count(files: Seq<Scanned>, k: MediaKind) -> nat
    decreases files.len(),
{
    if files.len() == 0 {
        0
    } else {
        kind_count(files.drop_last(), k) + if files.last().kind == k {
            1nat
        } else {
            0
        }
    }
}

fn count_kind(files: &Vec<ScannedFile>, k: MediaKind) -> (r: usize)
    ensures
        r == kind_count(contents(files@), k),
{
    let ghost all = contents(files@);
    let mut n: usize = 0;
    let mut i: usize = 0;
    assert(all.take(0) =~= Seq::<Scanned>::empty());
    while i < files.len()
        invariant
            i <= files@.len(),
            all == contents(files@),
            n == kind_count(all.take(i as int), k),
            n <= i,
        decreases files@.len() - i,
    {
        proof {
            assert(all.take(i as int + 1).drop_last() =~= all.take(i as int));
            assert(all.take(i as int + 1).last() == files@[i as int].content());
        }
        if files[i].kind == k {
            n = n + 1;
        }
        i += 1;
    }
    assert(all.take(i as int) =~= all);
    n
}

/// How many bytes the playable files take up together.
pub open spec fn playable_bytes(files: Seq<Scanned>) -> nat
    decreases files.len(),
{
    if files.len() == 0 {
        0
    } else {
        playable_bytes(files.drop_last()) + if files.last().playable() {
            files.last().size as nat
        } else {
            0
        }
    }
}

proof fn playable_bytes_grow(files: Seq<Scanned>, i: int)
    requires
        0 <= i <= files.len(),
    ensures
        playable_bytes(files.take(i)) <= playable_bytes(files),
    decreases files.len() - i,
{
    if i == files.len() {
        assert(files.take(i) =~= files);
    } else {
        assert(files.take(i + 1).drop_last() =~= files.take(i));
        playable_bytes_grow(files, i + 1);
    }
}

fn sum_playable(files: &Vec<ScannedFile>) -> (r: u64)
    requires
        playable_bytes(contents(files@)) <= u64::MAX,
    ensures
        r == playable_bytes(contents(files@)),
{
    let ghost all = contents(files@);
    let mut n: u64 = 0;
    let mut i: usize = 0;
    assert(all.take(0) =~= Seq::<Scanned>::empty());
    while i < files.len()
        invariant
            i <= files@.len(),
            all == contents(files@),
            playable_bytes(all) <= u64::MAX,
            n == playable_bytes(all.take(i as int)),
        decreases files@.len() - i,
    {
        proof {
            assert(all.take(i as int + 1).drop_last() =~= all.take(i as int));
            assert(all.take(i as int + 1).last() == files@[i as int].content());
            playable_bytes_grow(all, i as int + 1);
        }
        if files[i].is_playable() {
            n = n + files[i].size;
        }
        i += 1;
    }
    assert(all.take(i as int) =~= all);
    n
}

/// The container of each playable file, by name, in order.
pub open spec fn container_names(files: Seq<Scanned>) -> Seq<Seq<char>>
    decreases files.len(),
{
    if files.len() == 0 {
        Seq::empty()
    } else {
        let rest = container_names(files.drop_last());
        if files.last().playable() {
            rest.push(
                match files.last().container {
                    Some(c) => c.shown(),
                    None => "unidentified"@,
                },
            )
        } else {
            rest
        }
    }
}

fn names_of_containers(files: &Vec<ScannedFile>) -> (r: Vec<String>)
    ensures
        views(r@) == container_names(contents(files@)),
{
    let ghost all = contents(files@);
    let mut out: Vec<String> = Vec::new();
    let mut i: usize = 0;
    assert(all.take(0) =~= Seq::<Scanned>::empty());
    assert(views(out@) =~= Seq::<Seq<char>>::empty());
    while i < files.len()
        invariant
            i <= files@.len(),
            all == contents(files@),
            views(out@) == container_names(all.take(i as int)),
        decreases files@.len() - i,
    {
        let ghost had = views(out@);
        proof {
            assert(all.take(i as int + 1).drop_last() =~= all.take(i as int));
            assert(all.take(i as int + 1).last() == files@[i as int].content());
        }
        if files[i].is_playable() {
            let name = match files[i].container {
                Some(c) => c.name(),
                None => owned("unidentified"),
            };
            let ghost n = name@;
            out.push(name);
            assert(views(out@) =~= had.push(n));
        }
        i += 1;
    }
    assert(all.take(i as int) =~= all);
    out
}

/// The files that carry a note, in order.
pub open spec fn noted(files: Seq<Scanned>) -> Seq<Scanned>
    decreases files.len(),
{
    if files.len() == 0 {
        Seq::empty()
    } else {
        let rest = noted(files.drop_last());
        if notes_of(files.last()).len() > 0 {
            rest.push(files.last())
        } else {
            rest
        }
    }
}

/// Notes, one on each line, indented.
pub open spec fn note_lines(notes: Seq<Seq<char>>) -> Seq<char>
    decreases notes.len(),
{
    if notes.len() == 0 {
        Seq::empty()
    } else {
        note_lines(notes.drop_last()) + "      "@ + notes.last() + "\n"@
    }
}

/// The first `n` files that carry notes: each by its name, with its notes below.
pub open spec fn noted_lines(files: Seq<Scanned>, n: nat) -> Seq<char>
    decreases n,
{
    if n == 0 || n > files.len() {
        Seq::empty()
    } else {
        noted_lines(files, (n - 1) as nat) + "  "@ + cut(files[n - 1].file_name(), 76) + "\n"@
            + note_lines(notes_of(files[n - 1]))
    }
}

/// The lesser of two numbers.
pub open spec fn at_most(n: nat, limit: nat) -> nat {
    if n < limit {
        n
    } else {
        limit
    }
}

/// The first `n` directories that could not be read, each with the reason.
pub open spec fn unreadable_lines(u: Seq<(Seq<char>, Seq<char>)>, n: nat) -> Seq<char>
    decreases n,
{
    if n == 0 || n > u.len() {
        Seq::empty()
    } else {
        unreadable_lines(u, (n - 1) as nat) + "  "@ + u[n - 1].0 + " — "@ + u[n - 1].1 + "\n"@
    }
}

/// The counts that begin a scan's report.
pub open spec fn scan_head(f: Found) -> Seq<char> {
    "library\n  "@ + dec(kind_count(f.files, MediaKind::Video)) + " video, "@ + dec(
        kind_count(f.files, MediaKind::Audio),
    ) + " audio, "@ + dec(kind_count(f.files, MediaKind::Subtitle))
        + " sidecar subtitle files\n  "@ + dec(grouped(f.files, f.files.len()).len())
        + " logical items, "@ + size_shown(playable_bytes(f.files) as u64) + " total\n"@
}

/// What a scan's report says of samples, of a limit, and of containers.
pub open spec fn scan_remarks(f: Found) -> Seq<char> {
    let samples = if f.skipped > 0 {
        "  "@ + dec(f.skipped) + " sample clips skipped (--include-samples to keep them)\n"@
    } else {
        Seq::empty()
    };
    let limited = if f.truncated {
        samples + "  NOTE: --limit cut this scan short; this is not the whole library\n"@
    } else {
        samples
    };
    let names = container_names(f.files);
    if names.len() > 0 {
        limited + "  containers: "@ + summary(names) + "\n"@
    } else {
        limited
    }
}

/// What a scan's report says of files that carry notes.
pub open spec fn scan_notes(f: Found) -> Seq<char> {
    let flagged = noted(f.files);
    if flagged.len() == 0 {
        Seq::empty()
    } else {
        let listed = "\nneeds a look ("@ + dec(flagged.len()) + ")\n"@ + noted_lines(
            flagged,
            at_most(flagged.len(), 40),
        );
        if flagged.len() > 40 {
            listed + "  ... and "@ + dec((flagged.len() - 40) as nat) + " more (--json for all)\n"@
        } else {
            listed
        }
    }
}

/// What a scan's report says of directories that could not be read.
pub open spec fn scan_unreadable(f: Found) -> Seq<char> {
    if f.unreadable.len() == 0 {
        Seq::empty()
    } else {
        "\nunreadable ("@ + dec(f.unreadable.len()) + ")\n"@ + unreadable_lines(
            f.unreadable,
            at_most(f.unreadable.len(), 10),
        )
    }
}

/// What a scan found, for the console.
pub open spec fn scan_report(f: Found) -> Seq<char> {
    scan_head(f) + scan_remarks(f) + scan_notes(f) + scan_unreadable(f)
}

fn head_text(scan: &Scan) -> (r: String)
    requires
        playable_bytes(scan.content().files) <= u64::MAX,
    ensures
        r@ == scan_head(scan.content()),
{
    let items = group(scan);
    assert(items@.len() == grouped(scan.content().files, scan.content().files.len()).len());
    let mut s = owned("library\n  ");
    s.append(dec_text(count_kind(&scan.files, MediaKind::Video) as u128).as_str());
    s.append(" video, ");
    s.append(dec_text(count_kind(&scan.files, MediaKind::Audio) as u128).as_str());
    s.append(" audio, ");
    s.append(dec_text(count_kind(&scan.files, MediaKind::Subtitle) as u128).as_str());
    s.append(" sidecar subtitle files\n  ");
    s.append(dec_text(items.len() as u128).as_str());
    s.append(" logical items, ");
    s.append(human_size(sum_playable(&scan.files)).as_str());
    s.append(" total\n");
    s
}

fn remarks_text(scan: &Scan) -> (r: String)
    ensures
        r@ == scan_remarks(scan.content()),
{
    let mut s = String::new();
    if scan.skipped_samples > 0 {
        s = owned("  ");
        s.append(dec_text(scan.skipped_samples as u128).as_str());
        s.append(" sample clips skipped (--include-samples to keep them)\n");
    }
    if scan.truncated {
        s.append("  NOTE: --limit cut this scan short; this is not the whole library\n");
    }
    let names = names_of_containers(&scan.files);
    assert(container_names(scan.content().files).len() == names@.len());
    if names.len() > 0 {
        s.append("  containers: ");
        s.append(summary_text(&names).as_str());
        s.append("\n");
    }
    s
}

fn append_notes(s: &mut String, notes: &Vec<String>)
    ensures
        final(s)@ == old(s)@ + note_lines(views(notes@)),
{
    let ghost start = s@;
    let ghost all = views(notes@);
    let mut i: usize = 0;
    assert(all.take(0) =~= Seq::<Seq<char>>::empty());
    assert(start + Seq::<char>::empty() =~= start);
    while i < notes.len()
        invariant
            i <= notes@.len(),
            all == views(notes@),
            s@ == start + note_lines(all.take(i as int)),
        decreases notes@.len() - i,
    {
        proof {
            assert(all.take(i as int + 1).drop_last() =~= all.take(i as int));
            assert(all.take(i as int + 1).last() == notes@[i as int]@);
        }
        s.append("      ");
        s.append(notes[i].as_str());
        s.append("\n");
        i += 1;
        assert(s@ =~= start + note_lines(all.take(i as int)));
    }
    assert(all.take(i as int) =~= all);
}

fn notes_text(scan: &Scan) -> (r: String)
    requires
        scan.wf(),
    ensures
        r@ == scan_notes(scan.content()),
{
    let ghost all = contents(scan.files@);
    let mut flagged: Vec<usize> = Vec::new();
    let mut i: usize = 0;
    assert(all.take(0) =~= Seq::<Scanned>::empty());
    let ghost mut seen: Seq<Scanned> = Seq::empty();
    while i < scan.files.len()
        invariant
            i <= scan.files@.len(),
            scan.wf(),
            all == contents(scan.files@),
            seen == noted(all.take(i as int)),
            seen.len() == flagged@.len(),
            forall|k: int|
                0 <= k < flagged@.len() ==> #[trigger] flagged@[k] < scan.files@.len() && seen[k]
                    == all[flagged@[k] as int],
        decreases scan.files@.len() - i,
    {
        proof {
            assert(all.take(i as int + 1).drop_last() =~= all.take(i as int));
            assert(all.take(i as int + 1).last() == scan.files@[i as int].content());
            assert(contents(scan.files@)[i as int].wf());
        }
        let notes = scan.files[i].notes();
        assert(notes_of(all[i as int]).len() == notes@.len());
        if notes.len() > 0 {
            flagged.push(i);
            proof {
                seen = seen.push(all[i as int]);
            }
        }
        i += 1;
    }
    assert(all.take(i as int) =~= all);
    let total: usize = flagged.len();
    if total == 0 {
        return String::new();
    }
    let mut s = owned("\nneeds a look (");
    s.append(dec_text(total as u128).as_str());
    s.append(")\n");
    let ghost head = s@;
    let shown: usize = if total < 40 {
        total
    } else {
        40
    };
    let mut k: usize = 0;
    assert(head + noted_lines(seen, 0) =~= head);
    while k < shown
        invariant
            k <= shown <= flagged@.len(),
            scan.wf(),
            all == contents(scan.files@),
            seen.len() == flagged@.len(),
            forall|j: int|
                0 <= j < flagged@.len() ==> #[trigger] flagged@[j] < scan.files@.len() && seen[j]
                    == all[flagged@[j] as int],
            s@ == head + noted_lines(seen, k as nat),
        decreases shown - k,
    {
        let at: usize = flagged[k];
        assert(flagged@[k as int] < scan.files@.len());
        let f = &scan.files[at];
        assert(all[at as int] == f.content());
        assert(contents(scan.files@)[at as int].wf());
        let ghost had = noted_lines(seen, k as nat);
        s.append("  ");
        s.append(ellipsize(f.file_name().as_str(), 76).as_str());
        s.append("\n");
        let notes = f.notes();
        append_notes(&mut s, &notes);
        k += 1;
        assert(s@ =~= head + noted_lines(seen, k as nat));
    }
    if total > 40 {
        s.append("  ... and ");
        s.append(dec_text((total - 40) as u128).as_str());
        s.append(" more (--json for all)\n");
    }
    s
}

fn unreadable_text(scan: &Scan) -> (r: String)
    ensures
        r@ == scan_unreadable(scan.content()),
{
    let ghost u = scan.content().unreadable;
    let total: usize = scan.unreadable.len();
    assert(u.len() == total);
    if total == 0 {
        return String::new();
    }
    let mut s = owned("\nunreadable (");
    s.append(dec_text(total as u128).as_str());
    s.append(")\n");
    let ghost head = s@;
    let shown: usize = if total < 10 {
        total
    } else {
        10
    };
    let mut k: usize = 0;
    assert(head + unreadable_lines(u, 0) =~= head);
    while k < shown
        invariant
            k <= shown <= scan.unreadable@.len(),
            u == scan.content().unreadable,
            s@ == head + unreadable_lines(u, k as nat),
        decreases shown - k,
    {
        assert(u[k as int] == (scan.unreadable@[k as int].0@, scan.unreadable@[k as int].1@));
        s.append("  ");
        s.append(scan.unreadable[k].0.as_str());
        s.append(" — ");
        s.append(scan.unreadable[k].1.as_str());
        s.append("\n");
        k += 1;
        assert(s@ =~= head + unreadable_lines(u, k as nat));
    }
    s
}

/// What a scan found, before anything is played.
pub fn render_scan(scan: &Scan) -> (r: String)
    requires
        scan.wf(),
        playable_bytes(scan.content().files) <= u64::MAX,
    ensures
        r@ == scan_report(scan.content()),
{
    let mut s = head_text(scan);
    s.append(remarks_text(scan).as_str());
    s.append(notes_text(scan).as_str());
    s.append(unreadable_text(scan).as_str());
    s
}

/// An item's line: its title, then its season or how many files it has.
pub open spec fn item_line(g: Group) -> Seq<char> {
    let head = g.title + year_suffix(g.key.year);
    match g.key.season {
        Some(n) => head + " — season "@ + dec(n as nat) + ", "@ + dec(g.files.len()) + " episodes"@,
        None => if g.files.len() > 1 {
            head + " — "@ + dec(g.files.len()) + " files"@
        } else {
            head
        },
    }
}

/// The lines of the first `n` items.
pub open spec fn item_lines(g: Seq<Group>, n: nat) -> Seq<char>
    decreases n,
{
    if n == 0 || n > g.len() {
        Seq::empty()
    } else {
        item_lines(g, (n - 1) as nat) + "  "@ + cut(item_line(g[n - 1]), 90) + "\n"@
    }
}

/// The collection, grouped, for the console.
pub open spec fn items_report(files: Seq<Scanned>) -> Seq<char> {
    let g = grouped(files, files.len());
    "items ("@ + dec(g.len()) + ")\n"@ + item_lines(g, g.len())
}

fn item_text(it: &Item, Ghost(g): Ghost<Group>) -> (r: String)
    requires
        is_group(*it, g),
    ensures
        r@ == item_line(g),
{
    let mut line = it.title.clone();
    line.append(year_suffix_text(it.year).as_str());
    match it.season {
        Some(n) => {
            line.append(" — season ");
            line.append(dec_text(n as u128).as_str());
            line.append(", ");
            line.append(dec_text(it.files.len() as u128).as_str());
            line.append(" episodes");
        },
        None => {
            if it.files.len() > 1 {
                line.append(" — ");
                line.append(dec_text(it.files.len() as u128).as_str());
                line.append(" files");
            }
        },
    }
    line
}

/// The collection, grouped.
pub fn render_items(scan: &Scan) -> (r: String)
    ensures
        r@ == items_report(scan.content().files),
{
    let items = group(scan);
    let ghost g = grouped(scan.content().files, scan.content().files.len());
    assert(items@.len() == g.len());
    let mut s = owned("items (");
    s.append(dec_text(items.len() as u128).as_str());
    s.append(")\n");
    let ghost head = s@;
    let mut i: usize = 0;
    assert(head + item_lines(g, 0) =~= head);
    while i < items.len()
        invariant
            i <= items@.len(),
            are_groups(items@, g),
            s@ == head + item_lines(g, i as nat),
        decreases items@.len() - i,
    {
        assert(is_group(items@[i as int], g[i as int]));
        let line = item_text(&items[i], Ghost(g[i as int]));
        s.append("  ");
        s.append(ellipsize(line.as_str(), 90).as_str());
        s.append("\n");
        i += 1;
        assert(s@ =~= head + item_lines(g, i as nat));
    }
    s
}

/// The texts that are there, in order.
pub open spec fn present(parts: Seq<Option<Seq<char>>>) -> Seq<Seq<char>>
    decreases parts.len(),
{
    if parts.len() == 0 {
        Seq::empty()
    } else {
        match parts.last() {
            Some(p) => present(parts.drop_last()).push(p),
            None => present(parts.drop_last()),
        }
    }
}

fn keep_present(parts: &Vec<Option<String>>) -> (r: Vec<String>)
    ensures
        views(r@) == present(Seq::new(parts@.len(), |i: int| opt_view(parts@[i]))),
{
    let ghost all = Seq::new(parts@.len(), |i: int| opt_view(parts@[i]));
    let mut out: Vec<String> = Vec::new();
    let mut i: usize = 0;
    assert(all.take(0) =~= Seq::<Option<Seq<char>>>::empty());
    assert(views(out@) =~= Seq::<Seq<char>>::empty());
    while i < parts.len()
        invariant
            i <= parts@.len(),
            all == Seq::new(parts@.len(), |i: int| opt_view(parts@[i])),
            views(out@) == present(all.take(i as int)),
        decreases parts@.len() - i,
    {
        let ghost had = views(out@);
        proof {
            assert(all.take(i as int + 1).drop_last() =~= all.take(i as int));
            assert(all.take(i as int + 1).last() == opt_view(parts@[i as int]));
        }
        match &parts[i] {
            Some(p) => {
                out.push(p.clone());
                assert(views(out@) =~= had.push(p@));
            },
            None => {},
        }
        i += 1;
    }
    assert(all.take(i as int) =~= all);
    out
}

/// What a file turned out to be, as far as it is known.
pub open spec fn traits_of(r: FileResult) -> Seq<char> {
    join(
        present(
            seq![
                r.size_text(),
                opt_view(r.video_codec),
                opt_view(r.audio_codec),
                if r.hdr() {
                    Some(upper(r.gamma->0@))
                } else {
                    None
                },
                match r.hwdec {
                    Some(h) => if h@ == "no"@ {
                        None
                    } else {
                        Some("hw:"@ + h@)
                    },
                    None => None,
                },
            ],
        ),
        " "@,
    )
}

/// One file's line as it plays.
pub open spec fn progress_line(r: FileResult, n: usize, total: usize) -> Seq<char> {
    let head = "["@ + dec(n as nat) + "/"@ + dec(total as nat) + "] "@;
    match r.outcome {
        Outcome::Failed(why) => head + "FAILED  "@ + cut(r.label@, 60) + "\n          "@ + why@,
        _ => head + cut(r.label@, 50) + "  "@ + traits_of(r),
    }
}

fn copied(s: &Option<String>) -> (r: Option<String>)
    ensures
        opt_view(r) == opt_view(*s),
{
    match s {
        Some(t) => Some(t.clone()),
        None => None,
    }
}

/// One line for each file as it plays.
pub fn render_progress(r: &FileResult, n: usize, total: usize) -> (out: String)
    ensures
        out@ == progress_line(*r, n, total),
{
    let mut s = owned("[");
    s.append(dec_text(n as u128).as_str());
    s.append("/");
    s.append(dec_text(total as u128).as_str());
    s.append("] ");
    match &r.outcome {
        Outcome::Failed(why) => {
            s.append("FAILED  ");
            s.append(ellipsize(r.label.as_str(), 60).as_str());
            s.append("\n          ");
            s.append(why.as_str());
        },
        _ => {
            let curve = if r.is_hdr() {
                match &r.gamma {
                    Some(g) => Some(upper_text(g.as_str())),
                    None => None,
                }
            } else {
                None
            };
            let decoder = match &r.hwdec {
                Some(h) => if same(h.as_str(), "no") {
                    None
                } else {
                    let mut t = owned("hw:");
                    t.append(h.as_str());
                    Some(t)
                },
                None => None,
            };
            let parts = vec![
                r.resolution(),
                copied(&r.video_codec),
                copied(&r.audio_codec),
                curve,
                decoder,
            ];
            let words = keep_present(&parts);
            assert(Seq::new(parts@.len(), |i: int| opt_view(parts@[i])) =~= seq![
                r.size_text(),
                opt_view(r.video_codec),
                opt_view(r.audio_codec),
                if r.hdr() {
                    Some(upper(r.gamma->0@))
                } else {
                    None
                },
                match r.hwdec {
                    Some(h) => if h@ == "no"@ {
                        None
                    } else {
                        Some("hw:"@ + h@)
                    },
                    None => None,
                },
            ]);
            s.append(ellipsize(r.label.as_str(), 50).as_str());
            s.append("  ");
            s.append(join_text(&words, " ").as_str());
        },
    }
    s
}

/// The counts that begin a session's report.
pub open spec fn session_head(rep: SessionReport) -> Seq<char> {
    let r = rep.results@;
    let counts = "\nresult\n  "@ + dec(count_of(r, is_played())) + "/"@ + dec(r.len()) + " played, "@
        + dec(count_of(r, is_failed())) + " failed, "@ + dec(count_of(r, is_unreached()))
        + " not reached, "@ + time_shown(rep.elapsed_s) + " elapsed\n"@;
    let named = match rep.mpv_version {
        Some(v) => counts + "  "@ + v@ + (match rep.vo_used {
            Some(vo) => "  vo="@ + vo@,
            None => Seq::empty(),
        }) + "\n"@,
        None => counts,
    };
    if rep.ended_early {
        named + "  NOTE: mpv exited before the playlist finished; the remainder is untested\n"@
    } else {
        named
    }
}

/// The lines on the first `n` of the results at the given places, one text for each.
pub open spec fn result_lines(
    r: Seq<FileResult>,
    at: Seq<int>,
    n: nat,
    line: spec_fn(FileResult) -> Seq<char>,
) -> Seq<char>
    decreases n,
{
    if n == 0 || n > at.len() {
        Seq::empty()
    } else {
        result_lines(r, at, (n - 1) as nat, line) + line(r[at[n - 1]])
    }
}

/// The lines on a file that failed: its path, and why.
pub open spec fn failed_line() -> spec_fn(FileResult) -> Seq<char> {
    |r: FileResult|
        "  "@ + r.path@ + "\n"@ + match r.outcome {
            Outcome::Failed(why) => "      "@ + why@ + "\n"@,
            _ => Seq::empty(),
        }
}

/// The line on a file that was decoded in software.
pub open spec fn software_line() -> spec_fn(FileResult) -> Seq<char> {
    |r: FileResult|
        "  "@ + cut(r.label@, 56) + "  "@ + join(
            present(seq![r.size_text(), opt_view(r.video_codec)]),
            " "@,
        ) + "\n"@
}

/// The line on a file that cannot be navigated.
pub open spec fn stuck_line() -> spec_fn(FileResult) -> Seq<char> {
    |r: FileResult| "  "@ + cut(r.label@, 66) + "\n"@
}

/// The line on a file with late frames.
pub open spec fn late_line() -> spec_fn(FileResult) -> Seq<char> {
    |r: FileResult|
        "  "@ + cut(r.label@, 50) + "  "@ + dec(
            match r.delayed_frames {
                Some(n) => n as nat,
                None => 0,
            },
        ) + " late over "@ + time_shown(r.seconds_played) + "\n"@
}

/// What a session's report says of results that share a property: how many there are, a line on
/// each of the first few, and how many more there are. Nothing when there is none.
pub open spec fn section(
    r: Seq<FileResult>,
    at: Seq<int>,
    title: (Seq<char>, Seq<char>),
    line: spec_fn(FileResult) -> Seq<char>,
    limit: Option<nat>,
    counts_rest: bool,
) -> Seq<char> {
    if at.len() == 0 {
        Seq::empty()
    } else {
        let shown = match limit {
            Some(l) => at_most(at.len(), l),
            None => at.len(),
        };
        let listed = title.0 + dec(at.len()) + title.1 + result_lines(r, at, shown, line);
        if counts_rest && shown < at.len() {
            listed + "  ... and "@ + dec((at.len() - shown) as nat) + " more\n"@
        } else {
            listed
        }
    }
}

/// The video codecs of the files that played, in order.
pub open spec fn played_codecs(r: Seq<FileResult>) -> Seq<Seq<char>>
    decreases r.len(),
{
    if r.len() == 0 {
        Seq::empty()
    } else {
        let rest = played_codecs(r.drop_last());
        match (r.last().outcome, r.last().video_codec) {
            (Outcome::Played, Some(c)) => rest.push(c@),
            _ => rest,
        }
    }
}

/// What a session's report says of the codecs that played.
pub open spec fn codecs_section(r: Seq<FileResult>) -> Seq<char> {
    let names = played_codecs(r);
    if names.len() > 0 {
        "\nvideo codecs played: "@ + summary(names) + "\n"@
    } else {
        Seq::empty()
    }
}

/// The verdict on a whole run, for the console.
pub open spec fn session_report(rep: SessionReport) -> Seq<char> {
    let r = rep.results@;
    session_head(rep) + section(
        r,
        those(r, is_failed()),
        ("\nfailed ("@, ")\n"@),
        failed_line(),
        None,
        false,
    ) + section(
        r,
        those(r, is_software()),
        ("\nsoftware decoded ("@, ") — played, but with no hardware decoder\n"@),
        software_line(),
        Some(20),
        true,
    ) + section(
        r,
        those(r, is_stuck()),
        (
            "\nnot seekable ("@,
            ") — plays, but cannot be navigated (missing or broken index)\n"@,
        ),
        stuck_line(),
        Some(20),
        true,
    ) + codecs_section(r) + section(
        r,
        those(r, is_late()),
        ("\nlate frames ("@, " files)\n"@),
        late_line(),
        Some(15),
        false,
    )
}

fn session_head_text(rep: &SessionReport) -> (out: String)
    ensures
        out@ == session_head(*rep),
{
    let mut s = owned("\nresult\n  ");
    s.append(dec_text(rep.played() as u128).as_str());
    s.append("/");
    s.append(dec_text(rep.results.len() as u128).as_str());
    s.append(" played, ");
    s.append(dec_text(rep.which(Which::Failed).len() as u128).as_str());
    s.append(" failed, ");
    s.append(dec_text(rep.not_reached() as u128).as_str());
    s.append(" not reached, ");
    s.append(human_duration(rep.elapsed_s).as_str());
    s.append(" elapsed\n");
    match &rep.mpv_version {
        Some(v) => {
            s.append("  ");
            s.append(v.as_str());
            let mut vo = String::new();
            match &rep.vo_used {
                Some(n) => {
                    vo = owned("  vo=");
                    vo.append(n.as_str());
                },
                None => {},
            }
            s.append(vo.as_str());
            s.append("\n");
        },
        None => {},
    }
    if rep.ended_early {
        s.append("  NOTE: mpv exited before the playlist finished; the remainder is untested\n");
    }
    s
}

/// The line on a result, in the section on a property.
pub open spec fn line_for(w: Which) -> spec_fn(FileResult) -> Seq<char> {
    match w {
        Which::Failed => failed_line(),
        Which::Software => software_line(),
        Which::Unseekable => stuck_line(),
        _ => late_line(),
    }
}

fn line_text(w: Which, r: &FileResult) -> (out: String)
    ensures
        out@ == line_for(w)(*r),
{
    let mut s = owned("  ");
    match w {
        Which::Failed => {
            s.append(r.path.as_str());
            s.append("\n");
            let mut reason = String::new();
            match &r.outcome {
                Outcome::Failed(why) => {
                    reason = owned("      ");
                    reason.append(why.as_str());
                    reason.append("\n");
                },
                _ => {},
            }
            s.append(reason.as_str());
        },
        Which::Software => {
            let parts = vec![r.resolution(), copied(&r.video_codec)];
            let words = keep_present(&parts);
            assert(Seq::new(parts@.len(), |i: int| opt_view(parts@[i])) =~= seq![
                r.size_text(),
                opt_view(r.video_codec),
            ]);
            s.append(ellipsize(r.label.as_str(), 56).as_str());
            s.append("  ");
            s.append(join_text(&words, " ").as_str());
            s.append("\n");
        },
        Which::Unseekable => {
            s.append(ellipsize(r.label.as_str(), 66).as_str());
            s.append("\n");
        },
        _ => {
            s.append(ellipsize(r.label.as_str(), 50).as_str());
            s.append("  ");
            let n: u64 = match r.delayed_frames {
                Some(n) => n,
                None => 0,
            };
            s.append(dec_text(n as u128).as_str());
            s.append(" late over ");
            s.append(human_duration(r.seconds_played).as_str());
            s.append("\n");
        },
    }
    s
}

fn section_text(
    rep: &SessionReport,
    w: Which,
    before: &str,
    after: &str,
    limit: Option<usize>,
    counts_rest: bool,
) -> (out: String)
    ensures
        out@ == section(
            rep.results@,
            those(rep.results@, w.property()),
            (before@, after@),
            line_for(w),
            match limit {
                Some(l) => Some(l as nat),
                None => None,
            },
            counts_rest,
        ),
{
    let list = rep.which(w);
    let ghost at = those(rep.results@, w.property());
    assert(crate::scan::index_view(list@).len() == list@.len());
    let total: usize = list.len();
    if total == 0 {
        return String::new();
    }
    let shown: usize = match limit {
        Some(l) => if total < l {
            total
        } else {
            l
        },
        None => total,
    };
    let mut s = owned(before);
    s.append(dec_text(total as u128).as_str());
    s.append(after);
    let ghost head = s@;
    let mut k: usize = 0;
    assert(head + result_lines(rep.results@, at, 0, line_for(w)) =~= head);
    while k < shown
        invariant
            k <= shown <= list@.len(),
            at.len() == list@.len(),
            crate::scan::index_view(list@) == at,
            forall|i: int| 0 <= i < list@.len() ==> #[trigger] list@[i] < rep.results@.len(),
            s@ == head + result_lines(rep.results@, at, k as nat, line_for(w)),
        decreases shown - k,
    {
        assert(list@[k as int] < rep.results@.len());
        assert(at[k as int] == list@[k as int] as int);
        let line = line_text(w, &rep.results[list[k]]);
        s.append(line.as_str());
        k += 1;
        assert(s@ =~= head + result_lines(rep.results@, at, k as nat, line_for(w)));
    }
    if counts_rest && shown < total {
        s.append("  ... and ");
        s.append(dec_text((total - shown) as u128).as_str());
        s.append(" more\n");
    }
    s
}

fn codecs_text(rep: &SessionReport) -> (out: String)
    ensures
        out@ == codecs_section(rep.results@),
{
    let ghost all = rep.results@;
    let mut names: Vec<String> = Vec::new();
    let mut i: usize = 0;
    assert(all.take(0) =~= Seq::<FileResult>::empty());
    assert(views(names@) =~= Seq::<Seq<char>>::empty());
    while i < rep.results.len()
        invariant
            i <= rep.results@.len(),
            all == rep.results@,
            views(names@) == played_codecs(all.take(i as int)),
        decreases rep.results@.len() - i,
    {
        let ghost had = views(names@);
        proof {
            assert(all.take(i as int + 1).drop_last() =~= all.take(i as int));
            assert(all.take(i as int + 1).last() == all[i as int]);
        }
        if rep.results[i].outcome.is_played() {
            match &rep.results[i].video_codec {
                Some(c) => {
                    names.push(c.clone());
                    assert(views(names@) =~= had.push(c@));
                },
                None => {},
            }
        }
        i += 1;
    }
    assert(all.take(i as int) =~= all);
    assert(played_codecs(all).len() == names@.len());
    if names.len() == 0 {
        return String::new();
    }
    let mut s = owned("\nvideo codecs played: ");
    s.append(summary_text(&names).as_str());
    s.append("\n");
    s
}

/// The verdict on a whole run.
pub fn render_session(rep: &SessionReport) -> (r: String)
    ensures
        r@ == session_report(*rep),
{
    let mut s = session_head_text(rep);
    s.append(section_text(rep, Which::Failed, "\nfailed (", ")\n", None, false).as_str());
    s.append(
        section_text(
            rep,
            Which::Software,
            "\nsoftware decoded (",
            ") — played, but with no hardware decoder\n",
            Some(20),
            true,
        ).as_str(),
    );
    s.append(
        section_text(
            rep,
            Which::Unseekable,
            "\nnot seekable (",
            ") — plays, but cannot be navigated (missing or broken index)\n",
            Some(20),
            true,
        ).as_str(),
    );
    s.append(codecs_text(rep).as_str());
    s.append(section_text(rep, Which::Late, "\nlate frames (", " files)\n", Some(15), false).as_str());
    s
}

/// A length of time reads back: hours, minutes and seconds, or minutes and seconds, of which the
/// latter are below sixty and written with two digits, come to the whole seconds.
pub proof fn times_read_back(m: Measure)
    requires
        m.positive(),
    ensures
        m.whole_part() >= 3600 ==> exists|a: Seq<char>, b: Seq<char>, c: Seq<char>|
            time_shown(m) == #[trigger] a.add(":"@).add(b).add(":"@).add(c) && digits_value(a) * 3600
                + digits_value(b) * 60 + digits_value(c) == m.whole_part() && digits_value(b) < 60
                && digits_value(c) < 60 && b.len() == 2 && c.len() == 2,
        m.whole_part() < 3600 ==> exists|b: Seq<char>, c: Seq<char>|
            time_shown(m) == #[trigger] b.add(":"@).add(c) && digits_value(b) * 60 + digits_value(c)
                == m.whole_part() && digits_value(c) < 60 && c.len() == 2,
{
    let total = m.whole_part() as nat;
    let h = total / 3600;
    let min = total % 3600 / 60;
    let s = total % 60;
    assert(h * 3600 + min * 60 + s == total && min < 60 && s < 60) by (nonlinear_arith)
        requires
            h == total / 3600,
            min == total % 3600 / 60,
            s == total % 60,
    ;
    crate::json_writer::dec_value(h);
    crate::json_writer::dec_value(min);
    crate::json_writer::dec_value(s);
    crate::number::padding_keeps_the_value(dec(min), 2);
    crate::number::padding_keeps_the_value(dec(s), 2);
    two_digits(min);
    two_digits(s);
    if h > 0 {
        assert(time_shown(m) == dec(h).add(":"@).add(pad0(dec(min), 2)).add(":"@).add(
            pad0(dec(s), 2),
        ));
    } else {
        assert(time_shown(m) == dec(min).add(":"@).add(pad0(dec(s), 2)));
    }
}

proof fn two_digits(n: nat)
    requires
        n < 60,
    ensures
        dec(n).len() <= 2,
{
    if n >= 10 {
        assert(dec(n / 10).len() == 1);
    }
}

/// A size is shown in the greatest unit that it reaches, to the nearest tenth; one below the first
/// unit in whole bytes.
pub proof fn sizes_are_shown_to_the_nearest_tenth(v: nat)
    requires
        v >= 1024,
    ensures
        ({
            let i = unit_index(v);
            let u = unit_bytes(i);
            let t = tenths(v, u);
            &&& 1 <= i <= 4
            &&& u <= v
            &&& i < 4 ==> v < 1024 * u
            &&& 2 * (t * u) <= 2 * (v * 10) + u
            &&& 2 * (v * 10) <= 2 * (t * u) + u
        }),
{
    let u = unit_bytes(unit_index(v));
    let q = v * 10 / u;
    let r = v * 10 % u;
    assert(q * u + r == v * 10 && 0 <= r < u && (q + 1) * u == q * u + u) by (nonlinear_arith)
        requires
            u > 0,
            q == v * 10 / u,
            r == v * 10 % u,
    ;
}

/// A text that fits is shown whole; one that does not keeps its beginning and ends in an ellipsis, and
/// is no longer than the width.
pub proof fn cutting_keeps_the_beginning(s: Seq<char>, width: nat)
    requires
        width > 0,
    ensures
        s.len() <= width ==> cut(s, width) == s,
        cut(s, width).len() <= width,
        s.len() > width ==> cut(s, width).len() == width && cut(s, width).drop_last() == s.take(
            width - 1,
        ) && cut(s, width).last() == '…',
{
    reveal_strlit("…");
    if s.len() > width {
        assert(cut(s, width).drop_last() =~= s.take(width - 1));
    }
}

/// What is counted and listed of files are all the files that have the property, in order: those of a
/// kind, those that carry notes, and one container for each that plays.
pub proof fn files_are_counted(files: Seq<Scanned>, k: MediaKind)
    ensures
        kind_count(files, k) == files.filter(|f: Scanned| f.kind == k).len(),
        noted(files) == files.filter(|f: Scanned| notes_of(f).len() > 0),
        container_names(files) == files.filter(|f: Scanned| f.playable()).map_values(
            |f: Scanned|
                match f.container {
                    Some(c) => c.shown(),
                    None => "unidentified"@,
                },
        ),
    decreases files.len(),
{
    reveal(Seq::filter);
    let plays = |f: Scanned| f.playable();
    let shown = |f: Scanned|
        match f.container {
            Some(c) => c.shown(),
            None => "unidentified"@,
        };
    if files.len() > 0 {
        files_are_counted(files.drop_last(), k);
        let kept = files.drop_last().filter(plays);
        assert(kept.push(files.last()).map_values(shown) =~= kept.map_values(shown).push(
            shown(files.last()),
        ));
    } else {
        assert(files.filter(plays).map_values(shown) =~= Seq::empty());
    }
}

/// The sizes of the playable files add up, and no other file's counts.
pub proof fn playable_sizes_add_up(files: Seq<Scanned>, f: Scanned)
    ensures
        playable_bytes(files.push(f)) == playable_bytes(files) + (if f.kind == MediaKind::Video
            || f.kind == MediaKind::Audio {
            f.size as nat
        } else {
            0
        }),
        playable_bytes(Seq::empty()) == 0,
{
    assert(files.push(f).drop_last() =~= files);
}

/// A scan's report begins with how many videos, how many sound files and how many subtitles there are,
/// in this order, and a session's with how many files played of how many, failed and were not reached.
pub proof fn reports_begin_with_the_counts(f: Found, rep: SessionReport)
    ensures
        ("library\n  "@ + dec(f.files.filter(|x: Scanned| x.kind == MediaKind::Video).len())
            + " video, "@ + dec(f.files.filter(|x: Scanned| x.kind == MediaKind::Audio).len())
            + " audio, "@ + dec(f.files.filter(|x: Scanned| x.kind == MediaKind::Subtitle).len())
            + " sidecar subtitle files\n"@).is_prefix_of(scan_report(f)),
        ("\nresult\n  "@ + dec(
            rep.results@.filter(|r: FileResult| r.outcome is Played).len(),
        ) + "/"@ + dec(rep.results@.len()) + " played, "@ + dec(
            rep.results@.filter(|r: FileResult| r.outcome is Failed).len(),
        ) + " failed, "@ + dec(
            rep.results@.filter(|r: FileResult| r.outcome is NotReached).len(),
        ) + " not reached, "@ + time_shown(rep.elapsed_s) + " elapsed\n"@).is_prefix_of(
            session_report(rep),
        ),
{
    files_are_counted(f.files, MediaKind::Video);
    files_are_counted(f.files, MediaKind::Audio);
    files_are_counted(f.files, MediaKind::Subtitle);
    reveal_strlit(" sidecar subtitle files\n  ");
    reveal_strlit(" sidecar subtitle files\n");
    let a = "library\n  "@ + dec(kind_count(f.files, MediaKind::Video)) + " video, "@ + dec(
        kind_count(f.files, MediaKind::Audio),
    ) + " audio, "@ + dec(kind_count(f.files, MediaKind::Subtitle))
        + " sidecar subtitle files\n"@;
    assert(" sidecar subtitle files\n  "@ =~= " sidecar subtitle files\n"@ + seq![' ', ' ']);
    assert(scan_report(f).subrange(0, a.len() as int) =~= a);
    let r = rep.results@;
    crate::session::those_are_all(r, is_played());
    crate::session::those_are_all(r, is_failed());
    crate::session::those_are_all(r, is_unreached());
    assert(is_played() =~= (|r: FileResult| r.outcome is Played));
    assert(is_failed() =~= (|r: FileResult| r.outcome is Failed));
    assert(is_unreached() =~= (|r: FileResult| r.outcome is NotReached));
    let b = "\nresult\n  "@ + dec(count_of(r, is_played())) + "/"@ + dec(r.len()) + " played, "@
        + dec(count_of(r, is_failed())) + " failed, "@ + dec(count_of(r, is_unreached()))
        + " not reached, "@ + time_shown(rep.elapsed_s) + " elapsed\n"@;
    assert(session_head(rep).subrange(0, b.len() as int) =~= b);
    assert(session_report(rep).subrange(0, b.len() as int) =~= b);
}

/// A section is there exactly where there is something to show, and names how many there are.
pub proof fn sections_name_their_number(
    r: Seq<FileResult>,
    at: Seq<int>,
    title: (Seq<char>, Seq<char>),
    line: spec_fn(FileResult) -> Seq<char>,
    limit: Option<nat>,
    counts_rest: bool,
)
    ensures
        at.len() == 0 ==> section(r, at, title, line, limit, counts_rest).len() == 0,
        at.len() > 0 ==> (title.0 + dec(at.len()) + title.1).is_prefix_of(
            section(r, at, title, line, limit, counts_rest),
        ),
        at.len() > 0 && limit is None ==> section(r, at, title, line, limit, counts_rest)
            == title.0 + dec(at.len()) + title.1 + result_lines(r, at, at.len(), line),
{
    if at.len() > 0 {
        let all = section(r, at, title, line, limit, counts_rest);
        let head = title.0 + dec(at.len()) + title.1;
        assert(all.subrange(0, head.len() as int) =~= head);
    }
}

/// One file's line names its place among all, and what failed is marked so with the reason.
pub proof fn progress_names_the_place(r: FileResult, n: usize, total: usize)
    ensures
        ("["@ + dec(n as nat) + "/"@ + dec(total as nat) + "] "@).is_prefix_of(
            progress_line(r, n, total),
        ),
        match r.outcome {
            Outcome::Failed(why) => why@.is_suffix_of(progress_line(r, n, total)),
            _ => traits_of(r).is_suffix_of(progress_line(r, n, total)),
        },
{
    let all = progress_line(r, n, total);
    let head = "["@ + dec(n as nat) + "/"@ + dec(total as nat) + "] "@;
    assert(all.subrange(0, head.len() as int) =~= head);
    match r.outcome {
        Outcome::Failed(why) => {
            assert(all.subrange(all.len() - why@.len(), all.len() as int) =~= why@);
        },
        _ => {
            let t = traits_of(r);
            assert(all.subrange(all.len() - t.len(), all.len() as int) =~= t);
        },
    }
}

/// A size reads back: below the first unit its bytes exactly, above it the tenths of the unit named that
/// are nearest to it. The unit named is the greatest that the size reaches.
pub proof fn sizes_read_back(bytes: u64, u: nat, unit: Seq<char>)
    requires
        bytes <= 0x20_0000_0000_0000,
        ({
            ||| unit == " KiB"@ && u == 1024 && 1024 <= bytes < 1_048_576
            ||| unit == " MiB"@ && u == 1_048_576 && 1_048_576 <= bytes < 1_073_741_824
            ||| unit == " GiB"@ && u == 1_073_741_824 && 1_073_741_824 <= bytes < 1_099_511_627_776
            ||| unit == " TiB"@ && u == 1_099_511_627_776 && bytes >= 1_099_511_627_776
        }),
    ensures
        exists|a: Seq<char>, b: Seq<char>| #[trigger]
            a.add("."@).add(b).add(unit) == size_shown(bytes) && ({
                let n = digits_value(a) * 10 + digits_value(b);
                2 * (n * u) <= 20 * bytes + u && 20 * bytes <= 2 * (n * u) + u
            }),
{
    crate::json_writer::nearest_of_exact(bytes as nat);
    sizes_are_shown_to_the_nearest_tenth(bytes as nat);
    let t = tenths(bytes as nat, u);
    assert(unit_bytes(unit_index(bytes as nat)) == u);
    crate::json_writer::dec_value(t / 10);
    crate::json_writer::dec_value(t % 10);
    assert(size_shown(bytes) == dec(t / 10).add("."@).add(dec(t % 10)).add(unit));
    assert((t / 10) * 10 + t % 10 == t);
}

/// A few bytes are shown as they are.
pub proof fn bytes_read_back(bytes: u64)
    requires
        bytes < 1024,
    ensures
        exists|a: Seq<char>| #[trigger]
            a.add(" B"@) == size_shown(bytes) && digits_value(a) == bytes,
{
    crate::json_writer::nearest_of_exact(bytes as nat);
    crate::json_writer::dec_value(bytes as nat);
    assert(dec(bytes as nat).add(" B"@) == size_shown(bytes));
}

/// An item's line begins with its title. One that is a season names the season and counts its episodes,
/// another counts its files where there are several.
pub proof fn items_are_named_and_counted(g: Group)
    ensures
        g.title.is_prefix_of(item_line(g)),
        g.key.season is Some ==> (" — season "@ + dec(g.key.season->0 as nat) + ", "@ + dec(
            g.files.len(),
        ) + " episodes"@).is_suffix_of(item_line(g)),
        g.key.season is None && g.files.len() > 1 ==> (" — "@ + dec(g.files.len())
            + " files"@).is_suffix_of(item_line(g)),
        g.key.season is None && g.files.len() <= 1 && g.key.year is None ==> item_line(g) == g.title,
{
    let l = item_line(g);
    assert(l.subrange(0, g.title.len() as int) =~= g.title);
    if let Some(n) = g.key.season {
        let e = " — season "@ + dec(n as nat) + ", "@ + dec(g.files.len()) + " episodes"@;
        assert(l.subrange(l.len() - e.len(), l.len() as int) =~= e);
    } else if g.files.len() > 1 {
        let e = " — "@ + dec(g.files.len()) + " files"@;
        assert(l.subrange(l.len() - e.len(), l.len() as int) =~= e);
    } else if g.key.year is None {
        assert(l =~= g.title);
    }
}

/// The line on a failure names the path and ends in the reason; that on late frames says how many, and
/// over what time.
pub proof fn faults_are_told_with_their_facts(r: FileResult, why: String, n: u64)
    ensures
        r.outcome == Outcome::Failed(why) ==> ("  "@ + r.path@ + "\n"@).is_prefix_of(failed_line()(r))
            && (why@ + "\n"@).is_suffix_of(failed_line()(r)),
        r.delayed_frames == Some(n) ==> (dec(n as nat) + " late over "@ + time_shown(r.seconds_played)
            + "\n"@).is_suffix_of(late_line()(r)),
        r.label@.len() <= 50 ==> ("  "@ + r.label@).is_prefix_of(late_line()(r)),
        r.label@.len() <= 66 ==> stuck_line()(r) == "  "@ + r.label@ + "\n"@,
{
    let f = failed_line()(r);
    if r.outcome == Outcome::Failed(why) {
        let head = "  "@ + r.path@ + "\n"@;
        let tail = why@ + "\n"@;
        assert(f.subrange(0, head.len() as int) =~= head);
        assert(f.subrange(f.len() - tail.len(), f.len() as int) =~= tail);
    }
    let l = late_line()(r);
    if r.delayed_frames == Some(n) {
        let tail = dec(n as nat) + " late over "@ + time_shown(r.seconds_played) + "\n"@;
        assert(l.subrange(l.len() - tail.len(), l.len() as int) =~= tail);
    }
    if r.label@.len() <= 50 {
        let head = "  "@ + r.label@;
        assert(l.subrange(0, head.len() as int) =~= head);
    }
}

proof fn unreadable_line_is_there(u: Seq<(Seq<char>, Seq<char>)>, n: nat, k: int)
    requires
        0 <= k < n <= u.len(),
    ensures
        exists|p: Seq<char>, q: Seq<char>| #[trigger]
            p.add("  "@ + u[k].0 + " — "@ + u[k].1 + "\n"@).add(q) == unreadable_lines(u, n),
    decreases n,
{
    let line = "  "@ + u[k].0 + " — "@ + u[k].1 + "\n"@;
    let before = unreadable_lines(u, (n - 1) as nat);
    let all = unreadable_lines(u, n);
    if k == n - 1 {
        assert(before.add(line).add(Seq::empty()) =~= all);
    } else {
        unreadable_line_is_there(u, (n - 1) as nat, k);
        let (p, q) = choose|p: Seq<char>, q: Seq<char>| #[trigger] p.add(line).add(q) == before;
        let last = "  "@ + u[n - 1].0 + " — "@ + u[n - 1].1 + "\n"@;
        assert(p.add(line).add(q + last) =~= all);
    }
}

/// A scan's report names the first ten directories that could not be read, each with the reason, and
/// says how many there are.
pub proof fn unreadable_directories_are_named(f: Found, k: int)
    requires
        0 <= k < f.unreadable.len(),
        k < 10,
    ensures
        exists|p: Seq<char>, q: Seq<char>| #[trigger]
            p.add("  "@ + f.unreadable[k].0 + " — "@ + f.unreadable[k].1 + "\n"@).add(q)
                == scan_report(f),
        exists|p: Seq<char>, q: Seq<char>| #[trigger]
            p.add("\nunreadable ("@ + dec(f.unreadable.len()) + ")\n"@).add(q) == scan_report(f),
{
    let n = at_most(f.unreadable.len(), 10);
    let line = "  "@ + f.unreadable[k].0 + " — "@ + f.unreadable[k].1 + "\n"@;
    unreadable_line_is_there(f.unreadable, n, k);
    let (p, q) = choose|p: Seq<char>, q: Seq<char>| #[trigger]
        p.add(line).add(q) == unreadable_lines(f.unreadable, n);
    let title = "\nunreadable ("@ + dec(f.unreadable.len()) + ")\n"@;
    let before = scan_head(f) + scan_remarks(f) + scan_notes(f);
    assert((before + title + p).add(line).add(q) =~= scan_report(f));
    assert(before.add(title).add(unreadable_lines(f.unreadable, n)) =~= scan_report(f));
}

proof fn item_line_is_there(g: Seq<Group>, n: nat, k: int)
    requires
        0 <= k < n <= g.len(),
    ensures
        exists|p: Seq<char>, q: Seq<char>| #[trigger]
            p.add("  "@ + cut(item_line(g[k]), 90) + "\n"@).add(q) == item_lines(g, n),
    decreases n,
{
    let line = "  "@ + cut(item_line(g[k]), 90) + "\n"@;
    let before = item_lines(g, (n - 1) as nat);
    let all = item_lines(g, n);
    if k == n - 1 {
        assert(before.add(line).add(Seq::empty()) =~= all);
    } else {
        item_line_is_there(g, (n - 1) as nat, k);
        let (p, q) = choose|p: Seq<char>, q: Seq<char>| #[trigger] p.add(line).add(q) == before;
        let last = "  "@ + cut(item_line(g[n - 1]), 90) + "\n"@;
        assert(p.add(line).add(q + last) =~= all);
    }
}

/// Every item of a collection has its line in the listing, which begins with how many there are.
pub proof fn every_item_has_its_line(files: Seq<Scanned>, k: int)
    requires
        0 <= k < grouped(files, files.len()).len(),
    ensures
        exists|p: Seq<char>, q: Seq<char>| #[trigger]
            p.add(
                "  "@ + cut(item_line(grouped(files, files.len())[k]), 90) + "\n"@,
            ).add(q) == items_report(files),
        ("items ("@ + dec(grouped(files, files.len()).len()) + ")\n"@).is_prefix_of(
            items_report(files),
        ),
{
    let g = grouped(files, files.len());
    let line = "  "@ + cut(item_line(g[k]), 90) + "\n"@;
    item_line_is_there(g, g.len(), k);
    let (p, q) = choose|p: Seq<char>, q: Seq<char>| #[trigger]
        p.add(line).add(q) == item_lines(g, g.len());
    let title = "items ("@ + dec(g.len()) + ")\n"@;
    assert((title + p).add(line).add(q) =~= items_report(files));
    assert(items_report(files).subrange(0, title.len() as int) =~= title);
}

/// Every result at the places that a section lists has its line there, in the section's own wording.
pub proof fn every_result_has_its_line(
    r: Seq<FileResult>,
    at: Seq<int>,
    n: nat,
    line: spec_fn(FileResult) -> Seq<char>,
    k: int,
)
    requires
        0 <= k < n <= at.len(),
    ensures
        exists|p: Seq<char>, q: Seq<char>| #[trigger]
            p.add(line(r[at[k]])).add(q) == result_lines(r, at, n, line),
    decreases n,
{
    let before = result_lines(r, at, (n - 1) as nat, line);
    let all = result_lines(r, at, n, line);
    if k == n - 1 {
        assert(before.add(line(r[at[k]])).add(Seq::empty()) =~= all);
    } else {
        every_result_has_its_line(r, at, (n - 1) as nat, line, k);
        let (p, q) = choose|p: Seq<char>, q: Seq<char>| #[trigger]
            p.add(line(r[at[k]])).add(q) == before;
        assert(p.add(line(r[at[k]])).add(q + line(r[at[n - 1]])) =~= all);
    }
}

/// Samples that were skipped are counted in a scan's report.
pub proof fn skipped_samples_are_counted(f: Found)
    requires
        f.skipped > 0,
    ensures
        exists|p: Seq<char>, q: Seq<char>| #[trigger]
            p.add(
                "  "@ + dec(f.skipped)
                    + " sample clips skipped (--include-samples to keep them)\n"@,
            ).add(q) == scan_report(f),
{
    let said = "  "@ + dec(f.skipped) + " sample clips skipped (--include-samples to keep them)\n"@;
    let remarks = scan_remarks(f);
    let rest = remarks.skip(said.len() as int);
    assert(remarks =~= said + rest);
    assert(scan_head(f).add(said).add(rest + scan_notes(f) + scan_unreadable(f)) =~= scan_report(f));
}

/// A scan that a limit cut short says so.
pub proof fn a_limit_is_owned_up_to(f: Found)
    requires
        f.truncated,
    ensures
        exists|p: Seq<char>, q: Seq<char>| #[trigger]
            p.add(
                "  NOTE: --limit cut this scan short; this is not the whole library\n"@,
            ).add(q) == scan_report(f),
{
    let said = "  NOTE: --limit cut this scan short; this is not the whole library\n"@;
    let samples = if f.skipped > 0 {
        "  "@ + dec(f.skipped) + " sample clips skipped (--include-samples to keep them)\n"@
    } else {
        Seq::empty()
    };
    let remarks = scan_remarks(f);
    let rest = remarks.skip((samples.len() + said.len()) as int);
    assert(remarks =~= samples + said + rest);
    assert((scan_head(f) + samples).add(said).add(rest + scan_notes(f) + scan_unreadable(f))
        =~= scan_report(f));
}

proof fn what_is_known_is_present(parts: Seq<Option<Seq<char>>>, k: int)
    requires
        0 <= k < parts.len(),
        parts[k] is Some,
    ensures
        present(parts).contains(parts[k]->0),
    decreases parts.len(),
{
    let front = parts.drop_last();
    let all = present(parts);
    if k == parts.len() - 1 {
        assert(all[all.len() - 1] == parts[k]->0);
    } else {
        what_is_known_is_present(front, k);
        let x = front[k]->0;
        let i = choose|i: int| 0 <= i < present(front).len() && present(front)[i] == x;
        assert(all[i] == x);
    }
}

/// Whatever is known of a file that plays is shown: its size, its codecs, that it is HDR and of which
/// kind, and what decodes it.
pub proof fn known_traits_are_shown(r: FileResult, t: Seq<char>)
    requires
        ({
            ||| r.size_text() == Some(t)
            ||| opt_view(r.video_codec) == Some(t)
            ||| opt_view(r.audio_codec) == Some(t)
            ||| r.hdr() && t == upper(r.gamma->0@)
            ||| r.hwdec is Some && r.hwdec->0@ != "no"@ && t == "hw:"@ + r.hwdec->0@
        }),
    ensures
        exists|p: Seq<char>, q: Seq<char>| #[trigger] p.add(t).add(q) == traits_of(r),
{
    let parts: Seq<Option<Seq<char>>> = seq![
        r.size_text(),
        opt_view(r.video_codec),
        opt_view(r.audio_codec),
        if r.hdr() {
            Some(upper(r.gamma->0@))
        } else {
            None
        },
        match r.hwdec {
            Some(h) => if h@ == "no"@ {
                None
            } else {
                Some("hw:"@ + h@)
            },
            None => None,
        },
    ];
    let k: int = if parts[0] == Some(t) {
        0
    } else if parts[1] == Some(t) {
        1
    } else if parts[2] == Some(t) {
        2
    } else if parts[3] == Some(t) {
        3
    } else {
        4
    };
    assert(parts[k] == Some(t));
    what_is_known_is_present(parts, k);
    let shown = present(parts);
    let i = choose|i: int| 0 <= i < shown.len() && shown[i] == t;
    crate::text::joined_parts_are_there(shown, " "@, i);
    assert(traits_of(r) == join(shown, " "@));
}

/// The codecs that a session's report counts are those of the files that played, in order.
pub proof fn only_what_played_is_counted(r: Seq<FileResult>)
    ensures
        played_codecs(r) == r.filter(
            |x: FileResult| x.outcome is Played && x.video_codec is Some,
        ).map_values(|x: FileResult| x.video_codec->0@),
    decreases r.len(),
{
    reveal(Seq::filter);
    let counts = |x: FileResult| x.outcome is Played && x.video_codec is Some;
    let shown = |x: FileResult| x.video_codec->0@;
    if r.len() > 0 {
        only_what_played_is_counted(r.drop_last());
        let front = r.drop_last().filter(counts);
        if counts(r.last()) {
            assert(front.push(r.last()).map_values(shown) =~= front.map_values(shown).push(
                shown(r.last()),
            ));
        }
    } else {
        assert(r.filter(counts).map_values(shown) =~= Seq::empty());
    }
}

} // verus!
