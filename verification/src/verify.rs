//! What a pass over indexed files found: which still hold the bytes they once held.
use vstd::prelude::*;
use vstd::string::*;

use crate::text::{dec, dec_text, owned, pair_views};

verus! {

/// How many days a confirmed file goes without being checked again.
pub const DEFAULT_REVERIFY_DAYS: u64 = 30;

/// How many bytes one pass reads.
pub const DEFAULT_BUDGET_BYTES: u64 = 8589934592;

/// What one pass found.
#[derive(Debug, Clone)]
pub struct VerifyReport {
    pub confirmed: usize,
    pub baseline_established: usize,
    /// Files whose bytes changed, with the time they were last known to be good.
    pub mismatched: Vec<(String, u64)>,
    /// Files that could not be read, with the reason.
    pub read_failed: Vec<(String, String)>,
    pub bytes_read: u64,
    pub skipped_by_budget: usize,
}

/// Seconds in a day.
pub open spec fn day() -> int {
    86400
}

/// After how many seconds a file is checked again.
pub fn reverify_after_secs(days: u64) -> (r: u64)
    ensures
        r == (if days * day() > u64::MAX {
            u64::MAX as int
        } else {
            days * day()
        }),
{
    match days.checked_mul(86400) {
        Some(n) => n,
        None => u64::MAX,
    }
}

/// How long ago a time was.
pub open spec fn since(unix_secs: u64, now: u64) -> Seq<char> {
    if now < unix_secs {
        "unix time "@ + dec(unix_secs as nat)
    } else {
        let days = (now - unix_secs) / day();
        if days == 0 {
            "less than a day ago"@
        } else if days == 1 {
            "1 day ago"@
        } else {
            dec(days as nat) + " days ago"@
        }
    }
}

/// How long ago a time was, in days; a time yet to come is shown as it is.
pub fn format_since(unix_secs: u64, now: u64) -> (r: String)
    ensures
        r@ == since(unix_secs, now),
{
    if now < unix_secs {
        let mut s = owned("unix time ");
        s.append(dec_text(unix_secs as u128).as_str());
        return s;
    }
    let days: u64 = (now - unix_secs) / 86400;
    if days == 0 {
        owned("less than a day ago")
    } else if days == 1 {
        owned("1 day ago")
    } else {
        let mut s = dec_text(days as u128);
        s.append(" days ago");
        s
    }
}

/// The lines on the first `n` files whose bytes changed.
pub open spec fn mismatch_lines(m: Seq<(String, u64)>, n: nat, now: u64) -> Seq<char>
    decreases n,
{
    if n == 0 || n > m.len() {
        Seq::empty()
    } else {
        mismatch_lines(m, (n - 1) as nat, now) + "\n  "@ + m[n - 1].0@
            + " -- bytes changed since it was last confirmed good ("@ + since(m[n - 1].1, now)
            + ")"@
    }
}

/// The lines on the first `n` files that could not be read.
pub open spec fn failure_lines(f: Seq<(Seq<char>, Seq<char>)>, n: nat) -> Seq<char>
    decreases n,
{
    if n == 0 || n > f.len() {
        Seq::empty()
    } else {
        failure_lines(f, (n - 1) as nat) + "\n  "@ + f[n - 1].0 + " -- "@ + f[n - 1].1
    }
}

/// The report of a pass, for the console.
pub open spec fn pass_shown(r: VerifyReport, now: u64) -> Seq<char> {
    let counts = "verify: "@ + dec(r.confirmed as nat) + " confirmed, "@ + dec(
        r.baseline_established as nat,
    ) + " newly baselined, "@ + dec(r.skipped_by_budget as nat) + " unchecked ("@ + dec(
        r.bytes_read as nat,
    ) + " bytes read)"@;
    let mismatched = if r.mismatched@.len() > 0 {
        counts + "\n"@ + dec(r.mismatched@.len()) + " MISMATCH"@ + (if r.mismatched@.len() == 1 {
            ""@
        } else {
            "ES"@
        }) + ":"@ + mismatch_lines(r.mismatched@, r.mismatched@.len(), now)
    } else {
        counts
    };
    if r.read_failed@.len() > 0 {
        mismatched + "\n"@ + dec(r.read_failed@.len()) + " file"@ + (if r.read_failed@.len() == 1 {
            ""@
        } else {
            "s"@
        }) + " could not be read this pass:"@ + failure_lines(
            pair_views(r.read_failed@),
            r.read_failed@.len(),
        )
    } else {
        mismatched
    }
}

impl VerifyReport {
    /// Whether a file changed or could not be read.
    pub fn found_a_problem(&self) -> (r: bool)
        ensures
            r == (self.mismatched@.len() > 0 || self.read_failed@.len() > 0),
    {
        self.mismatched.len() > 0 || self.read_failed.len() > 0
    }

    /// The exit status of a pass: 1 when it found a problem.
    pub fn exit_status(&self) -> (r: u8)
        ensures
            r == (if self.mismatched@.len() > 0 || self.read_failed@.len() > 0 {
                1u8
            } else {
                0
            }),
    {
        if self.found_a_problem() {
            1
        } else {
            0
        }
    }
}

/// What a pass found, for the console.
pub fn summarize(report: &VerifyReport, now: u64) -> (r: String)
    ensures
        r@ == pass_shown(*report, now),
{
    let mut s = owned("verify: ");
    s.append(dec_text(report.confirmed as u128).as_str());
    s.append(" confirmed, ");
    s.append(dec_text(report.baseline_established as u128).as_str());
    s.append(" newly baselined, ");
    s.append(dec_text(report.skipped_by_budget as u128).as_str());
    s.append(" unchecked (");
    s.append(dec_text(report.bytes_read as u128).as_str());
    s.append(" bytes read)");
    if report.mismatched.len() > 0 {
        s.append("\n");
        s.append(dec_text(report.mismatched.len() as u128).as_str());
        s.append(" MISMATCH");
        s.append(
            if report.mismatched.len() == 1 {
                ""
            } else {
                "ES"
            },
        );
        s.append(":");
        let ghost head = s@;
        let mut i: usize = 0;
        assert(head + mismatch_lines(report.mismatched@, 0, now) =~= head);
        while i < report.mismatched.len()
            invariant
                i <= report.mismatched@.len(),
                s@ == head + mismatch_lines(report.mismatched@, i as nat, now),
            decreases report.mismatched@.len() - i,
        {
            s.append("\n  ");
            s.append(report.mismatched[i].0.as_str());
            s.append(" -- bytes changed since it was last confirmed good (");
            s.append(format_since(report.mismatched[i].1, now).as_str());
            s.append(")");
            i += 1;
            assert(s@ =~= head + mismatch_lines(report.mismatched@, i as nat, now));
        }
    }
    if report.read_failed.len() > 0 {
        s.append("\n");
        s.append(dec_text(report.read_failed.len() as u128).as_str());
        s.append(" file");
        s.append(
            if report.read_failed.len() == 1 {
                ""
            } else {
                "s"
            },
        );
        s.append(" could not be read this pass:");
        let ghost head = s@;
        let ghost f = pair_views(report.read_failed@);
        let mut i: usize = 0;
        assert(head + failure_lines(f, 0) =~= head);
        while i < report.read_failed.len()
            invariant
                i <= report.read_failed@.len(),
                f == pair_views(report.read_failed@),
                s@ == head + failure_lines(f, i as nat),
            decreases report.read_failed@.len() - i,
        {
            s.append("\n  ");
            s.append(report.read_failed[i].0.as_str());
            s.append(" -- ");
            s.append(report.read_failed[i].1.as_str());
            i += 1;
            assert(s@ =~= head + failure_lines(f, i as nat));
        }
    }
    s
}

/// A time so and so many whole days back is said to be that many days ago, however far into the next
/// day; a time that is yet to come is told as it is.
pub proof fn days_are_told_whole(then: u64, days: nat, more: nat, now: u64)
    requires
        more < 86400,
        now == then + days * 86400 + more,
    ensures
        days >= 2 ==> since(then, now) == dec(days) + " days ago"@,
        days == 1 ==> since(then, now) == "1 day ago"@,
        days == 0 ==> since(then, now) == "less than a day ago"@,
        more > 0 || days > 0 ==> since(now, then) == "unix time "@ + dec(now as nat),
{
    assert((now - then) / 86400 == days) by (nonlinear_arith)
        requires
            now - then == days * 86400 + more,
            0 <= more < 86400,
    ;
}

/// A report begins with the counts, each under its own name, and ends there where nothing was amiss;
/// where a file changed or could not be read it goes on.
pub proof fn a_clean_pass_says_no_more(r: VerifyReport, now: u64)
    ensures
        ({
            let counts = "verify: "@ + dec(r.confirmed as nat) + " confirmed, "@ + dec(
                r.baseline_established as nat,
            ) + " newly baselined, "@ + dec(r.skipped_by_budget as nat) + " unchecked ("@ + dec(
                r.bytes_read as nat,
            ) + " bytes read)"@;
            &&& counts.is_prefix_of(pass_shown(r, now))
            &&& pass_shown(r, now) == counts <==> r.mismatched@.len() == 0 && r.read_failed@.len()
                == 0
        }),
{
    let counts = "verify: "@ + dec(r.confirmed as nat) + " confirmed, "@ + dec(
        r.baseline_established as nat,
    ) + " newly baselined, "@ + dec(r.skipped_by_budget as nat) + " unchecked ("@ + dec(
        r.bytes_read as nat,
    ) + " bytes read)"@;
    let all = pass_shown(r, now);
    reveal_strlit("\n");
    assert(all.subrange(0, counts.len() as int) =~= counts);
}

proof fn mismatch_line_is_there(m: Seq<(String, u64)>, n: nat, now: u64, k: int)
    requires
        0 <= k < n <= m.len(),
    ensures
        exists|p: Seq<char>, q: Seq<char>| #[trigger]
            p.add(
                "\n  "@ + m[k].0@ + " -- bytes changed since it was last confirmed good ("@ + since(
                    m[k].1,
                    now,
                ) + ")"@,
            ).add(q) == mismatch_lines(m, n, now),
    decreases n,
{
    let line = "\n  "@ + m[k].0@ + " -- bytes changed since it was last confirmed good ("@ + since(
        m[k].1,
        now,
    ) + ")"@;
    let before = mismatch_lines(m, (n - 1) as nat, now);
    let all = mismatch_lines(m, n, now);
    if k == n - 1 {
        assert(before.add(line).add(Seq::empty()) =~= all);
    } else {
        mismatch_line_is_there(m, (n - 1) as nat, now, k);
        let (p, q) = choose|p: Seq<char>, q: Seq<char>| #[trigger] p.add(line).add(q) == before;
        let last = "\n  "@ + m[n - 1].0@ + " -- bytes changed since it was last confirmed good ("@
            + since(m[n - 1].1, now) + ")"@;
        assert(p.add(line).add(q + last) =~= all);
    }
}

proof fn failure_line_is_there(f: Seq<(Seq<char>, Seq<char>)>, n: nat, k: int)
    requires
        0 <= k < n <= f.len(),
    ensures
        exists|p: Seq<char>, q: Seq<char>| #[trigger]
            p.add("\n  "@ + f[k].0 + " -- "@ + f[k].1).add(q) == failure_lines(f, n),
    decreases n,
{
    let line = "\n  "@ + f[k].0 + " -- "@ + f[k].1;
    let before = failure_lines(f, (n - 1) as nat);
    let all = failure_lines(f, n);
    if k == n - 1 {
        assert(before.add(line).add(Seq::empty()) =~= all);
    } else {
        failure_line_is_there(f, (n - 1) as nat, k);
        let (p, q) = choose|p: Seq<char>, q: Seq<char>| #[trigger] p.add(line).add(q) == before;
        let last = "\n  "@ + f[n - 1].0 + " -- "@ + f[n - 1].1;
        assert(p.add(line).add(q + last) =~= all);
    }
}

/// Every file whose bytes changed is named in the report, with the time since it was last good.
pub proof fn every_mismatch_is_named(r: VerifyReport, now: u64, k: int)
    requires
        0 <= k < r.mismatched@.len(),
    ensures
        exists|p: Seq<char>, q: Seq<char>| #[trigger]
            p.add(
                "\n  "@ + r.mismatched@[k].0@ + " -- bytes changed since it was last confirmed good ("@
                    + since(r.mismatched@[k].1, now) + ")"@,
            ).add(q) == pass_shown(r, now),
{
    let m = r.mismatched@;
    let line = "\n  "@ + m[k].0@ + " -- bytes changed since it was last confirmed good ("@ + since(
        m[k].1,
        now,
    ) + ")"@;
    mismatch_line_is_there(m, m.len(), now, k);
    let lines = mismatch_lines(m, m.len(), now);
    let (p, q) = choose|p: Seq<char>, q: Seq<char>| #[trigger] p.add(line).add(q) == lines;
    let all = pass_shown(r, now);
    let head = "verify: "@ + dec(r.confirmed as nat) + " confirmed, "@ + dec(
        r.baseline_established as nat,
    ) + " newly baselined, "@ + dec(r.skipped_by_budget as nat) + " unchecked ("@ + dec(
        r.bytes_read as nat,
    ) + " bytes read)"@ + "\n"@ + dec(m.len()) + " MISMATCH"@ + (if m.len() == 1 {
        ""@
    } else {
        "ES"@
    }) + ":"@;
    let rest = all.skip((head.len() + lines.len()) as int);
    assert(all =~= head + lines + rest);
    assert((head + p).add(line).add(q + rest) =~= all);
}

/// Every file that could not be read is named in the report, with the reason.
pub proof fn every_failure_is_named(r: VerifyReport, now: u64, k: int)
    requires
        0 <= k < r.read_failed@.len(),
    ensures
        exists|p: Seq<char>, q: Seq<char>| #[trigger]
            p.add("\n  "@ + r.read_failed@[k].0@ + " -- "@ + r.read_failed@[k].1@).add(q)
                == pass_shown(r, now),
{
    let f = pair_views(r.read_failed@);
    let line = "\n  "@ + f[k].0 + " -- "@ + f[k].1;
    failure_line_is_there(f, f.len(), k);
    let lines = failure_lines(f, f.len());
    let (p, q) = choose|p: Seq<char>, q: Seq<char>| #[trigger] p.add(line).add(q) == lines;
    let all = pass_shown(r, now);
    let head = all.take(all.len() - lines.len());
    assert(all =~= head + lines);
    assert((head + p).add(line).add(q) =~= all);
}

} // verus!
