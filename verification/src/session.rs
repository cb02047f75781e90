//! A playback session: what is played, what each file's playing revealed, and how the session
//! follows the player's events.
//!
//! One broken file never ends a run: the player is told to go on past a file that it cannot open,
//! and to wait at the end until the results are in.
use vstd::prelude::*;
use vstd::string::*;

use crate::ipc::end_reason_is_failure;
use crate::json::{field, measure_of, model, models, str_field, Json, Value};
use crate::measure::Measure;
use crate::remote::protocol::str_member;
use crate::remote::server::append_all;
use crate::scan::{label_of, Scan, Scanned, ScannedFile};
use crate::text::{
    dec,
    dec_text,
    digits_value,
    has_char,
    int_dec,
    opt_is,
    opt_str_view,
    opt_view,
    owned,
    same,
    views,
};

verus! {

/// How a session is to be played.
#[derive(Debug, Clone)]
pub struct PlayOptions {
    /// Play only this many seconds of each file.
    pub seconds_each: Option<u64>,
    pub start_paused: bool,
    /// Video output to ask for. `None` takes the usual one.
    pub vo: Option<String>,
    /// Hardware decoding mode.
    pub hwdec: String,
    pub fullscreen: bool,
    pub shuffle: bool,
    /// Passed to the player as they are.
    pub extra_args: Vec<String>,
    /// Print what would be done, and do nothing.
    pub dry_run: bool,
}

impl PlayOptions {
    pub fn new() -> (r: Self)
        ensures
            r.seconds_each is None,
            !r.start_paused,
            r.vo is None,
            r.hwdec@ == "auto-safe"@,
            r.fullscreen,
            !r.shuffle,
            views(r.extra_args@) == Seq::<Seq<char>>::empty(),
            !r.dry_run,
    {
        let r = PlayOptions {
            seconds_each: None,
            start_paused: false,
            vo: None,
            hwdec: owned("auto-safe"),
            fullscreen: true,
            shuffle: false,
            extra_args: Vec::new(),
            dry_run: false,
        };
        assert(views(r.extra_args@) =~= Seq::<Seq<char>>::empty());
        r
    }
}

/// What became of a file.
#[derive(Debug, Clone, PartialEq, Eq)]
pub enum Outcome {
    /// Opened and produced frames.
    Played,
    /// The player reported an error for this file.
    Failed(String),
    /// The run ended before reaching it.
    NotReached,
}

impl Outcome {
    /// Whether the file failed. A file that was never reached did not.
    pub fn is_failure(&self) -> (r: bool)
        ensures
            r == (self is Failed),
    {
        match self {
            Outcome::Failed(_) => true,
            _ => false,
        }
    }

    /// Whether the file played.
    pub fn is_played(&self) -> (r: bool)
        ensures
            r == (self is Played),
    {
        match self {
            Outcome::Played => true,
            _ => false,
        }
    }
}

/// A rate as a fraction.
#[derive(Debug, Clone, Copy, PartialEq, Eq, Structural)]
pub struct Rational {
    pub num: u32,
    pub den: u32,
}

/// A track of a file, as the player describes it.
#[derive(Debug, Clone, PartialEq)]
pub struct TrackInfo {
    /// `video`, `audio` or `sub`.
    pub kind: String,
    pub id: u32,
    pub codec: Option<String>,
    pub codec_profile: Option<String>,
    pub selected: bool,
    pub default: bool,
    pub forced: bool,
    pub external: bool,
    pub hearing_impaired: bool,
    pub visual_impaired: bool,
    pub width: Option<u32>,
    pub height: Option<u32>,
    pub fps: Option<Measure>,
    pub channels: Option<u32>,
    pub sample_rate: Option<u32>,
    pub bitrate_bps: Option<u64>,
    pub lang: Option<String>,
    pub title: Option<String>,
}

impl Default for TrackInfo {
    fn default() -> (r: Self)
        ensures
            r.kind@ == Seq::<char>::empty(),
            r.id == 0,
            r.codec is None,
            r.codec_profile is None,
            !r.selected && !r.default && !r.forced && !r.external,
            !r.hearing_impaired && !r.visual_impaired,
            r.width is None && r.height is None && r.fps is None,
            r.channels is None && r.sample_rate is None && r.bitrate_bps is None,
            r.lang is None && r.title is None,
    {
        TrackInfo {
            kind: String::new(),
            id: 0,
            codec: None,
            codec_profile: None,
            selected: false,
            default: false,
            forced: false,
            external: false,
            hearing_impaired: false,
            visual_impaired: false,
            width: None,
            height: None,
            fps: None,
            channels: None,
            sample_rate: None,
            bitrate_bps: None,
            lang: None,
            title: None,
        }
    }
}

/// How many tracks of each kind a file has.
#[derive(Debug, Clone, Copy, PartialEq, Eq, Structural)]
pub struct TrackCounts {
    pub video: usize,
    pub audio: usize,
    pub subtitle: usize,
}

impl Default for TrackCounts {
    fn default() -> (r: Self)
        ensures
            r == (TrackCounts { video: 0, audio: 0, subtitle: 0 }),
    {
        TrackCounts { video: 0, audio: 0, subtitle: 0 }
    }
}

/// What playing one file revealed about it.
#[derive(Debug, Clone)]
pub struct FileResult {
    pub path: String,
    pub label: String,
    pub outcome: Outcome,
    pub seconds_played: Measure,
    pub file_format: Option<String>,
    pub video_codec: Option<String>,
    pub audio_codec: Option<String>,
    pub width: Option<u32>,
    pub height: Option<u32>,
    pub fps: Option<Measure>,
    pub duration: Option<Measure>,
    /// The decoder actually in use; `no` means software.
    pub hwdec: Option<String>,
    pub pixel_format: Option<String>,
    pub primaries: Option<String>,
    /// The transfer function; `pq` and `hlg` are HDR.
    pub gamma: Option<String>,
    pub colormatrix: Option<String>,
    /// Whether the player can seek in this file.
    pub seekable: Option<bool>,
    pub audio_channels: Option<String>,
    pub track_counts: TrackCounts,
    pub tracks: Vec<TrackInfo>,
    /// Frames that were shown late, over this file.
    pub delayed_frames: Option<u64>,
    pub dropped_frames: Option<u64>,
}

/// Zero.
pub open spec fn zero_measure() -> Measure {
    Measure::Finite { negative: false, mantissa: 0, exponent: 0 }
}

/// Whether nothing is known of a file yet but its path and label.
pub open spec fn untouched(r: FileResult, f: Scanned) -> bool {
    &&& r.path@ == f.path
    &&& r.label@ == label_of(f)
    &&& r.outcome is NotReached
    &&& r.seconds_played == zero_measure()
    &&& r.file_format is None
    &&& r.video_codec is None
    &&& r.audio_codec is None
    &&& r.width is None
    &&& r.height is None
    &&& r.fps is None
    &&& r.duration is None
    &&& r.hwdec is None
    &&& r.pixel_format is None
    &&& r.primaries is None
    &&& r.gamma is None
    &&& r.colormatrix is None
    &&& r.seekable is None
    &&& r.audio_channels is None
    &&& r.track_counts == (TrackCounts { video: 0, audio: 0, subtitle: 0 })
    &&& r.tracks@.len() == 0
    &&& r.delayed_frames is None
    &&& r.dropped_frames is None
}

impl FileResult {
    /// The result of a file that has not been reached.
    pub fn new(f: &ScannedFile) -> (r: Self)
        ensures
            untouched(r, f.content()),
    {
        FileResult {
            path: f.path.clone(),
            label: f.label(),
            outcome: Outcome::NotReached,
            seconds_played: Measure::Finite { negative: false, mantissa: 0, exponent: 0 },
            file_format: None,
            video_codec: None,
            audio_codec: None,
            width: None,
            height: None,
            fps: None,
            duration: None,
            hwdec: None,
            pixel_format: None,
            primaries: None,
            gamma: None,
            colormatrix: None,
            seekable: None,
            audio_channels: None,
            track_counts: TrackCounts { video: 0, audio: 0, subtitle: 0 },
            tracks: Vec::new(),
            delayed_frames: None,
            dropped_frames: None,
        }
    }

    /// Whether the file played, but only because the processor decoded it.
    pub open spec fn in_software(self) -> bool {
        self.outcome is Played && (opt_view(self.hwdec) == Some("no"@) || opt_view(self.hwdec)
            == Some(Seq::<char>::empty()))
    }

    /// Whether the transfer function says that this is an HDR master. The primaries do not decide
    /// it: wide primaries with a conventional curve are wide-gamut SDR.
    pub open spec fn hdr(self) -> bool {
        opt_view(self.gamma) == Some("pq"@) || opt_view(self.gamma) == Some("hlg"@)
    }

    /// Whether the file played but cannot be navigated, and is long enough for that to matter.
    pub open spec fn stuck(self) -> bool {
        self.outcome is Played && self.seekable == Some(false) && (match self.duration {
            Some(d) => d.above(60),
            None => false,
        })
    }

    /// Width and height, when both are known.
    pub open spec fn size_text(self) -> Option<Seq<char>> {
        match (self.width, self.height) {
            (Some(w), Some(h)) => Some(dec(w as nat) + "x"@ + dec(h as nat)),
            _ => None,
        }
    }

    /// True when the file played but only because the processor decoded it.
    pub fn software_decoded(&self) -> (r: bool)
        ensures
            r == self.in_software(),
    {
        if !self.outcome.is_played() {
            return false;
        }
        match &self.hwdec {
            Some(h) => {
                let empty = h.as_str().is_empty();
                assert(empty == (h@ =~= Seq::<char>::empty()));
                same(h.as_str(), "no") || empty
            },
            None => false,
        }
    }

    /// True when the transfer function says that this is an HDR master.
    pub fn is_hdr(&self) -> (r: bool)
        ensures
            r == self.hdr(),
    {
        opt_is(&self.gamma, "pq") || opt_is(&self.gamma, "hlg")
    }

    /// True when the file played but cannot be navigated: its index is missing or unusable.
    pub fn unseekable(&self) -> (r: bool)
        ensures
            r == self.stuck(),
    {
        if !self.outcome.is_played() {
            return false;
        }
        match (self.seekable, self.duration) {
            (Some(false), Some(d)) => d.exceeds(60),
            _ => false,
        }
    }

    /// Width and height, when both are known.
    pub fn resolution(&self) -> (r: Option<String>)
        ensures
            opt_view(r) == self.size_text(),
    {
        match (self.width, self.height) {
            (Some(w), Some(h)) => {
                let mut s = dec_text(w as u128);
                s.append("x");
                s.append(dec_text(h as u128).as_str());
                Some(s)
            },
            _ => None,
        }
    }
}

/// A file never stands in two contradictory places of a report: what failed or was not reached is
/// neither decoded in software nor unseekable.
pub proof fn only_played_files_are_flagged(r: FileResult)
    requires
        !(r.outcome is Played),
    ensures
        !r.in_software(),
        !r.stuck(),
{
}

/// The record of a session.
#[derive(Debug, Clone)]
pub struct SessionReport {
    pub results: Vec<FileResult>,
    pub mpv_version: Option<String>,
    pub vo_used: Option<String>,
    pub elapsed_s: Measure,
    /// The player exited before the playlist was through.
    pub ended_early: bool,
}

impl Default for SessionReport {
    fn default() -> (r: Self)
        ensures
            r.results@.len() == 0,
            r.mpv_version is None,
            r.vo_used is None,
            r.elapsed_s == zero_measure(),
            !r.ended_early,
    {
        SessionReport {
            results: Vec::new(),
            mpv_version: None,
            vo_used: None,
            elapsed_s: Measure::Finite { negative: false, mantissa: 0, exponent: 0 },
            ended_early: false,
        }
    }
}

/// How many results hold a property.
pub open spec fn count_of(results: Seq<FileResult>, p: spec_fn(FileResult) -> bool) -> nat
    decreases results.len(),
{
    if results.len() == 0 {
        0
    } else {
        count_of(results.drop_last(), p) + if p(results.last()) {
            1nat
        } else {
            0
        }
    }
}

/// The positions of the results that hold a property, in order.
pub open spec fn those(results: Seq<FileResult>, p: spec_fn(FileResult) -> bool) -> Seq<int>
    decreases results.len(),
{
    if results.len() == 0 {
        Seq::empty()
    } else {
        let rest = those(results.drop_last(), p);
        if p(results.last()) {
            rest.push(results.len() - 1)
        } else {
            rest
        }
    }
}

/// Whether a result is that of a file that played.
pub open spec fn is_played() -> spec_fn(FileResult) -> bool {
    |r: FileResult| r.outcome is Played
}

/// Whether a result is that of a file that failed.
pub open spec fn is_failed() -> spec_fn(FileResult) -> bool {
    |r: FileResult| r.outcome is Failed
}

/// Whether a result is that of a file that was not reached.
pub open spec fn is_unreached() -> spec_fn(FileResult) -> bool {
    |r: FileResult| r.outcome is NotReached
}

/// Whether a result is that of a file decoded in software.
pub open spec fn is_software() -> spec_fn(FileResult) -> bool {
    |r: FileResult| r.in_software()
}

/// Whether a result is that of a file that cannot be navigated.
pub open spec fn is_stuck() -> spec_fn(FileResult) -> bool {
    |r: FileResult| r.stuck()
}

/// Whether a result is that of a file with more than ten late frames.
pub open spec fn is_late() -> spec_fn(FileResult) -> bool {
    |r: FileResult| r.delayed_frames is Some && r.delayed_frames->0 > 10
}

/// A property of results that is asked about.
#[derive(Debug, Clone, Copy, PartialEq, Eq, Structural)]
pub enum Which {
    Played,
    Failed,
    NotReached,
    Software,
    Unseekable,
    Late,
}

impl Which {
    /// The property.
    pub open spec fn property(self) -> spec_fn(FileResult) -> bool {
        match self {
            Which::Played => is_played(),
            Which::Failed => is_failed(),
            Which::NotReached => is_unreached(),
            Which::Software => is_software(),
            Which::Unseekable => is_stuck(),
            Which::Late => is_late(),
        }
    }

    fn holds(self, r: &FileResult) -> (b: bool)
        ensures
            b == (self.property())(*r),
    {
        match self {
            Which::Played => r.outcome.is_played(),
            Which::Failed => r.outcome.is_failure(),
            Which::NotReached => match &r.outcome {
                Outcome::NotReached => true,
                _ => false,
            },
            Which::Software => r.software_decoded(),
            Which::Unseekable => r.unseekable(),
            Which::Late => match r.delayed_frames {
                Some(n) => n > 10,
                None => false,
            },
        }
    }
}

proof fn those_are_inside(results: Seq<FileResult>, p: spec_fn(FileResult) -> bool)
    ensures
        forall|i: int|
            0 <= i < those(results, p).len() ==> 0 <= #[trigger] those(results, p)[i]
                < results.len() && p(results[those(results, p)[i]]),
        those(results, p).len() == count_of(results, p),
        count_of(results, p) <= results.len(),
    decreases results.len(),
{
    if results.len() > 0 {
        let rest = results.drop_last();
        those_are_inside(rest, p);
        let all = those(results, p);
        assert forall|i: int| 0 <= i < all.len() implies 0 <= #[trigger] all[i] < results.len() && p(
            results[all[i]],
        ) by {
            if i < those(rest, p).len() {
                assert(all[i] == those(rest, p)[i]);
                assert(rest[all[i]] == results[all[i]]);
            }
        }
    }
}

impl SessionReport {
    /// The positions of the results that hold a property, in order.
    pub fn which(&self, w: Which) -> (r: Vec<usize>)
        ensures
            crate::scan::index_view(r@) == those(self.results@, w.property()),
            forall|i: int|
                0 <= i < r@.len() ==> #[trigger] r@[i] < self.results@.len() && (w.property())(
                    self.results@[r@[i] as int],
                ),
            r@.len() == count_of(self.results@, w.property()),
    {
        let mut out: Vec<usize> = Vec::new();
        let mut i: usize = 0;
        let ghost all = self.results@;
        let ghost p = w.property();
        assert(all.take(0) =~= Seq::<FileResult>::empty());
        assert(crate::scan::index_view(out@) =~= Seq::<int>::empty());
        while i < self.results.len()
            invariant
                i <= self.results@.len(),
                all == self.results@,
                p == w.property(),
                crate::scan::index_view(out@) == those(all.take(i as int), p),
            decreases self.results@.len() - i,
        {
            let ghost had = crate::scan::index_view(out@);
            proof {
                assert(all.take(i as int + 1).drop_last() =~= all.take(i as int));
                assert(all.take(i as int + 1).last() == all[i as int]);
            }
            if w.holds(&self.results[i]) {
                out.push(i);
                assert(crate::scan::index_view(out@) =~= had.push(i as int));
            }
            i += 1;
        }
        proof {
            assert(all.take(i as int) =~= all);
            those_are_inside(all, p);
            assert forall|k: int| 0 <= k < out@.len() implies #[trigger] out@[k]
                < self.results@.len() && p(self.results@[out@[k] as int]) by {
                assert(crate::scan::index_view(out@)[k] == out@[k] as int);
            }
        }
        out
    }

    /// How many files played.
    pub fn played(&self) -> (r: usize)
        ensures
            r == count_of(self.results@, is_played()),
    {
        self.which(Which::Played).len()
    }

    /// The files that failed.
    pub fn failed(&self) -> (r: Vec<usize>)
        ensures
            crate::scan::index_view(r@) == those(self.results@, is_failed()),
            forall|i: int| 0 <= i < r@.len() ==> #[trigger] r@[i] < self.results@.len(),
    {
        self.which(Which::Failed)
    }

    /// How many files were not reached.
    pub fn not_reached(&self) -> (r: usize)
        ensures
            r == count_of(self.results@, is_unreached()),
    {
        self.which(Which::NotReached).len()
    }

    /// The files that were decoded in software.
    pub fn software_decoded(&self) -> (r: Vec<usize>)
        ensures
            crate::scan::index_view(r@) == those(self.results@, is_software()),
            forall|i: int| 0 <= i < r@.len() ==> #[trigger] r@[i] < self.results@.len(),
    {
        self.which(Which::Software)
    }

    /// The files that cannot be navigated.
    pub fn unseekable(&self) -> (r: Vec<usize>)
        ensures
            crate::scan::index_view(r@) == those(self.results@, is_stuck()),
            forall|i: int| 0 <= i < r@.len() ==> #[trigger] r@[i] < self.results@.len(),
    {
        self.which(Which::Unseekable)
    }
}

impl SessionReport {
    /// The exit status of a session: 1 when a file failed.
    pub fn exit_status(&self) -> (r: u8)
        ensures
            r == (if count_of(self.results@, is_failed()) > 0 {
                1u8
            } else {
                0
            }),
    {
        if self.which(Which::Failed).len() > 0 {
            1
        } else {
            0
        }
    }
}

/// Every file of a session played, failed, or was not reached, and only one of these.
pub proof fn outcomes_add_up(results: Seq<FileResult>)
    ensures
        count_of(results, is_played()) + count_of(results, is_failed()) + count_of(
            results,
            is_unreached(),
        ) == results.len(),
    decreases results.len(),
{
    if results.len() > 0 {
        outcomes_add_up(results.drop_last());
    }
}

/// The arguments that a session's player is started with. What is passed through comes last, so
/// that it wins.
pub open spec fn session_args(playlist: Seq<char>, ipc: Seq<char>, o: PlayOptions) -> Seq<Seq<char>> {
    let fixed = seq![
        "--input-ipc-server="@ + ipc,
        "--playlist="@ + playlist,
        "--hwdec="@ + o.hwdec@,
        "--vo="@ + (match o.vo {
            Some(v) => v@,
            None => "gpu-next"@,
        }),
        "--keep-open=no"@,
        "--idle=yes"@,
        "--force-window=yes"@,
        "--sub-auto=fuzzy"@,
        "--audio-file-auto=fuzzy"@,
        "--audio-fallback-to-null=yes"@,
    ];
    let full = if o.fullscreen {
        fixed.push("--fullscreen=yes"@)
    } else {
        fixed
    };
    let mixed = if o.shuffle {
        full.push("--shuffle"@)
    } else {
        full
    };
    let paused = if o.start_paused {
        mixed.push("--pause=yes"@)
    } else {
        mixed
    };
    paused + views(o.extra_args@)
}

fn option(name: &str, value: &str) -> (r: String)
    ensures
        r@ == name@ + value@,
{
    let mut s = owned(name);
    s.append(value);
    s
}

/// The arguments that a session's player is started with.
pub fn mpv_args(playlist: &str, ipc_path: &str, opts: &PlayOptions) -> (r: Vec<String>)
    ensures
        views(r@) == session_args(playlist@, ipc_path@, *opts),
{
    let vo = match &opts.vo {
        Some(v) => option("--vo=", v.as_str()),
        None => option("--vo=", "gpu-next"),
    };
    let mut args = vec![
        option("--input-ipc-server=", ipc_path),
        option("--playlist=", playlist),
        option("--hwdec=", opts.hwdec.as_str()),
        vo,
        // A file that cannot be opened must not stop the run.
        owned("--keep-open=no"),
        owned("--idle=yes"),
        // A file with no video, or a broken one, is visibly being attempted.
        owned("--force-window=yes"),
        owned("--sub-auto=fuzzy"),
        owned("--audio-file-auto=fuzzy"),
        owned("--audio-fallback-to-null=yes"),
    ];
    let ghost fixed = views(args@);
    if opts.fullscreen {
        args.push(owned("--fullscreen=yes"));
    }
    let ghost full = views(args@);
    if opts.shuffle {
        args.push(owned("--shuffle"));
    }
    let ghost mixed = views(args@);
    if opts.start_paused {
        args.push(owned("--pause=yes"));
    }
    let ghost paused = views(args@);
    append_all(&mut args, &opts.extra_args);
    proof {
        assert(fixed =~= seq![
            "--input-ipc-server="@ + ipc_path@,
            "--playlist="@ + playlist@,
            "--hwdec="@ + opts.hwdec@,
            "--vo="@ + (match opts.vo {
                Some(v) => v@,
                None => "gpu-next"@,
            }),
            "--keep-open=no"@,
            "--idle=yes"@,
            "--force-window=yes"@,
            "--sub-auto=fuzzy"@,
            "--audio-file-auto=fuzzy"@,
            "--audio-fallback-to-null=yes"@,
        ]);
        assert(full =~= if opts.fullscreen {
            fixed.push("--fullscreen=yes"@)
        } else {
            fixed
        });
        assert(mixed =~= if opts.shuffle {
            full.push("--shuffle"@)
        } else {
            full
        });
        assert(paused =~= if opts.start_paused {
            mixed.push("--pause=yes"@)
        } else {
            mixed
        });
    }
    args
}

/// What the user passes to the player ends the arguments, so that it overrides every other setting;
/// and a broken file never stops a run, since the player goes on past it and waits at the end.
pub proof fn passed_arguments_win(playlist: Seq<char>, ipc: Seq<char>, o: PlayOptions)
    ensures
        views(o.extra_args@).is_suffix_of(session_args(playlist, ipc, o)),
        session_args(playlist, ipc, o).contains("--keep-open=no"@),
        session_args(playlist, ipc, o).contains("--idle=yes"@),
{
    let all = session_args(playlist, ipc, o);
    let extra = views(o.extra_args@);
    assert(all.subrange(all.len() - extra.len(), all.len() as int) =~= extra);
    assert(all[4] == "--keep-open=no"@);
    assert(all[5] == "--idle=yes"@);
}

/// Whether a path can stand on a line of its own.
pub open spec fn fits_a_line(p: Seq<char>) -> bool {
    !p.contains('\n') && !p.contains('\r')
}

/// The paths that can stand on a line of their own, in order.
pub open spec fn listable(paths: Seq<Seq<char>>) -> Seq<Seq<char>>
    decreases paths.len(),
{
    if paths.len() == 0 {
        Seq::empty()
    } else if fits_a_line(paths.last()) {
        listable(paths.drop_last()).push(paths.last())
    } else {
        listable(paths.drop_last())
    }
}

/// A playlist: one path on each line. A path that holds a line break is passed over, so that it
/// cannot spoil the entries after it.
pub open spec fn playlist_of(paths: Seq<Seq<char>>) -> Seq<char>
    decreases paths.len(),
{
    if paths.len() == 0 {
        Seq::empty()
    } else if fits_a_line(paths.last()) {
        playlist_of(paths.drop_last()) + paths.last() + "\n"@
    } else {
        playlist_of(paths.drop_last())
    }
}

/// The paths of files.
pub open spec fn paths_of(files: Seq<&ScannedFile>) -> Seq<Seq<char>> {
    Seq::new(files.len(), |i: int| files[i].path@)
}

/// A playlist of files, in their order.
pub fn playlist_text(files: &Vec<&ScannedFile>) -> (r: String)
    ensures
        r@ == playlist_of(paths_of(files@)),
{
    let ghost all = paths_of(files@);
    let mut text = String::new();
    let mut i: usize = 0;
    assert(all.take(0) =~= Seq::<Seq<char>>::empty());
    while i < files.len()
        invariant
            i <= files@.len(),
            all == paths_of(files@),
            text@ == playlist_of(all.take(i as int)),
        decreases files@.len() - i,
    {
        proof {
            assert(all.take(i as int + 1).drop_last() =~= all.take(i as int));
            assert(all.take(i as int + 1).last() == files@[i as int].path@);
        }
        let p = files[i].path.as_str();
        if !has_char(p, '\n') && !has_char(p, '\r') {
            text.append(p);
            text.append("\n");
        }
        i += 1;
    }
    assert(all.take(i as int) =~= all);
    text
}

/// A playlist's lines are exactly the paths that fit on one, in order: no path runs into another.
pub proof fn playlist_lines_are_paths(paths: Seq<Seq<char>>)
    ensures
        crate::text::lines(playlist_of(paths)) == listable(paths),
        playlist_of(paths).len() == 0 || playlist_of(paths).last() == '\n',
    decreases paths.len(),
{
    reveal_strlit("\n");
    if paths.len() == 0 {
        assert(crate::text::lines(playlist_of(paths)) =~= listable(paths));
    } else {
        let head = playlist_of(paths.drop_last());
        playlist_lines_are_paths(paths.drop_last());
        if fits_a_line(paths.last()) {
            let p = paths.last();
            let row = p + "\n"@;
            assert(playlist_of(paths) =~= head + row);
            crate::text::lines_go_on(head, row);
            crate::text::find_from_is_first(row, '\n', 0);
            let i = crate::text::find(row, '\n');
            assert(row[p.len() as int] == '\n');
            assert(i == p.len()) by {
                if i < p.len() {
                    assert(p[i] == '\n');
                    assert(p.contains('\n'));
                }
            }
            assert(row.take(i) =~= p);
            assert(row.skip(i + 1) =~= Seq::<char>::empty());
            assert(crate::text::lines(Seq::<char>::empty()) =~= Seq::<Seq<char>>::empty());
            if p.len() > 0 && p.last() == '\r' {
                assert(p.contains('\r'));
            }
            assert(crate::text::lines(row) =~= seq![p]);
            assert(crate::text::lines(playlist_of(paths)) =~= listable(paths));
        }
    }
}

/// How many of the first `n` elements are tracks of a kind.
pub open spec fn tracks_of(list: Seq<Json>, n: nat, kind: Seq<char>) -> nat
    decreases n,
{
    if n == 0 || n > list.len() {
        0
    } else {
        tracks_of(list, (n - 1) as nat, kind) + if str_field(list[n - 1], "type"@) == Some(kind) {
            1nat
        } else {
            0
        }
    }
}

/// The elements of an array; none of anything else.
pub open spec fn elements_of(v: Json) -> Seq<Json> {
    match v {
        Json::Array(a) => a,
        _ => Seq::empty(),
    }
}

/// Counts the video, audio and subtitle tracks of the player's track list.
pub fn count_tracks(list: &Value) -> (r: TrackCounts)
    ensures
        ({
            let all = elements_of(model(*list));
            &&& r.video == tracks_of(all, all.len(), "video"@)
            &&& r.audio == tracks_of(all, all.len(), "audio"@)
            &&& r.subtitle == tracks_of(all, all.len(), "sub"@)
        }),
{
    let mut c = TrackCounts { video: 0, audio: 0, subtitle: 0 };
    let items = match list.as_array() {
        Some(a) => a,
        None => {
            return c;
        },
    };
    let ghost all = models(items@);
    proof {
        reveal_strlit("video");
        reveal_strlit("audio");
        reveal_strlit("sub");
        assert("video"@[0] == 'v' && "audio"@[0] == 'a' && "sub"@.len() == 3);
        assert("video"@.len() == 5 && "audio"@.len() == 5);
    }
    let mut i: usize = 0;
    while i < items.len()
        invariant
            i <= items@.len(),
            all == models(items@),
            "video"@ != "audio"@,
            "video"@ != "sub"@,
            "audio"@ != "sub"@,
            c.video == tracks_of(all, i as nat, "video"@),
            c.audio == tracks_of(all, i as nat, "audio"@),
            c.subtitle == tracks_of(all, i as nat, "sub"@),
            c.video <= i,
            c.audio <= i,
            c.subtitle <= i,
        decreases items@.len() - i,
    {
        assert(all[i as int] == model(items@[i as int]));
        match str_member(&items[i], "type") {
            Some(kind) => {
                if same(kind.as_str(), "video") {
                    c.video = c.video + 1;
                } else if same(kind.as_str(), "audio") {
                    c.audio = c.audio + 1;
                } else if same(kind.as_str(), "sub") {
                    c.subtitle = c.subtitle + 1;
                }
            },
            None => {},
        }
        i += 1;
    }
    c
}

/// The elements of a list that say of which kind they are, in order.
pub open spec fn kinded(list: Seq<Json>, n: nat) -> Seq<Json>
    decreases n,
{
    if n == 0 || n > list.len() {
        Seq::empty()
    } else {
        let rest = kinded(list, (n - 1) as nat);
        if str_field(list[n - 1], "type"@) is Some {
            rest.push(list[n - 1])
        } else {
            rest
        }
    }
}

/// Whether a member says yes.
pub open spec fn says_yes(v: Json, key: Seq<char>) -> bool {
    field(v, key) == Some(Json::Bool(true))
}

/// The number that a member is.
pub open spec fn measure_in(v: Json, key: Seq<char>) -> Option<Measure> {
    match field(v, key) {
        Some(f) => measure_of(f),
        None => None,
    }
}

/// A whole number that a member is, cut off at the bounds of a `u32`.
pub open spec fn count_in(v: Json, key: Seq<char>) -> Option<u32> {
    match measure_in(v, key) {
        Some(m) => Some(
            if m.whole_part() > u32::MAX {
                u32::MAX
            } else {
                m.whole_part() as u32
            },
        ),
        None => None,
    }
}

/// Whether a track is what an element of the player's track list describes.
pub open spec fn describes(v: Json, t: TrackInfo) -> bool {
    &&& str_field(v, "type"@) == Some(t.kind@)
    &&& t.id == match count_in(v, "id"@) {
        Some(n) => n,
        None => 0,
    }
    &&& opt_view(t.codec) == str_field(v, "codec"@)
    &&& opt_view(t.codec_profile) == str_field(v, "codec-profile"@)
    &&& t.selected == says_yes(v, "selected"@)
    &&& t.default == says_yes(v, "default"@)
    &&& t.forced == says_yes(v, "forced"@)
    &&& t.external == says_yes(v, "external"@)
    &&& t.hearing_impaired == says_yes(v, "hearing-impaired"@)
    &&& t.visual_impaired == says_yes(v, "visual-impaired"@)
    &&& t.width == count_in(v, "demux-w"@)
    &&& t.height == count_in(v, "demux-h"@)
    &&& t.fps == measure_in(v, "demux-fps"@)
    &&& t.channels == count_in(v, "demux-channel-count"@)
    &&& t.sample_rate == count_in(v, "demux-samplerate"@)
    &&& t.bitrate_bps == match measure_in(v, "demux-bitrate"@) {
        Some(m) => Some(m.whole_part()),
        None => None,
    }
    &&& opt_view(t.lang) == str_field(v, "lang"@)
    &&& opt_view(t.title) == str_field(v, "title"@)
}

fn yes(v: &Value, key: &str) -> (r: bool)
    ensures
        r == says_yes(model(*v), key@),
{
    match v.get(key) {
        Some(f) => match f.as_bool() {
            Some(b) => b,
            None => false,
        },
        None => false,
    }
}

fn measure_member(v: &Value, key: &str) -> (r: Option<Measure>)
    ensures
        r == measure_in(model(*v), key@),
{
    match v.get(key) {
        Some(f) => f.as_f64(),
        None => None,
    }
}

fn count_member(v: &Value, key: &str) -> (r: Option<u32>)
    ensures
        r == count_in(model(*v), key@),
{
    match measure_member(v, key) {
        Some(m) => {
            let w: u64 = m.whole();
            Some(
                if w > u32::MAX as u64 {
                    u32::MAX
                } else {
                    w as u32
                },
            )
        },
        None => None,
    }
}

fn track(v: &Value, kind: String) -> (r: TrackInfo)
    requires
        str_field(model(*v), "type"@) == Some(kind@),
    ensures
        describes(model(*v), r),
{
    TrackInfo {
        kind,
        id: match count_member(v, "id") {
            Some(n) => n,
            None => 0,
        },
        codec: str_member(v, "codec"),
        codec_profile: str_member(v, "codec-profile"),
        selected: yes(v, "selected"),
        default: yes(v, "default"),
        forced: yes(v, "forced"),
        external: yes(v, "external"),
        hearing_impaired: yes(v, "hearing-impaired"),
        visual_impaired: yes(v, "visual-impaired"),
        width: count_member(v, "demux-w"),
        height: count_member(v, "demux-h"),
        fps: measure_member(v, "demux-fps"),
        channels: count_member(v, "demux-channel-count"),
        sample_rate: count_member(v, "demux-samplerate"),
        bitrate_bps: match measure_member(v, "demux-bitrate") {
            Some(m) => Some(m.whole()),
            None => None,
        },
        lang: str_member(v, "lang"),
        title: str_member(v, "title"),
    }
}

/// The tracks that the player's `track-list` describes.
pub fn parse_tracks(list: &Value) -> (r: Vec<TrackInfo>)
    ensures
        ({
            let all = elements_of(model(*list));
            let k = kinded(all, all.len());
            r@.len() == k.len() && forall|i: int|
                0 <= i < k.len() ==> describes(k[i], #[trigger] r@[i])
        }),
{
    let mut out: Vec<TrackInfo> = Vec::new();
    let items = match list.as_array() {
        Some(items) => items,
        None => {
            return out;
        },
    };
    let ghost all = elements_of(model(*list));
    let mut i: usize = 0;
    assert(all == models(items@));
    while i < items.len()
        invariant
            i <= items@.len(),
            all == models(items@),
            out@.len() == kinded(all, i as nat).len(),
            forall|k: int|
                0 <= k < out@.len() ==> describes(kinded(all, i as nat)[k], #[trigger] out@[k]),
        decreases items@.len() - i,
    {
        let v = &items[i];
        assert(all[i as int] == model(*v));
        match str_member(v, "type") {
            Some(kind) => {
                out.push(track(v, kind));
            },
            None => {},
        }
        i += 1;
    }
    out
}

/// What the player says of a file once it is loaded.
pub struct Properties {
    pub file_format: Option<String>,
    pub video_codec: Option<String>,
    pub audio_codec: Option<String>,
    pub width: Option<Measure>,
    pub height: Option<Measure>,
    /// The rate that the container declares.
    pub container_fps: Option<Measure>,
    /// The rate that the player estimates.
    pub estimated_fps: Option<Measure>,
    pub duration: Option<Measure>,
    pub hwdec: Option<String>,
    pub pixel_format: Option<String>,
    pub primaries: Option<String>,
    pub gamma: Option<String>,
    pub colormatrix: Option<String>,
    pub seekable: Option<bool>,
    pub audio_channels: Option<String>,
    /// Nothing when the player gave no track list.
    pub track_counts: Option<TrackCounts>,
    pub tracks: Vec<TrackInfo>,
}

/// A count of pixels: the whole part of a number that is not negative, at most `u32::MAX`.
pub open spec fn pixels(m: Option<Measure>) -> Option<u32> {
    match m {
        Some(v) => Some(
            if v.whole_part() <= u32::MAX {
                v.whole_part() as u32
            } else {
                u32::MAX
            },
        ),
        None => None,
    }
}

fn pixel_count(m: Option<Measure>) -> (r: Option<u32>)
    ensures
        r == pixels(m),
{
    match m {
        Some(v) => {
            let n: u64 = v.whole();
            Some(
                if n <= u32::MAX as u64 {
                    n as u32
                } else {
                    u32::MAX
                },
            )
        },
        None => None,
    }
}

/// A result with what the player says of the file. A declared rate counts before an estimated one.
pub open spec fn with_properties(r: FileResult, p: Properties) -> FileResult {
    FileResult {
        file_format: p.file_format,
        video_codec: p.video_codec,
        audio_codec: p.audio_codec,
        width: pixels(p.width),
        height: pixels(p.height),
        fps: match p.container_fps {
            Some(f) => Some(f),
            None => p.estimated_fps,
        },
        duration: p.duration,
        hwdec: p.hwdec,
        pixel_format: p.pixel_format,
        primaries: p.primaries,
        gamma: p.gamma,
        colormatrix: p.colormatrix,
        seekable: p.seekable,
        audio_channels: p.audio_channels,
        track_counts: match p.track_counts {
            Some(c) => c,
            None => r.track_counts,
        },
        tracks: p.tracks,
        ..r
    }
}

fn collect_properties(r: FileResult, p: Properties) -> (out: FileResult)
    ensures
        out == with_properties(r, p),
{
    FileResult {
        path: r.path,
        label: r.label,
        outcome: r.outcome,
        seconds_played: r.seconds_played,
        file_format: p.file_format,
        video_codec: p.video_codec,
        audio_codec: p.audio_codec,
        width: pixel_count(p.width),
        height: pixel_count(p.height),
        fps: match p.container_fps {
            Some(f) => Some(f),
            None => p.estimated_fps,
        },
        duration: p.duration,
        hwdec: p.hwdec,
        pixel_format: p.pixel_format,
        primaries: p.primaries,
        gamma: p.gamma,
        colormatrix: p.colormatrix,
        seekable: p.seekable,
        audio_channels: p.audio_channels,
        track_counts: match p.track_counts {
            Some(c) => c,
            None => r.track_counts,
        },
        tracks: p.tracks,
        delayed_frames: r.delayed_frames,
        dropped_frames: r.dropped_frames,
    }
}

/// What an event of the player means to a session.
#[derive(Debug, Clone, Copy, PartialEq, Eq, Structural)]
pub enum SessionEvent {
    StartFile,
    FileLoaded,
    EndFile,
    /// The playlist is through.
    Idle,
    Other,
}

/// What an event of the player means to a session.
pub open spec fn event_kind(name: Option<Seq<char>>) -> SessionEvent {
    if name == Some("start-file"@) {
        SessionEvent::StartFile
    } else if name == Some("file-loaded"@) {
        SessionEvent::FileLoaded
    } else if name == Some("end-file"@) {
        SessionEvent::EndFile
    } else if name == Some("idle"@) {
        SessionEvent::Idle
    } else {
        SessionEvent::Other
    }
}

/// What an event of the player means to a session.
pub fn kind_of_event(event: &Value) -> (r: SessionEvent)
    ensures
        r == event_kind(str_field(model(*event), "event"@)),
{
    match crate::ipc::event_name(event) {
        Some(name) => if same(name, "start-file") {
            SessionEvent::StartFile
        } else if same(name, "file-loaded") {
            SessionEvent::FileLoaded
        } else if same(name, "end-file") {
            SessionEvent::EndFile
        } else if same(name, "idle") {
            SessionEvent::Idle
        } else {
            SessionEvent::Other
        },
        None => SessionEvent::Other,
    }
}

/// A session that is being played.
pub struct Session {
    pub results: Vec<FileResult>,
    /// The file that the player is at.
    pub current: Option<usize>,
    /// How many files the player has come to.
    pub reached: usize,
    /// The player's counters when the current file was loaded.
    pub base_delayed: u64,
    pub base_dropped: u64,
    pub seconds_each: Option<u64>,
    pub ended_early: bool,
}

/// The position of the last result with a path, or -1.
pub open spec fn result_at(results: Seq<FileResult>, path: Seq<char>) -> int
    decreases results.len(),
{
    if results.len() == 0 {
        -1
    } else if results.last().path@ == path {
        results.len() - 1
    } else {
        result_at(results.drop_last(), path)
    }
}

/// The file that the player is at after it started one. The path that it reports decides; where it
/// reports none that is known, the next file in turn.
pub open spec fn started(
    results: Seq<FileResult>,
    current: Option<usize>,
    path: Option<Seq<char>>,
) -> int {
    let known = match path {
        Some(p) => result_at(results, p),
        None => -1,
    };
    if known >= 0 {
        known
    } else {
        match current {
            Some(c) => if c + 1 < results.len() {
                c + 1
            } else {
                results.len() - 1
            },
            None => 0,
        }
    }
}

/// Why a file ended, as the player's event says.
pub open spec fn end_reason(event: Json) -> Seq<char> {
    match str_field(event, "reason"@) {
        Some(r) => r,
        None => "unknown"@,
    }
}

/// What went wrong with a file, as the player's event says.
pub open spec fn end_detail(event: Json) -> Seq<char> {
    match str_field(event, "file_error"@) {
        Some(d) => d,
        None => "mpv reported an error opening this file"@,
    }
}

/// The growth of a counter; none where it went back.
pub open spec fn grown(now: u64, base: u64) -> u64 {
    if now >= base {
        (now - base) as u64
    } else {
        0
    }
}

impl Session {
    /// The player is at one of the files, and there is a file at all.
    pub open spec fn wf(self) -> bool {
        self.results@.len() > 0 && (self.current is Some ==> self.current->0 < self.results@.len())
    }

    /// A session over the files at positions, in their order. None at all is refused.
    pub fn start(scan: &Scan, order: &Vec<usize>, seconds_each: Option<u64>) -> (r: Result<
        Self,
        String,
    >)
        requires
            forall|i: int| 0 <= i < order@.len() ==> #[trigger] order@[i] < scan.files@.len(),
        ensures
            match r {
                Ok(s) => order@.len() > 0 && s.wf() && s.results@.len() == order@.len() && (forall|
                    i: int,
                |
                    0 <= i < order@.len() ==> untouched(
                        #[trigger] s.results@[i],
                        scan.content().files[order@[i] as int],
                    )) && s.current is None && s.reached == 0 && s.base_delayed == 0
                    && s.base_dropped == 0 && s.seconds_each == seconds_each && !s.ended_early,
                Err(e) => order@.len() == 0 && e@
                    == "nothing to play: the scan found no media files"@,
            },
    {
        if order.len() == 0 {
            return Err(owned("nothing to play: the scan found no media files"));
        }
        let mut results: Vec<FileResult> = Vec::new();
        let mut i: usize = 0;
        while i < order.len()
            invariant
                i <= order@.len(),
                results@.len() == i,
                forall|k: int| 0 <= k < order@.len() ==> #[trigger] order@[k] < scan.files@.len(),
                forall|k: int|
                    0 <= k < i ==> untouched(
                        #[trigger] results@[k],
                        scan.content().files[order@[k] as int],
                    ),
            decreases order@.len() - i,
        {
            let at: usize = order[i];
            assert(order@[i as int] < scan.files@.len());
            assert(scan.content().files[at as int] == scan.files@[at as int].content());
            results.push(FileResult::new(&scan.files[at]));
            i += 1;
        }
        Ok(
            Session {
                results,
                current: None,
                reached: 0,
                base_delayed: 0,
                base_dropped: 0,
                seconds_each,
                ended_early: false,
            },
        )
    }

    /// Whether the current file has had its share of time, so that the next one is due.
    pub fn budget_spent(&self, elapsed_ns: u64) -> (r: bool)
        ensures
            r == (self.current is Some && self.seconds_each is Some && elapsed_ns as int
                >= self.seconds_each->0 as int * 1_000_000_000),
    {
        match (self.seconds_each, self.current) {
            (Some(limit), Some(_)) => elapsed_ns as u128 >= limit as u128 * 1_000_000_000,
            _ => false,
        }
    }

    /// The player starts a file, whose path it may report.
    pub fn on_start_file(&mut self, path: Option<&str>)
        requires
            old(self).wf(),
        ensures
            final(self).wf(),
            final(self).current is Some,
            final(self).current->0 == started(
                old(self).results@,
                old(self).current,
                opt_str_view(path),
            ),
            final(self).reached == crate::scan::bump(old(self).reached as nat),
            final(self).results == old(self).results,
            final(self).base_delayed == old(self).base_delayed,
            final(self).base_dropped == old(self).base_dropped,
            final(self).seconds_each == old(self).seconds_each,
            final(self).ended_early == old(self).ended_early,
    {
        let known = match path {
            Some(p) => self.position(p),
            None => None,
        };
        let next: usize = match known {
            Some(i) => i,
            None => match self.current {
                Some(c) => if c < self.results.len() - 1 {
                    c + 1
                } else {
                    self.results.len() - 1
                },
                None => 0,
            },
        };
        self.current = Some(next);
        if self.reached < usize::MAX {
            self.reached = self.reached + 1;
        }
    }

    fn position(&self, path: &str) -> (r: Option<usize>)
        ensures
            match r {
                Some(i) => i == result_at(self.results@, path@) && i < self.results@.len(),
                None => result_at(self.results@, path@) == -1,
            },
    {
        let ghost all = self.results@;
        let mut i: usize = self.results.len();
        assert(all.take(i as int) =~= all);
        while i > 0
            invariant
                i <= self.results@.len(),
                all == self.results@,
                result_at(all, path@) == result_at(all.take(i as int), path@),
            decreases i,
        {
            proof {
                assert(all.take(i as int).drop_last() =~= all.take(i - 1));
                assert(all.take(i as int).last() == all[i - 1]);
            }
            if same(self.results[i - 1].path.as_str(), path) {
                return Some(i - 1);
            }
            i -= 1;
        }
        None
    }

    /// The current file has loaded: it has, at the least, opened. Gives its position, to report
    /// progress on.
    pub fn on_file_loaded(&mut self, p: Properties, delayed: u64, dropped: u64) -> (r: Option<usize>)
        requires
            old(self).wf(),
        ensures
            final(self).wf(),
            r == old(self).current,
            final(self).current == old(self).current,
            final(self).reached == old(self).reached,
            final(self).seconds_each == old(self).seconds_each,
            final(self).ended_early == old(self).ended_early,
            match old(self).current {
                Some(i) => final(self).results@ == old(self).results@.update(
                    i as int,
                    (FileResult {
                        outcome: Outcome::Played,
                        ..with_properties(old(self).results@[i as int], p)
                    }),
                ) && final(self).base_delayed == delayed && final(self).base_dropped == dropped,
                None => *final(self) == *old(self),
            },
    {
        match self.current {
            Some(i) => {
                let ghost was = self.results@;
                let was_there = self.results.remove(i);
                let mut now = collect_properties(was_there, p);
                now.outcome = Outcome::Played;
                let ghost after = now;
                self.results.insert(i, now);
                assert(self.results@ =~= was.update(i as int, after));
                self.base_delayed = delayed;
                self.base_dropped = dropped;
                Some(i)
            },
            None => None,
        }
    }

    /// The current file has ended, after `seconds_played` and with the player's counters as given.
    /// Gives its position where it failed, to report progress on.
    pub fn on_end_file(
        &mut self,
        event: &Value,
        seconds_played: Measure,
        delayed: u64,
        dropped: u64,
    ) -> (r: Option<usize>)
        requires
            old(self).wf(),
        ensures
            final(self).wf(),
            final(self).current == old(self).current,
            final(self).reached == old(self).reached,
            final(self).base_delayed == old(self).base_delayed,
            final(self).base_dropped == old(self).base_dropped,
            final(self).seconds_each == old(self).seconds_each,
            final(self).ended_early == old(self).ended_early,
            final(self).results@.len() == old(self).results@.len(),
            match old(self).current {
                Some(i) => {
                    let was = old(self).results@[i as int];
                    let now = final(self).results@[i as int];
                    let failed = end_reason(model(*event)) == "error"@;
                    &&& now == (FileResult {
                        seconds_played,
                        delayed_frames: Some(grown(delayed, old(self).base_delayed)),
                        dropped_frames: Some(grown(dropped, old(self).base_dropped)),
                        outcome: now.outcome,
                        ..was
                    })
                    &&& failed ==> now.outcome is Failed && now.outcome->0@ == end_detail(
                        model(*event),
                    )
                    &&& !failed ==> now.outcome == was.outcome
                    &&& r == (if failed {
                        Some(i)
                    } else {
                        None
                    })
                    &&& forall|k: int|
                        0 <= k < old(self).results@.len() && k != i ==> #[trigger] final(
                            self).results@[k] == old(self).results@[k]
                },
                None => r is None && *final(self) == *old(self),
            },
    {
        match self.current {
            Some(i) => {
                let ghost was = self.results@;
                let mut now = self.results.remove(i);
                now.seconds_played = seconds_played;
                now.delayed_frames = Some(
                    if delayed >= self.base_delayed {
                        delayed - self.base_delayed
                    } else {
                        0
                    },
                );
                now.dropped_frames = Some(
                    if dropped >= self.base_dropped {
                        dropped - self.base_dropped
                    } else {
                        0
                    },
                );
                let reason = match str_member(event, "reason") {
                    Some(r) => r,
                    None => owned("unknown"),
                };
                let failed = end_reason_is_failure(reason.as_str());
                if failed {
                    let detail = match str_member(event, "file_error") {
                        Some(d) => d,
                        None => owned("mpv reported an error opening this file"),
                    };
                    now.outcome = Outcome::Failed(detail);
                }
                let ghost after = now;
                self.results.insert(i, now);
                assert(self.results@ =~= was.update(i as int, after));
                if failed {
                    Some(i)
                } else {
                    None
                }
            },
            None => None,
        }
    }

    /// The player has exited by itself: the run ended early if it had not come to every file.
    pub fn on_exit(&mut self)
        ensures
            final(self).ended_early == (old(self).reached < old(self).results@.len()),
            final(self).results == old(self).results,
            final(self).current == old(self).current,
            final(self).reached == old(self).reached,
            final(self).base_delayed == old(self).base_delayed,
            final(self).base_dropped == old(self).base_dropped,
            final(self).seconds_each == old(self).seconds_each,
    {
        self.ended_early = self.reached < self.results.len();
    }

    /// The record of the session.
    pub fn finish(
        self,
        mpv_version: Option<String>,
        vo_used: Option<String>,
        elapsed_s: Measure,
    ) -> (r: SessionReport)
        ensures
            r.results == self.results,
            r.mpv_version == mpv_version,
            r.vo_used == vo_used,
            r.elapsed_s == elapsed_s,
            r.ended_early == self.ended_early,
    {
        SessionReport {
            results: self.results,
            mpv_version,
            vo_used,
            elapsed_s,
            ended_early: self.ended_early,
        }
    }
}

proof fn result_at_is_there(results: Seq<FileResult>, path: Seq<char>)
    ensures
        -1 <= result_at(results, path) < results.len(),
        result_at(results, path) >= 0 ==> results[result_at(results, path)].path@ == path,
        result_at(results, path) < 0 ==> forall|i: int|
            0 <= i < results.len() ==> (#[trigger] results[i]).path@ != path,
    decreases results.len(),
{
    if results.len() > 0 && results.last().path@ != path {
        let front = results.drop_last();
        result_at_is_there(front, path);
        assert forall|i: int| 0 <= i < results.len() && result_at(results, path) < 0 implies (
        #[trigger] results[i]).path@ != path by {
            if i < front.len() {
                assert(front[i] == results[i]);
            }
        }
    }
}

/// The path that the player reports decides which file it is at, whatever file it was at before and
/// in whatever order it plays. Only where it reports none that is known does the file after the one
/// before come next, or the first where there was none.
pub proof fn the_reported_path_decides(
    results: Seq<FileResult>,
    current: Option<usize>,
    path: Option<Seq<char>>,
)
    requires
        results.len() > 0,
        current is Some ==> current->0 < results.len(),
    ensures
        0 <= started(results, current, path) < results.len(),
        forall|k: int|
            0 <= k < results.len() && path == Some((#[trigger] results[k]).path@)
                ==> results[started(results, current, path)].path@ == results[k].path@,
        (forall|k: int| 0 <= k < results.len() ==> path != Some((#[trigger] results[k]).path@))
            && current is None ==> started(results, current, path) == 0,
        (forall|k: int| 0 <= k < results.len() ==> path != Some((#[trigger] results[k]).path@))
            && current is Some && current->0 + 1 < results.len() ==> started(results, current, path)
            == current->0 + 1,
{
    if let Some(p) = path {
        result_at_is_there(results, p);
    }
}

/// A file fails exactly where the player gives an error as the reason of its end, and then for the
/// reason that the player gives.
pub proof fn only_errors_are_failures(event: Json)
    ensures
        end_reason(event) == "error"@ <==> str_field(event, "reason"@) == Some("error"@),
        str_field(event, "file_error"@) is Some ==> end_detail(event) == str_field(
            event,
            "file_error"@,
        )->0,
        end_detail(event).len() > 0 || str_field(event, "file_error"@) is Some,
{
    reveal_strlit("error");
    reveal_strlit("unknown");
    reveal_strlit("mpv reported an error opening this file");
    assert("error"@.len() == 5 && "unknown"@.len() == 7);
}

/// A counter that only goes up has grown by what it gained, and growth adds up.
pub proof fn growth_adds_up(a: u64, b: u64, c: u64)
    requires
        a <= b <= c,
    ensures
        grown(b, a) + grown(c, b) == grown(c, a),
        a + grown(b, a) == b,
        grown(a, b) == 0,
{
}

/// The results that are asked for are all of those that have the property and no other, each once and
/// in the order of the session; and they are counted so.
pub proof fn those_are_all(results: Seq<FileResult>, p: spec_fn(FileResult) -> bool)
    ensures
        forall|i: int| #[trigger]
            those(results, p).contains(i) <==> 0 <= i < results.len() && p(results[i]),
        forall|j: int, k: int|
            0 <= j < k < those(results, p).len() ==> #[trigger] those(results, p)[j]
                < #[trigger] those(results, p)[k],
        count_of(results, p) == results.filter(p).len(),
        count_of(results, p) == those(results, p).len(),
    decreases results.len(),
{
    reveal(Seq::filter);
    those_are_inside(results, p);
    let all = those(results, p);
    if results.len() > 0 {
        let front = results.drop_last();
        let rest = those(front, p);
        let n = results.len() - 1;
        those_are_all(front, p);
        those_are_inside(front, p);
        assert forall|i: int| #[trigger] all.contains(i) <==> 0 <= i < results.len() && p(
            results[i],
        ) by {
            if all.contains(i) {
                let k = choose|k: int| 0 <= k < all.len() && all[k] == i;
            }
            if 0 <= i < results.len() && p(results[i]) {
                if i < n {
                    assert(front[i] == results[i]);
                    assert(rest.contains(i));
                    let k = choose|k: int| 0 <= k < rest.len() && rest[k] == i;
                    assert(all[k] == i);
                } else {
                    assert(all[rest.len() as int] == i);
                }
            }
        }
        assert forall|j: int, k: int| 0 <= j < k < all.len() implies #[trigger] all[j]
            < #[trigger] all[k] by {
            if k < rest.len() {
                assert(rest[j] < rest[k]);
            } else {
                assert(all[j] == rest[j]);
                assert(0 <= rest[j] < front.len());
            }
        }
    }
}

/// The tracks of a kind are counted among those that say they are of that kind.
pub proof fn tracks_are_counted_by_kind(list: Seq<Json>, kind: Seq<char>)
    ensures
        tracks_of(list, list.len(), kind) == list.filter(
            |v: Json| str_field(v, "type"@) == Some(kind),
        ).len(),
        kinded(list, list.len()) == list.filter(|v: Json| str_field(v, "type"@) is Some),
    decreases list.len(),
{
    reveal(Seq::filter);
    if list.len() > 0 {
        let front = list.drop_last();
        tracks_are_counted_by_kind(front, kind);
        beginnings_count(list, front, front.len(), kind);
    }
}

proof fn beginnings_count(list: Seq<Json>, front: Seq<Json>, n: nat, kind: Seq<char>)
    requires
        front == list.drop_last(),
        list.len() > 0,
        n <= front.len(),
    ensures
        tracks_of(list, n, kind) == tracks_of(front, n, kind),
        kinded(list, n) == kinded(front, n),
    decreases n,
{
    if n > 0 {
        beginnings_count(list, front, (n - 1) as nat, kind);
    }
}

/// The paths of a playlist are those that fit on a line, all of them and in order.
pub proof fn whatever_fits_is_listed(paths: Seq<Seq<char>>)
    ensures
        listable(paths) == paths.filter(|p: Seq<char>| !p.contains('\n') && !p.contains('\r')),
    decreases paths.len(),
{
    reveal(Seq::filter);
    if paths.len() > 0 {
        whatever_fits_is_listed(paths.drop_last());
    }
}

/// A session's player is given the playlist and the socket that it was asked to use, the decoder and
/// the output of the options, and each switch exactly where the option is set (or the user passes it).
pub proof fn options_reach_the_player(playlist: Seq<char>, ipc: Seq<char>, o: PlayOptions)
    ensures
        ({
            let all = session_args(playlist, ipc, o);
            let extra = views(o.extra_args@);
            &&& all.contains("--playlist="@ + playlist)
            &&& all.contains("--input-ipc-server="@ + ipc)
            &&& all.contains("--hwdec="@ + o.hwdec@)
            &&& o.vo is Some ==> all.contains("--vo="@ + o.vo->0@)
            &&& all.contains("--fullscreen=yes"@) <==> o.fullscreen || extra.contains(
                "--fullscreen=yes"@,
            )
            &&& all.contains("--shuffle"@) <==> o.shuffle || extra.contains("--shuffle"@)
            &&& all.contains("--pause=yes"@) <==> o.start_paused || extra.contains("--pause=yes"@)
        }),
{
    let all = session_args(playlist, ipc, o);
    let extra = views(o.extra_args@);
    assert(all[0] == "--input-ipc-server="@ + ipc);
    assert(all[1] == "--playlist="@ + playlist);
    assert(all[2] == "--hwdec="@ + o.hwdec@);
    assert(all[3] == "--vo="@ + (match o.vo {
        Some(v) => v@,
        None => "gpu-next"@,
    }));
    assert(all[4] == "--keep-open=no"@ && all[5] == "--idle=yes"@ && all[6] == "--force-window=yes"@
        && all[7] == "--sub-auto=fuzzy"@ && all[8] == "--audio-file-auto=fuzzy"@ && all[9]
        == "--audio-fallback-to-null=yes"@);
    reveal_strlit("--input-ipc-server=");
    reveal_strlit("--playlist=");
    reveal_strlit("--hwdec=");
    reveal_strlit("--vo=");
    reveal_strlit("--keep-open=no");
    reveal_strlit("--idle=yes");
    reveal_strlit("--force-window=yes");
    reveal_strlit("--sub-auto=fuzzy");
    reveal_strlit("--audio-file-auto=fuzzy");
    reveal_strlit("--audio-fallback-to-null=yes");
    reveal_strlit("--fullscreen=yes");
    reveal_strlit("--shuffle");
    reveal_strlit("--pause=yes");
    let n = all.len() - extra.len();
    let f = "--fullscreen=yes"@;
    let s = "--shuffle"@;
    let p = "--pause=yes"@;
    assert(f[2] == 'f' && f[3] == 'u' && s[2] == 's' && s[3] == 'h' && p[2] == 'p' && p[3] == 'a');
    assert forall|i: int| 0 <= i < 10 implies (#[trigger] all[i]) != f && all[i] != s && all[i]
        != p by {
        if i == 0 {
            assert(all[0][2] == 'i');
        } else if i == 1 {
            assert(all[1][2] == 'p' && all[1][3] == 'l');
        } else if i == 2 {
            assert(all[2][2] == 'h');
        } else if i == 3 {
            assert(all[3][2] == 'v');
        } else if i == 4 {
            assert(all[4][2] == 'k');
        } else if i == 5 {
            assert(all[5][2] == 'i');
        } else if i == 6 {
            assert(all[6][2] == 'f' && all[6][3] == 'o');
        } else if i == 7 {
            assert(all[7][2] == 's' && all[7][3] == 'u');
        } else if i == 8 {
            assert(all[8][2] == 'a');
        } else {
            assert(all[9][2] == 'a');
        }
    }
    assert forall|i: int| 0 <= i < extra.len() implies #[trigger] extra[i] == all[n + i] by {}
    assert forall|i: int| n <= i < all.len() implies #[trigger] all[i] == extra[i - n] by {}
    let at_f = 10int;
    let at_s = if o.fullscreen {
        11int
    } else {
        10
    };
    let at_p = if o.shuffle {
        at_s + 1
    } else {
        at_s
    };
    if o.fullscreen {
        assert(all[at_f] == f);
    }
    if o.shuffle {
        assert(all[at_s] == s);
    }
    if o.start_paused {
        assert(all[at_p] == p);
    }
    assert forall|x: Seq<char>| #[trigger] extra.contains(x) implies all.contains(x) by {
        let i = choose|i: int| 0 <= i < extra.len() && extra[i] == x;
        assert(all[n + i] == x);
    }
    if all.contains(f) && !extra.contains(f) {
        let i = choose|i: int| 0 <= i < all.len() && all[i] == f;
        if i >= n {
            assert(extra[i - n] == f);
        }
    }
    if all.contains(s) && !extra.contains(s) {
        let i = choose|i: int| 0 <= i < all.len() && all[i] == s;
        if i >= n {
            assert(extra[i - n] == s);
        }
    }
    if all.contains(p) && !extra.contains(p) {
        let i = choose|i: int| 0 <= i < all.len() && all[i] == p;
        if i >= n {
            assert(extra[i - n] == p);
        }
    }
}

/// What loads keeps its place: a result that learns a file's properties is still that of the same
/// file, with the same outcome and counters; its width and height are those of the file; a declared
/// rate counts before an estimated one.
pub proof fn properties_say_nothing_of_the_outcome(r: FileResult, p: Properties, w: u32, h: u32)
    requires
        p.width == Some(Measure::Finite { negative: false, mantissa: w as u64, exponent: 0 }),
        p.height == Some(Measure::Finite { negative: false, mantissa: h as u64, exponent: 0 }),
    ensures
        ({
            let now = with_properties(r, p);
            &&& now.path == r.path && now.label == r.label && now.outcome == r.outcome
            &&& now.seconds_played == r.seconds_played
            &&& now.delayed_frames == r.delayed_frames && now.dropped_frames == r.dropped_frames
            &&& now.width == Some(w) && now.height == Some(h)
            &&& p.container_fps is Some ==> now.fps == p.container_fps
            &&& p.container_fps is None ==> now.fps == p.estimated_fps
            &&& now.video_codec == p.video_codec && now.audio_codec == p.audio_codec
            &&& now.hwdec == p.hwdec && now.gamma == p.gamma && now.primaries == p.primaries
            &&& now.duration == p.duration && now.seekable == p.seekable
        }),
{
    vstd::arithmetic::power2::lemma2_to64();
    assert(w as u64 as nat * 1 == w);
    assert(h as u64 as nat * 1 == h);
}

/// The resolution names the width before the height, and both can be read back from it.
pub proof fn the_resolution_reads_back(r: FileResult, w: u32, h: u32)
    requires
        r.width == Some(w),
        r.height == Some(h),
    ensures
        match r.size_text() {
            None => false,
            Some(text) => exists|a: Seq<char>, b: Seq<char>|
                text == #[trigger] a.add("x"@).add(b) && digits_value(a) == w && digits_value(b)
                    == h,
        },
{
    crate::json_writer::dec_value(w as nat);
    crate::json_writer::dec_value(h as nat);
    assert(r.size_text()->0 == dec(w as nat).add("x"@).add(dec(h as nat)));
}

/// Whether a file is decoded in software, is HDR or cannot be navigated goes by one property of the
/// player each: nothing else of the file has a say.
pub proof fn flags_go_by_their_own_property(a: FileResult, b: FileResult)
    ensures
        opt_view(a.gamma) == opt_view(b.gamma) ==> a.hdr() == b.hdr(),
        opt_view(a.hwdec) == opt_view(b.hwdec) && a.outcome == b.outcome ==> a.in_software()
            == b.in_software(),
        a.seekable == b.seekable && a.duration == b.duration && a.outcome == b.outcome ==> a.stuck()
            == b.stuck(),
        a.hwdec is None ==> !a.in_software(),
        a.gamma is None ==> !a.hdr(),
        a.duration is None || a.seekable != Some(false) ==> !a.stuck(),
        a.outcome is Played && a.hwdec is Some && a.hwdec->0@ == "no"@ ==> a.in_software(),
        a.hwdec is Some && a.hwdec->0@ != "no"@ && a.hwdec->0@.len() > 0 ==> !a.in_software(),
{
}

/// The player's events are told apart by their names, and any other name means nothing.
pub proof fn events_are_told_by_name(name: Option<Seq<char>>)
    ensures
        event_kind(name) is StartFile <==> name == Some("start-file"@),
        event_kind(name) is FileLoaded <==> name == Some("file-loaded"@),
        event_kind(name) is EndFile <==> name == Some("end-file"@),
        event_kind(name) is Idle <==> name == Some("idle"@),
{
    reveal_strlit("start-file");
    reveal_strlit("file-loaded");
    reveal_strlit("end-file");
    reveal_strlit("idle");
    assert("start-file"@.len() == 10 && "file-loaded"@.len() == 11 && "end-file"@.len() == 8
        && "idle"@.len() == 4);
}

/// A whole number under a name is that count.
pub proof fn whole_numbers_are_counted(v: Json, key: Seq<char>, n: u32)
    requires
        field(v, key) == Some(Json::Num(int_dec(n as int))),
    ensures
        count_in(v, key) == Some(n),
        measure_in(v, key) is Some && measure_in(v, key)->0.whole_part() == n,
{
    crate::json_writer::integers_read_as_nearest(n as nat);
    crate::binary64::whole_numbers_are_exact(n as nat);
}

/// A track has its number, its size, its channels and rates from the member of that name in the
/// player's list, and its marks from theirs.
pub proof fn tracks_are_what_the_list_says(v: Json, t: TrackInfo, n: u32)
    requires
        describes(v, t),
    ensures
        ({
            let said = Some(Json::Num(int_dec(n as int)));
            &&& field(v, "id"@) == said ==> t.id == n
            &&& field(v, "demux-w"@) == said ==> t.width == Some(n)
            &&& field(v, "demux-h"@) == said ==> t.height == Some(n)
            &&& field(v, "demux-channel-count"@) == said ==> t.channels == Some(n)
            &&& field(v, "demux-samplerate"@) == said ==> t.sample_rate == Some(n)
            &&& field(v, "demux-bitrate"@) == said ==> t.bitrate_bps == Some(n as u64)
            &&& field(v, "demux-w"@) is None ==> t.width is None
            &&& field(v, "demux-h"@) is None ==> t.height is None
            &&& field(v, "selected"@) == Some(Json::Bool(true)) <==> t.selected
            &&& field(v, "default"@) == Some(Json::Bool(true)) <==> t.default
            &&& field(v, "forced"@) == Some(Json::Bool(true)) <==> t.forced
            &&& field(v, "external"@) == Some(Json::Bool(true)) <==> t.external
            &&& str_field(v, "codec"@) is Some ==> t.codec is Some && t.codec->0@ == str_field(
                v,
                "codec"@,
            )->0
            &&& str_field(v, "lang"@) is Some ==> t.lang is Some && t.lang->0@ == str_field(
                v,
                "lang"@,
            )->0
            &&& str_field(v, "title"@) is Some ==> t.title is Some && t.title->0@ == str_field(
                v,
                "title"@,
            )->0
        }),
{
    let said = Some(Json::Num(int_dec(n as int)));
    if field(v, "id"@) == said {
        whole_numbers_are_counted(v, "id"@, n);
    }
    if field(v, "demux-w"@) == said {
        whole_numbers_are_counted(v, "demux-w"@, n);
    }
    if field(v, "demux-h"@) == said {
        whole_numbers_are_counted(v, "demux-h"@, n);
    }
    if field(v, "demux-channel-count"@) == said {
        whole_numbers_are_counted(v, "demux-channel-count"@, n);
    }
    if field(v, "demux-samplerate"@) == said {
        whole_numbers_are_counted(v, "demux-samplerate"@, n);
    }
    if field(v, "demux-bitrate"@) == said {
        whole_numbers_are_counted(v, "demux-bitrate"@, n);
    }
}

/// A file that played and does not let itself be navigated is reported where it lasts more than a
/// minute; one with late frames where there are more than ten.
pub proof fn small_faults_are_let_pass(r: FileResult, seconds: u64)
    requires
        r.outcome is Played,
        r.duration == Some(Measure::Finite { negative: false, mantissa: seconds, exponent: 0 }),
    ensures
        r.stuck() <==> r.seekable == Some(false) && seconds > 60,
        is_late()(r) <==> r.delayed_frames is Some && r.delayed_frames->0 > 10,
{
    vstd::arithmetic::power2::lemma2_to64();
    assert(seconds as nat * 1 == seconds);
}

/// Of a file that was not reached nothing is said but that: it neither played nor failed, and no fault
/// of it is reported.
pub proof fn nothing_is_said_of_what_was_not_reached(r: FileResult, f: Scanned)
    requires
        untouched(r, f),
    ensures
        r.path@ == f.path,
        r.label@ == label_of(f),
        is_unreached()(r),
        !is_played()(r) && !is_failed()(r),
        !is_software()(r) && !is_stuck()(r) && !is_late()(r),
        !r.hdr(),
        r.size_text() is None,
        r.seconds_played.whole_part() == 0,
        r.tracks@.len() == 0,
{
    vstd::arithmetic::power2::lemma2_to64();
}

/// What the player says of a file once it is loaded goes where it belongs; without a track list the
/// counts stay as they were.
pub proof fn properties_go_where_they_belong(r: FileResult, p: Properties)
    ensures
        ({
            let now = with_properties(r, p);
            &&& now.file_format == p.file_format && now.pixel_format == p.pixel_format
            &&& now.colormatrix == p.colormatrix && now.audio_channels == p.audio_channels
            &&& now.tracks == p.tracks
            &&& p.track_counts is Some ==> now.track_counts == p.track_counts->0
            &&& p.track_counts is None ==> now.track_counts == r.track_counts
            &&& p.width is None ==> now.width is None
            &&& p.height is None ==> now.height is None
        }),
{
}

} // verus!
