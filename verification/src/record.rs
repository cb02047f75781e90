//! The machine-readable record of a scan and of a playback session.
use vstd::prelude::*;
use vstd::string::*;

use crate::json::{document, field, quote, quoted, Json};
use crate::json_layout::{
    blanks,
    laid_array,
    laid_object,
    lay_array,
    lay_object,
    reads_laid_array,
    reads_laid_object,
};
use crate::json_writer::{
    array_of,
    array_text,
    members_are_found,
    object_of,
    object_text,
    pairs_view,
    reads_array,
    reads_as,
    reads_bool,
    reads_deeper,
    reads_document,
    reads_int,
    reads_null,
    reads_number,
    reads_object,
    reads_string,
    with_members,
};
use crate::measure::{fixed_is_a_number, Measure};
use crate::media::Container;
use crate::remote::protocol::{bool_text, bool_word};
use crate::scan::{
    contents,
    notes_of,
    Confidence,
    Found,
    MediaKind,
    Scan,
    Scanned,
    ScannedFile,
};
use crate::session::{FileResult, Outcome, SessionReport, TrackCounts};
use crate::text::{dec, dec_text, int_dec, opt_borrow, opt_str_view, opt_view, owned, views};

verus! {

impl MediaKind {
    /// The name of the kind.
    pub open spec fn shown(self) -> Seq<char> {
        match self {
            MediaKind::Video => "Video"@,
            MediaKind::Audio => "Audio"@,
            MediaKind::Subtitle => "Subtitle"@,
            MediaKind::Other => "Other"@,
        }
    }

    /// The name of the kind.
    pub fn name(self) -> (r: String)
        ensures
            r@ == self.shown(),
    {
        match self {
            MediaKind::Video => owned("Video"),
            MediaKind::Audio => owned("Audio"),
            MediaKind::Subtitle => owned("Subtitle"),
            MediaKind::Other => owned("Other"),
        }
    }
}

/// A text as a JSON string; `null` when there is none.
pub open spec fn opt_quoted(v: Option<Seq<char>>) -> Seq<char> {
    match v {
        Some(s) => quoted(s),
        None => "null"@,
    }
}

/// The JSON value of a text that may be missing.
pub open spec fn opt_str_value(v: Option<Seq<char>>) -> Json {
    match v {
        Some(s) => Json::Str(s),
        None => Json::Null,
    }
}

pub(crate) fn opt_str(v: Option<&str>) -> (r: String)
    ensures
        r@ == opt_quoted(opt_str_view(v)),
{
    match v {
        Some(s) => quote(s),
        None => owned("null"),
    }
}

pub proof fn opt_quoted_reads(v: Option<Seq<char>>)
    ensures
        reads_as(opt_quoted(v), opt_str_value(v), 1),
{
    match v {
        Some(s) => reads_string(s),
        None => reads_null(),
    }
}

/// A number as a numeral; `null` when there is none.
pub open spec fn opt_numeral(v: Option<nat>) -> Seq<char> {
    match v {
        Some(n) => dec(n),
        None => "null"@,
    }
}

/// The JSON value of a number that may be missing.
pub open spec fn opt_num_value(v: Option<nat>) -> Json {
    match v {
        Some(n) => Json::Num(dec(n)),
        None => Json::Null,
    }
}

/// A number that may be missing, as a natural one.
pub open spec fn opt_nat(v: Option<u64>) -> Option<nat> {
    match v {
        Some(n) => Some(n as nat),
        None => None,
    }
}

pub(crate) fn opt_num(v: Option<u64>) -> (r: String)
    ensures
        r@ == opt_numeral(opt_nat(v)),
{
    match v {
        Some(n) => dec_text(n as u128),
        None => owned("null"),
    }
}

pub proof fn dec_reads(n: nat)
    ensures
        reads_as(dec(n), Json::Num(dec(n)), 1),
{
    reads_int(n as int);
    assert(int_dec(n as int) == dec(n));
}

pub proof fn opt_numeral_reads(v: Option<nat>)
    ensures
        reads_as(opt_numeral(v), opt_num_value(v), 1),
{
    match v {
        Some(n) => dec_reads(n),
        None => reads_null(),
    }
}

/// A measure with three decimal places; `null` when it is missing or not finite.
pub open spec fn opt_fixed(v: Option<Measure>) -> Seq<char> {
    match v {
        Some(m) => m.fixed(),
        None => "null"@,
    }
}

/// The JSON value of a measure that may be missing.
pub open spec fn opt_fixed_value(v: Option<Measure>) -> Json {
    match v {
        Some(m) => if m is Finite {
            Json::Num(m.fixed())
        } else {
            Json::Null
        },
        None => Json::Null,
    }
}

/// A measure with three decimal places; `null` when it is missing or not finite.
pub fn f64_or_null(v: Option<Measure>) -> (r: String)
    ensures
        r@ == opt_fixed(v),
{
    match v {
        Some(m) => m.fixed3(),
        None => owned("null"),
    }
}

proof fn opt_fixed_reads(v: Option<Measure>)
    ensures
        reads_as(opt_fixed(v), opt_fixed_value(v), 1),
{
    reads_null();
    match v {
        Some(m) => if m is Finite {
            fixed_is_a_number(m);
            reads_number(m.fixed());
        },
        None => {},
    }
}

/// A truth value as a JSON word; `null` when it is not known.
pub open spec fn opt_word(v: Option<bool>) -> Seq<char> {
    match v {
        Some(b) => bool_word(b),
        None => "null"@,
    }
}

/// The JSON value of a truth value that may not be known.
pub open spec fn opt_bool_value(v: Option<bool>) -> Json {
    match v {
        Some(b) => Json::Bool(b),
        None => Json::Null,
    }
}

pub(crate) fn opt_bool(v: Option<bool>) -> (r: String)
    ensures
        r@ == opt_word(v),
{
    match v {
        Some(b) => bool_text(b),
        None => owned("null"),
    }
}

pub proof fn opt_word_reads(v: Option<bool>)
    ensures
        reads_as(opt_word(v), opt_bool_value(v), 1),
{
    reads_null();
    match v {
        Some(b) => reads_bool(b),
        None => {},
    }
}

/// The name of a container, where there is one.
pub open spec fn container_name(c: Option<Container>) -> Option<Seq<char>> {
    match c {
        Some(c) => Some(c.shown()),
        None => None,
    }
}

/// The name of a confidence, where there is one.
pub open spec fn confidence_name(c: Option<Confidence>) -> Option<Seq<char>> {
    match c {
        Some(c) => Some(c.shown()),
        None => None,
    }
}

/// Texts as JSON strings.
pub open spec fn quoted_all(t: Seq<Seq<char>>) -> Seq<Seq<char>> {
    Seq::new(t.len(), |i: int| quoted(t[i]))
}

/// Texts as JSON values.
pub open spec fn str_values(t: Seq<Seq<char>>) -> Seq<Json> {
    Seq::new(t.len(), |i: int| Json::Str(t[i]))
}

/// The JSON object with the given members.
pub open spec fn object_json(v: Seq<(Seq<char>, Json)>) -> Json {
    Json::Object(with_members(Map::empty(), v, 0))
}

/// The members of a file's entry, as they are written.
pub open spec fn file_members(f: Scanned) -> Seq<(Seq<char>, Seq<char>)> {
    seq![
        ("path"@, quoted(f.path)),
        ("size"@, dec(f.size as nat)),
        ("kind"@, quoted(f.kind.shown())),
        ("container"@, opt_quoted(container_name(f.container))),
        ("confidence"@, opt_quoted(confidence_name(f.confidence))),
        ("evidence"@, opt_quoted(f.evidence)),
        ("extension_mismatch"@, bool_word(f.extension_mismatch)),
        ("unidentified"@, bool_word(f.unidentified)),
        ("title"@, quoted(f.parsed.title)),
        ("year"@, opt_numeral(opt_nat(f.year()))),
        ("notes"@, array_text(quoted_all(notes_of(f)))),
    ]
}

/// The members of a file's entry, as values.
pub open spec fn file_values(f: Scanned) -> Seq<(Seq<char>, Json)> {
    seq![
        ("path"@, Json::Str(f.path)),
        ("size"@, Json::Num(dec(f.size as nat))),
        ("kind"@, Json::Str(f.kind.shown())),
        ("container"@, opt_str_value(container_name(f.container))),
        ("confidence"@, opt_str_value(confidence_name(f.confidence))),
        ("evidence"@, opt_str_value(f.evidence)),
        ("extension_mismatch"@, Json::Bool(f.extension_mismatch)),
        ("unidentified"@, Json::Bool(f.unidentified)),
        ("title"@, Json::Str(f.parsed.title)),
        ("year"@, opt_num_value(opt_nat(f.year()))),
        ("notes"@, Json::Array(str_values(notes_of(f)))),
    ]
}

impl Scanned {
    /// The year in the file's name.
    pub open spec fn year(self) -> Option<u64> {
        match self.parsed.year {
            Some(y) => Some(y as u64),
            None => None,
        }
    }
}

fn quote_all(t: &Vec<String>) -> (r: Vec<String>)
    ensures
        views(r@) == quoted_all(views(t@)),
{
    let mut out: Vec<String> = Vec::new();
    let mut i: usize = 0;
    while i < t.len()
        invariant
            i <= t@.len(),
            out@.len() == i,
            forall|k: int| 0 <= k < i ==> (#[trigger] out@[k])@ == quoted(t@[k]@),
        decreases t@.len() - i,
    {
        out.push(quote(t[i].as_str()));
        i += 1;
    }
    assert(views(out@) =~= quoted_all(views(t@)));
    out
}

fn file_entry(f: &ScannedFile) -> (r: String)
    requires
        f.content().wf(),
    ensures
        r@ == object_text(file_members(f.content())),
{
    let container = match f.container {
        Some(c) => Some(c.name()),
        None => None,
    };
    let confidence = match f.confidence {
        Some(c) => Some(c.name()),
        None => None,
    };
    let year: Option<u64> = match f.parsed.year {
        Some(y) => Some(y as u64),
        None => None,
    };
    let members = vec![
        ("path", quote(f.path.as_str())),
        ("size", dec_text(f.size as u128)),
        ("kind", quote(f.kind.name().as_str())),
        ("container", opt_str(opt_borrow(&container))),
        ("confidence", opt_str(opt_borrow(&confidence))),
        ("evidence", opt_str(opt_borrow(&f.evidence))),
        ("extension_mismatch", bool_text(f.extension_mismatch)),
        ("unidentified", bool_text(f.unidentified)),
        ("title", quote(f.parsed.title.as_str())),
        ("year", opt_num(year)),
        ("notes", array_of(&quote_all(&f.notes()))),
    ];
    assert(pairs_view(members@) =~= file_members(f.content()));
    object_of(&members)
}

/// The entries of files, as they are written.
pub open spec fn file_texts(files: Seq<Scanned>) -> Seq<Seq<char>> {
    Seq::new(files.len(), |i: int| object_text(file_members(files[i])))
}

/// The entries of files, as values.
pub open spec fn file_entries(files: Seq<Scanned>) -> Seq<Json> {
    Seq::new(files.len(), |i: int| object_json(file_values(files[i])))
}

/// The members of the entry of a directory that could not be read, as they are written.
pub open spec fn unreadable_members(u: (Seq<char>, Seq<char>)) -> Seq<(Seq<char>, Seq<char>)> {
    seq![("path"@, quoted(u.0)), ("error"@, quoted(u.1))]
}

/// The members of the entry of a directory that could not be read, as values.
pub open spec fn unreadable_values(u: (Seq<char>, Seq<char>)) -> Seq<(Seq<char>, Json)> {
    seq![("path"@, Json::Str(u.0)), ("error"@, Json::Str(u.1))]
}

/// The entries of directories that could not be read, as they are written.
pub open spec fn unreadable_texts(u: Seq<(Seq<char>, Seq<char>)>) -> Seq<Seq<char>> {
    Seq::new(u.len(), |i: int| object_text(unreadable_members(u[i])))
}

/// The entries of directories that could not be read, as values.
pub open spec fn unreadable_entries(u: Seq<(Seq<char>, Seq<char>)>) -> Seq<Json> {
    Seq::new(u.len(), |i: int| object_json(unreadable_values(u[i])))
}

/// The word for an outcome.
pub open spec fn outcome_word(o: Outcome) -> Seq<char> {
    match o {
        Outcome::Played => "played"@,
        Outcome::Failed(_) => "failed"@,
        Outcome::NotReached => "not_reached"@,
    }
}

/// Why a file failed, when it did.
pub open spec fn outcome_detail(o: Outcome) -> Option<Seq<char>> {
    match o {
        Outcome::Failed(why) => Some(why@),
        _ => None,
    }
}

/// The counts of tracks, as they are written.
pub open spec fn track_members(t: TrackCounts) -> Seq<(Seq<char>, Seq<char>)> {
    seq![
        ("video"@, dec(t.video as nat)),
        ("audio"@, dec(t.audio as nat)),
        ("subtitle"@, dec(t.subtitle as nat)),
    ]
}

/// The counts of tracks, as values.
pub open spec fn track_values(t: TrackCounts) -> Seq<(Seq<char>, Json)> {
    seq![
        ("video"@, Json::Num(dec(t.video as nat))),
        ("audio"@, Json::Num(dec(t.audio as nat))),
        ("subtitle"@, Json::Num(dec(t.subtitle as nat))),
    ]
}

/// A size in pixels that may be missing, as a natural number.
pub open spec fn opt_pixels(v: Option<u32>) -> Option<nat> {
    match v {
        Some(n) => Some(n as nat),
        None => None,
    }
}

/// The members of a result, as they are written.
pub open spec fn result_members(r: FileResult) -> Seq<(Seq<char>, Seq<char>)> {
    seq![
        ("path"@, quoted(r.path@)),
        ("outcome"@, quoted(outcome_word(r.outcome))),
        ("error"@, opt_quoted(outcome_detail(r.outcome))),
        ("seconds_played"@, r.seconds_played.fixed()),
        ("file_format"@, opt_quoted(opt_view(r.file_format))),
        ("video_codec"@, opt_quoted(opt_view(r.video_codec))),
        ("audio_codec"@, opt_quoted(opt_view(r.audio_codec))),
        ("width"@, opt_numeral(opt_pixels(r.width))),
        ("height"@, opt_numeral(opt_pixels(r.height))),
        ("fps"@, opt_fixed(r.fps)),
        ("duration"@, opt_fixed(r.duration)),
        ("hwdec"@, opt_quoted(opt_view(r.hwdec))),
        ("seekable"@, opt_word(r.seekable)),
        ("pixel_format"@, opt_quoted(opt_view(r.pixel_format))),
        ("primaries"@, opt_quoted(opt_view(r.primaries))),
        ("gamma"@, opt_quoted(opt_view(r.gamma))),
        ("hdr"@, bool_word(r.hdr())),
        ("tracks"@, object_text(track_members(r.track_counts))),
        ("delayed_frames"@, opt_numeral(opt_nat(r.delayed_frames))),
        ("dropped_frames"@, opt_numeral(opt_nat(r.dropped_frames))),
    ]
}

/// The members of a result, as values.
pub open spec fn result_values(r: FileResult) -> Seq<(Seq<char>, Json)> {
    seq![
        ("path"@, Json::Str(r.path@)),
        ("outcome"@, Json::Str(outcome_word(r.outcome))),
        ("error"@, opt_str_value(outcome_detail(r.outcome))),
        ("seconds_played"@, opt_fixed_value(Some(r.seconds_played))),
        ("file_format"@, opt_str_value(opt_view(r.file_format))),
        ("video_codec"@, opt_str_value(opt_view(r.video_codec))),
        ("audio_codec"@, opt_str_value(opt_view(r.audio_codec))),
        ("width"@, opt_num_value(opt_pixels(r.width))),
        ("height"@, opt_num_value(opt_pixels(r.height))),
        ("fps"@, opt_fixed_value(r.fps)),
        ("duration"@, opt_fixed_value(r.duration)),
        ("hwdec"@, opt_str_value(opt_view(r.hwdec))),
        ("seekable"@, opt_bool_value(r.seekable)),
        ("pixel_format"@, opt_str_value(opt_view(r.pixel_format))),
        ("primaries"@, opt_str_value(opt_view(r.primaries))),
        ("gamma"@, opt_str_value(opt_view(r.gamma))),
        ("hdr"@, Json::Bool(r.hdr())),
        ("tracks"@, object_json(track_values(r.track_counts))),
        ("delayed_frames"@, opt_num_value(opt_nat(r.delayed_frames))),
        ("dropped_frames"@, opt_num_value(opt_nat(r.dropped_frames))),
    ]
}

/// The results of a session, as they are written.
pub open spec fn result_texts(r: Seq<FileResult>) -> Seq<Seq<char>> {
    Seq::new(r.len(), |i: int| object_text(result_members(r[i])))
}

/// The results of a session, as values.
pub open spec fn result_entries(r: Seq<FileResult>) -> Seq<Json> {
    Seq::new(r.len(), |i: int| object_json(result_values(r[i])))
}

/// The members of a session, as they are written.
pub open spec fn session_members(rep: SessionReport) -> Seq<(Seq<char>, Seq<char>)> {
    seq![
        ("mpv_version"@, opt_quoted(opt_view(rep.mpv_version))),
        ("vo"@, opt_quoted(opt_view(rep.vo_used))),
        ("elapsed_s"@, rep.elapsed_s.fixed()),
        ("ended_early"@, bool_word(rep.ended_early)),
        ("results"@, laid_array(result_texts(rep.results@), "      "@, "    "@)),
    ]
}

/// The members of a session, as values.
pub open spec fn session_values(rep: SessionReport) -> Seq<(Seq<char>, Json)> {
    seq![
        ("mpv_version"@, opt_str_value(opt_view(rep.mpv_version))),
        ("vo"@, opt_str_value(opt_view(rep.vo_used))),
        ("elapsed_s"@, opt_fixed_value(Some(rep.elapsed_s))),
        ("ended_early"@, Json::Bool(rep.ended_early)),
        ("results"@, Json::Array(result_entries(rep.results@))),
    ]
}

/// A session, as it is written; `null` when none ran.
pub open spec fn session_text(rep: Option<SessionReport>) -> Seq<char> {
    match rep {
        Some(rep) => laid_object(session_members(rep), "    "@, "  "@),
        None => "null"@,
    }
}

/// A session, as a value.
pub open spec fn session_value(rep: Option<SessionReport>) -> Json {
    match rep {
        Some(rep) => object_json(session_values(rep)),
        None => Json::Null,
    }
}

/// The members of the record, as they are written.
pub open spec fn record_members(f: Found, rep: Option<SessionReport>) -> Seq<(Seq<char>, Seq<char>)> {
    seq![
        ("tool"@, quoted("lumen-play"@)),
        ("schema"@, dec(1)),
        ("files"@, laid_array(file_texts(f.files), "    "@, "  "@)),
        ("unreadable"@, array_text(unreadable_texts(f.unreadable))),
        ("skipped_samples"@, dec(f.skipped)),
        ("truncated"@, bool_word(f.truncated)),
        ("session"@, session_text(rep)),
    ]
}

/// The members of the record, as values.
pub open spec fn record_values(f: Found, rep: Option<SessionReport>) -> Seq<(Seq<char>, Json)> {
    seq![
        ("tool"@, Json::Str("lumen-play"@)),
        ("schema"@, Json::Num(dec(1))),
        ("files"@, Json::Array(file_entries(f.files))),
        ("unreadable"@, Json::Array(unreadable_entries(f.unreadable))),
        ("skipped_samples"@, Json::Num(dec(f.skipped))),
        ("truncated"@, Json::Bool(f.truncated)),
        ("session"@, session_value(rep)),
    ]
}

/// The record of a scan and, if one ran, of a session.
pub open spec fn record_text(f: Found, rep: Option<SessionReport>) -> Seq<char> {
    laid_object(record_members(f, rep), "  "@, ""@) + "\n"@
}

fn all_files(files: &Vec<ScannedFile>) -> (r: Vec<String>)
    requires
        forall|i: int| 0 <= i < files@.len() ==> (#[trigger] files@[i]).content().wf(),
    ensures
        views(r@) == file_texts(contents(files@)),
{
    let mut out: Vec<String> = Vec::new();
    let mut i: usize = 0;
    let ghost all = file_texts(contents(files@));
    while i < files.len()
        invariant
            i <= files@.len(),
            forall|i: int| 0 <= i < files@.len() ==> (#[trigger] files@[i]).content().wf(),
            out@.len() == i,
            all == file_texts(contents(files@)),
            forall|k: int| 0 <= k < i ==> (#[trigger] out@[k])@ == all[k],
        decreases files@.len() - i,
    {
        out.push(file_entry(&files[i]));
        i += 1;
    }
    assert(views(out@) =~= all);
    out
}

fn all_unreadable(u: &Vec<(String, String)>) -> (r: Vec<String>)
    ensures
        views(r@) == unreadable_texts(crate::text::pair_views(u@)),
{
    let mut out: Vec<String> = Vec::new();
    let mut i: usize = 0;
    let ghost all = unreadable_texts(crate::text::pair_views(u@));
    while i < u.len()
        invariant
            i <= u@.len(),
            out@.len() == i,
            all == unreadable_texts(crate::text::pair_views(u@)),
            forall|k: int| 0 <= k < i ==> (#[trigger] out@[k])@ == all[k],
        decreases u@.len() - i,
    {
        let members = vec![("path", quote(u[i].0.as_str())), ("error", quote(u[i].1.as_str()))];
        assert(pairs_view(members@) =~= unreadable_members(
            crate::text::pair_views(u@)[i as int],
        ));
        out.push(object_of(&members));
        i += 1;
    }
    assert(views(out@) =~= all);
    out
}

fn result_entry(r: &FileResult) -> (out: String)
    ensures
        out@ == object_text(result_members(*r)),
{
    let outcome = match &r.outcome {
        Outcome::Played => "played",
        Outcome::Failed(_) => "failed",
        Outcome::NotReached => "not_reached",
    };
    let detail = match &r.outcome {
        Outcome::Failed(why) => opt_str(Some(why.as_str())),
        _ => opt_str(None),
    };
    let width: Option<u64> = match r.width {
        Some(n) => Some(n as u64),
        None => None,
    };
    let height: Option<u64> = match r.height {
        Some(n) => Some(n as u64),
        None => None,
    };
    let counts = vec![
        ("video", dec_text(r.track_counts.video as u128)),
        ("audio", dec_text(r.track_counts.audio as u128)),
        ("subtitle", dec_text(r.track_counts.subtitle as u128)),
    ];
    assert(pairs_view(counts@) =~= track_members(r.track_counts));
    let members = vec![
        ("path", quote(r.path.as_str())),
        ("outcome", quote(outcome)),
        ("error", detail),
        ("seconds_played", f64_or_null(Some(r.seconds_played))),
        ("file_format", opt_str(opt_borrow(&r.file_format))),
        ("video_codec", opt_str(opt_borrow(&r.video_codec))),
        ("audio_codec", opt_str(opt_borrow(&r.audio_codec))),
        ("width", opt_num(width)),
        ("height", opt_num(height)),
        ("fps", f64_or_null(r.fps)),
        ("duration", f64_or_null(r.duration)),
        ("hwdec", opt_str(opt_borrow(&r.hwdec))),
        ("seekable", opt_bool(r.seekable)),
        ("pixel_format", opt_str(opt_borrow(&r.pixel_format))),
        ("primaries", opt_str(opt_borrow(&r.primaries))),
        ("gamma", opt_str(opt_borrow(&r.gamma))),
        ("hdr", bool_text(r.is_hdr())),
        ("tracks", object_of(&counts)),
        ("delayed_frames", opt_num(r.delayed_frames)),
        ("dropped_frames", opt_num(r.dropped_frames)),
    ];
    assert(pairs_view(members@) =~= result_members(*r));
    object_of(&members)
}

fn all_results(results: &Vec<FileResult>) -> (r: Vec<String>)
    ensures
        views(r@) == result_texts(results@),
{
    let mut out: Vec<String> = Vec::new();
    let mut i: usize = 0;
    while i < results.len()
        invariant
            i <= results@.len(),
            out@.len() == i,
            forall|k: int| 0 <= k < i ==> (#[trigger] out@[k])@ == result_texts(results@)[k],
        decreases results@.len() - i,
    {
        out.push(result_entry(&results[i]));
        i += 1;
    }
    assert(views(out@) =~= result_texts(results@));
    out
}

/// The session that is pointed at, if any.
pub open spec fn pointed(rep: Option<&SessionReport>) -> Option<SessionReport> {
    match rep {
        Some(r) => Some(*r),
        None => None,
    }
}

/// The full machine-readable record of a scan and, if one ran, a playback session.
pub fn render_json(scan: &Scan, session: Option<&SessionReport>) -> (r: String)
    requires
        scan.wf(),
    ensures
        r@ == record_text(scan.content(), pointed(session)),
{
    assert forall|i: int| 0 <= i < scan.files@.len() implies (
    #[trigger] scan.files@[i]).content().wf() by {
        assert(contents(scan.files@)[i].wf());
    }
    let files = all_files(&scan.files);
    let unreadable = all_unreadable(&scan.unreadable);
    let played = match session {
        Some(rep) => {
            let results = all_results(&rep.results);
            let members = vec![
                ("mpv_version", opt_str(opt_borrow(&rep.mpv_version))),
                ("vo", opt_str(opt_borrow(&rep.vo_used))),
                ("elapsed_s", f64_or_null(Some(rep.elapsed_s))),
                ("ended_early", bool_text(rep.ended_early)),
                ("results", lay_array(&results, "      ", "    ")),
            ];
            assert(pairs_view(members@) =~= session_members(*rep));
            lay_object(&members, "    ", "  ")
        },
        None => owned("null"),
    };
    let members = vec![
        ("tool", quote("lumen-play")),
        ("schema", dec_text(1)),
        ("files", lay_array(&files, "    ", "  ")),
        ("unreadable", array_of(&unreadable)),
        ("skipped_samples", dec_text(scan.skipped_samples as u128)),
        ("truncated", bool_text(scan.truncated)),
        ("session", played),
    ];
    assert(pairs_view(members@) =~= record_members(scan.content(), pointed(session)));
    let mut s = lay_object(&members, "  ", "");
    s.append("\n");
    s
}

proof fn file_reads(f: Scanned)
    ensures
        reads_as(object_text(file_members(f)), object_json(file_values(f)), 3),
{
    let m = file_members(f);
    let v = file_values(f);
    let notes = notes_of(f);
    reads_string(f.path);
    dec_reads(f.size as nat);
    reads_string(f.kind.shown());
    opt_quoted_reads(container_name(f.container));
    opt_quoted_reads(confidence_name(f.confidence));
    opt_quoted_reads(f.evidence);
    reads_bool(f.extension_mismatch);
    reads_bool(f.unidentified);
    reads_string(f.parsed.title);
    opt_numeral_reads(opt_nat(f.year()));
    assert forall|i: int| 0 <= i < quoted_all(notes).len() implies reads_as(
        #[trigger] quoted_all(notes)[i],
        str_values(notes)[i],
        1,
    ) by {
        reads_string(notes[i]);
    }
    reads_array(quoted_all(notes), str_values(notes), 1);
    assert forall|i: int| 0 <= i < m.len() implies (#[trigger] m[i]).0 == v[i].0 && reads_as(
        m[i].1,
        v[i].1,
        2,
    ) by {
        if i < 10 {
            reads_deeper(m[i].1, v[i].1, 1, 2);
        }
    }
    reads_object(m, v, 2);
}

proof fn result_reads(r: FileResult)
    ensures
        reads_as(object_text(result_members(r)), object_json(result_values(r)), 3),
{
    let m = result_members(r);
    let v = result_values(r);
    let t = r.track_counts;
    dec_reads(t.video as nat);
    dec_reads(t.audio as nat);
    dec_reads(t.subtitle as nat);
    reads_object(track_members(t), track_values(t), 1);
    reads_string(r.path@);
    reads_string(outcome_word(r.outcome));
    opt_quoted_reads(outcome_detail(r.outcome));
    opt_fixed_reads(Some(r.seconds_played));
    opt_quoted_reads(opt_view(r.file_format));
    opt_quoted_reads(opt_view(r.video_codec));
    opt_quoted_reads(opt_view(r.audio_codec));
    opt_numeral_reads(opt_pixels(r.width));
    opt_numeral_reads(opt_pixels(r.height));
    opt_fixed_reads(r.fps);
    opt_fixed_reads(r.duration);
    opt_quoted_reads(opt_view(r.hwdec));
    opt_word_reads(r.seekable);
    opt_quoted_reads(opt_view(r.pixel_format));
    opt_quoted_reads(opt_view(r.primaries));
    opt_quoted_reads(opt_view(r.gamma));
    reads_bool(r.hdr());
    opt_numeral_reads(opt_nat(r.delayed_frames));
    opt_numeral_reads(opt_nat(r.dropped_frames));
    assert forall|i: int| 0 <= i < m.len() implies (#[trigger] m[i]).0 == v[i].0 && reads_as(
        m[i].1,
        v[i].1,
        2,
    ) by {
        if i != 17 {
            reads_deeper(m[i].1, v[i].1, 1, 2);
        }
    }
    reads_object(m, v, 2);
}

proof fn indents_are_blank()
    ensures
        blanks(""@),
        blanks("  "@),
        blanks("    "@),
        blanks("      "@),
{
    reveal_strlit("");
    reveal_strlit("  ");
    reveal_strlit("    ");
    reveal_strlit("      ");
}

proof fn session_reads(rep: Option<SessionReport>)
    ensures
        reads_as(session_text(rep), session_value(rep), 5),
{
    match rep {
        None => {
            reads_null();
            reads_deeper("null"@, Json::Null, 1, 5);
        },
        Some(rep) => {
            let p = result_texts(rep.results@);
            let e = result_entries(rep.results@);
            assert forall|i: int| 0 <= i < p.len() implies reads_as(#[trigger] p[i], e[i], 3) by {
                result_reads(rep.results@[i]);
            }
            indents_are_blank();
            reads_laid_array(p, e, "      "@, "    "@, 3);
            opt_quoted_reads(opt_view(rep.mpv_version));
            opt_quoted_reads(opt_view(rep.vo_used));
            opt_fixed_reads(Some(rep.elapsed_s));
            reads_bool(rep.ended_early);
            let m = session_members(rep);
            let v = session_values(rep);
            assert forall|i: int| 0 <= i < m.len() implies (#[trigger] m[i]).0 == v[i].0
                && reads_as(m[i].1, v[i].1, 4) by {
                if i < 4 {
                    reads_deeper(m[i].1, v[i].1, 1, 4);
                }
            }
            reads_laid_object(m, v, "    "@, "  "@, 4);
        },
    }
}

/// The record is one JSON document, and reading it gives back every file, every directory that
/// could not be read, and everything the session noted.
pub proof fn the_record_is_valid_json(f: Found, rep: Option<SessionReport>)
    ensures
        document(record_text(f, rep)) == Ok::<Json, Seq<char>>(object_json(record_values(f, rep))),
{
    let p = file_texts(f.files);
    let e = file_entries(f.files);
    assert forall|i: int| 0 <= i < p.len() implies reads_as(#[trigger] p[i], e[i], 3) by {
        file_reads(f.files[i]);
    }
    indents_are_blank();
    reads_laid_array(p, e, "    "@, "  "@, 3);
    let up = unreadable_texts(f.unreadable);
    let ue = unreadable_entries(f.unreadable);
    assert forall|i: int| 0 <= i < up.len() implies reads_as(#[trigger] up[i], ue[i], 2) by {
        let u = f.unreadable[i];
        reads_string(u.0);
        reads_string(u.1);
        reads_object(unreadable_members(u), unreadable_values(u), 1);
    }
    reads_array(up, ue, 2);
    reads_string("lumen-play"@);
    dec_reads(1);
    dec_reads(f.skipped);
    reads_bool(f.truncated);
    session_reads(rep);
    let m = record_members(f, rep);
    let v = record_values(f, rep);
    assert forall|i: int| 0 <= i < m.len() implies (#[trigger] m[i]).0 == v[i].0 && reads_as(
        m[i].1,
        v[i].1,
        5,
    ) by {
        if i == 2 {
            reads_deeper(m[i].1, v[i].1, 4, 5);
        } else if i == 3 {
            reads_deeper(m[i].1, v[i].1, 3, 5);
        } else if i < 6 {
            reads_deeper(m[i].1, v[i].1, 1, 5);
        }
    }
    let t = laid_object(m, "  "@, ""@);
    reads_laid_object(m, v, "  "@, ""@, 5);
    reads_document(t, object_json(v), 6);
    reveal_strlit("\n");
    assert(t + "\n"@ =~= t + seq!['\n']);
}

proof fn result_names_differ(r: FileResult)
    ensures
        forall|i: int, j: int|
            0 <= i < j < result_values(r).len() ==> (#[trigger] result_values(r)[i]).0 != (
            #[trigger] result_values(r)[j]).0,
{
    reveal_strlit("path");
    reveal_strlit("outcome");
    reveal_strlit("error");
    reveal_strlit("seconds_played");
    reveal_strlit("file_format");
    reveal_strlit("video_codec");
    reveal_strlit("audio_codec");
    reveal_strlit("width");
    reveal_strlit("height");
    reveal_strlit("fps");
    reveal_strlit("duration");
    reveal_strlit("hwdec");
    reveal_strlit("seekable");
    reveal_strlit("pixel_format");
    reveal_strlit("primaries");
    reveal_strlit("gamma");
    reveal_strlit("hdr");
    reveal_strlit("tracks");
    reveal_strlit("delayed_frames");
    reveal_strlit("dropped_frames");
    assert("path"@.len() == 4 && "path"@[0] == 'p' && "path"@[1] == 'a');
    assert("outcome"@.len() == 7 && "outcome"@[0] == 'o' && "outcome"@[1] == 'u');
    assert("error"@.len() == 5 && "error"@[0] == 'e' && "error"@[1] == 'r');
    assert("seconds_played"@.len() == 14 && "seconds_played"@[0] == 's' && "seconds_played"@[1] == 'e');
    assert("file_format"@.len() == 11 && "file_format"@[0] == 'f' && "file_format"@[1] == 'i');
    assert("video_codec"@.len() == 11 && "video_codec"@[0] == 'v' && "video_codec"@[1] == 'i');
    assert("audio_codec"@.len() == 11 && "audio_codec"@[0] == 'a' && "audio_codec"@[1] == 'u');
    assert("width"@.len() == 5 && "width"@[0] == 'w' && "width"@[1] == 'i');
    assert("height"@.len() == 6 && "height"@[0] == 'h' && "height"@[1] == 'e');
    assert("fps"@.len() == 3 && "fps"@[0] == 'f' && "fps"@[1] == 'p');
    assert("duration"@.len() == 8 && "duration"@[0] == 'd' && "duration"@[1] == 'u');
    assert("hwdec"@.len() == 5 && "hwdec"@[0] == 'h' && "hwdec"@[1] == 'w');
    assert("seekable"@.len() == 8 && "seekable"@[0] == 's' && "seekable"@[1] == 'e');
    assert("pixel_format"@.len() == 12 && "pixel_format"@[0] == 'p' && "pixel_format"@[1] == 'i');
    assert("primaries"@.len() == 9 && "primaries"@[0] == 'p' && "primaries"@[1] == 'r');
    assert("gamma"@.len() == 5 && "gamma"@[0] == 'g' && "gamma"@[1] == 'a');
    assert("hdr"@.len() == 3 && "hdr"@[0] == 'h' && "hdr"@[1] == 'd');
    assert("tracks"@.len() == 6 && "tracks"@[0] == 't' && "tracks"@[1] == 'r');
    assert("delayed_frames"@.len() == 14 && "delayed_frames"@[0] == 'd' && "delayed_frames"@[1] == 'e');
    assert("dropped_frames"@.len() == 14 && "dropped_frames"@[0] == 'd' && "dropped_frames"@[1] == 'r');
}

proof fn file_names_differ(f: Scanned)
    ensures
        forall|i: int, j: int|
            0 <= i < j < file_values(f).len() ==> (#[trigger] file_values(f)[i]).0 != (
            #[trigger] file_values(f)[j]).0,
{
    reveal_strlit("path");
    reveal_strlit("size");
    reveal_strlit("kind");
    reveal_strlit("container");
    reveal_strlit("confidence");
    reveal_strlit("evidence");
    reveal_strlit("extension_mismatch");
    reveal_strlit("unidentified");
    reveal_strlit("title");
    reveal_strlit("year");
    reveal_strlit("notes");
    assert("path"@.len() == 4 && "path"@[0] == 'p' && "path"@[1] == 'a');
    assert("size"@.len() == 4 && "size"@[0] == 's' && "size"@[1] == 'i');
    assert("kind"@.len() == 4 && "kind"@[0] == 'k' && "kind"@[1] == 'i');
    assert("container"@.len() == 9 && "container"@[0] == 'c' && "container"@[1] == 'o');
    assert("confidence"@.len() == 10 && "confidence"@[0] == 'c' && "confidence"@[1] == 'o');
    assert("evidence"@.len() == 8 && "evidence"@[0] == 'e' && "evidence"@[1] == 'v');
    assert("extension_mismatch"@.len() == 18 && "extension_mismatch"@[0] == 'e' && "extension_mismatch"@[1] == 'x');
    assert("unidentified"@.len() == 12 && "unidentified"@[0] == 'u' && "unidentified"@[1] == 'n');
    assert("title"@.len() == 5 && "title"@[0] == 't' && "title"@[1] == 'i');
    assert("year"@.len() == 4 && "year"@[0] == 'y' && "year"@[1] == 'e');
    assert("notes"@.len() == 5 && "notes"@[0] == 'n' && "notes"@[1] == 'o');
}

/// A member of an object whose names all differ.
proof fn member_is(v: Seq<(Seq<char>, Json)>, i: int)
    requires
        0 <= i < v.len(),
        forall|i: int, j: int|
            0 <= i < j < v.len() ==> (#[trigger] v[i]).0 != (#[trigger] v[j]).0,
    ensures
        field(object_json(v), v[i].0) == Some(v[i].1),
{
    assert forall|j: int| i < j < v.len() implies (#[trigger] v[j]).0 != v[i].0 by {}
    members_are_found(Map::empty(), v, 0, i);
}

/// The entry of a file says under each name what is known of the file: its path and size, its kind and
/// container by their names, what is odd about it, its title and its year.
pub proof fn entries_say_what_was_found(f: Scanned)
    ensures
        ({
            let v = object_json(file_values(f));
            &&& field(v, "path"@) == Some(Json::Str(f.path))
            &&& field(v, "size"@) == Some(Json::Num(dec(f.size as nat)))
            &&& field(v, "kind"@) == Some(Json::Str(f.kind.shown()))
            &&& f.container is Some ==> field(v, "container"@) == Some(
                Json::Str(f.container->0.shown()),
            )
            &&& f.container is None ==> field(v, "container"@) == Some(Json::Null)
            &&& f.confidence is Some ==> field(v, "confidence"@) == Some(
                Json::Str(f.confidence->0.shown()),
            )
            &&& f.evidence is Some ==> field(v, "evidence"@) == Some(Json::Str(f.evidence->0))
            &&& field(v, "extension_mismatch"@) == Some(Json::Bool(f.extension_mismatch))
            &&& field(v, "unidentified"@) == Some(Json::Bool(f.unidentified))
            &&& field(v, "title"@) == Some(Json::Str(f.parsed.title))
            &&& f.parsed.year is Some ==> field(v, "year"@) == Some(
                Json::Num(dec(f.parsed.year->0 as nat)),
            )
            &&& f.parsed.year is None ==> field(v, "year"@) == Some(Json::Null)
        }),
{
    let v = file_values(f);
    file_names_differ(f);
    member_is(v, 0);
    member_is(v, 1);
    member_is(v, 2);
    member_is(v, 3);
    member_is(v, 4);
    member_is(v, 5);
    member_is(v, 6);
    member_is(v, 7);
    member_is(v, 8);
    member_is(v, 9);
}

/// The entry of a result says under each name what the session noted: how it ended and why, how long
/// it played, its codecs and size, how it was decoded and whether it is HDR, and its late and dropped
/// frames.
pub proof fn entries_say_what_was_noted(r: FileResult)
    ensures
        ({
            let v = object_json(result_values(r));
            &&& field(v, "path"@) == Some(Json::Str(r.path@))
            &&& field(v, "outcome"@) == Some(
                Json::Str(
                    match r.outcome {
                        Outcome::Played => "played"@,
                        Outcome::Failed(_) => "failed"@,
                        Outcome::NotReached => "not_reached"@,
                    },
                ),
            )
            &&& field(v, "error"@) == Some(
                match r.outcome {
                    Outcome::Failed(why) => Json::Str(why@),
                    _ => Json::Null,
                },
            )
            &&& r.video_codec is Some ==> field(v, "video_codec"@) == Some(
                Json::Str(r.video_codec->0@),
            )
            &&& r.audio_codec is Some ==> field(v, "audio_codec"@) == Some(
                Json::Str(r.audio_codec->0@),
            )
            &&& r.width is Some ==> field(v, "width"@) == Some(Json::Num(dec(r.width->0 as nat)))
            &&& r.height is Some ==> field(v, "height"@) == Some(Json::Num(dec(r.height->0 as nat)))
            &&& r.hwdec is Some ==> field(v, "hwdec"@) == Some(Json::Str(r.hwdec->0@))
            &&& r.seekable is Some ==> field(v, "seekable"@) == Some(Json::Bool(r.seekable->0))
            &&& r.primaries is Some ==> field(v, "primaries"@) == Some(Json::Str(r.primaries->0@))
            &&& r.gamma is Some ==> field(v, "gamma"@) == Some(Json::Str(r.gamma->0@))
            &&& field(v, "hdr"@) == Some(Json::Bool(r.hdr()))
            &&& r.delayed_frames is Some ==> field(v, "delayed_frames"@) == Some(
                Json::Num(dec(r.delayed_frames->0 as nat)),
            )
            &&& r.dropped_frames is Some ==> field(v, "dropped_frames"@) == Some(
                Json::Num(dec(r.dropped_frames->0 as nat)),
            )
            &&& r.dropped_frames is None ==> field(v, "dropped_frames"@) == Some(Json::Null)
        }),
{
    let v = result_values(r);
    result_names_differ(r);
    member_is(v, 0);
    member_is(v, 1);
    member_is(v, 2);
    member_is(v, 5);
    member_is(v, 6);
    member_is(v, 7);
    member_is(v, 8);
    member_is(v, 11);
    member_is(v, 12);
    member_is(v, 14);
    member_is(v, 15);
    member_is(v, 16);
    member_is(v, 18);
    member_is(v, 19);
}

proof fn record_names_differ(f: Found, rep: Option<SessionReport>)
    ensures
        forall|i: int, j: int|
            0 <= i < j < record_values(f, rep).len() ==> (#[trigger] record_values(f, rep)[i]).0 != (
            #[trigger] record_values(f, rep)[j]).0,
{
    reveal_strlit("tool");
    reveal_strlit("schema");
    reveal_strlit("files");
    reveal_strlit("unreadable");
    reveal_strlit("skipped_samples");
    reveal_strlit("truncated");
    reveal_strlit("session");
    assert("tool"@.len() == 4 && "tool"@[0] == 't' && "tool"@[1] == 'o');
    assert("schema"@.len() == 6 && "schema"@[0] == 's' && "schema"@[1] == 'c');
    assert("files"@.len() == 5 && "files"@[0] == 'f' && "files"@[1] == 'i');
    assert("unreadable"@.len() == 10 && "unreadable"@[0] == 'u' && "unreadable"@[1] == 'n');
    assert("skipped_samples"@.len() == 15 && "skipped_samples"@[0] == 's' && "skipped_samples"@[1] == 'k');
    assert("truncated"@.len() == 9 && "truncated"@[0] == 't' && "truncated"@[1] == 'r');
    assert("session"@.len() == 7 && "session"@[0] == 's' && "session"@[1] == 'e');
}

proof fn session_names_differ(rep: SessionReport)
    ensures
        forall|i: int, j: int|
            0 <= i < j < session_values(rep).len() ==> (#[trigger] session_values(rep)[i]).0 != (
            #[trigger] session_values(rep)[j]).0,
{
    reveal_strlit("mpv_version");
    reveal_strlit("vo");
    reveal_strlit("elapsed_s");
    reveal_strlit("ended_early");
    reveal_strlit("results");
    assert("mpv_version"@.len() == 11 && "mpv_version"@[0] == 'm' && "mpv_version"@[1] == 'p');
    assert("vo"@.len() == 2 && "vo"@[0] == 'v' && "vo"@[1] == 'o');
    assert("elapsed_s"@.len() == 9 && "elapsed_s"@[0] == 'e' && "elapsed_s"@[1] == 'l');
    assert("ended_early"@.len() == 11 && "ended_early"@[0] == 'e' && "ended_early"@[1] == 'n');
    assert("results"@.len() == 7 && "results"@[0] == 'r' && "results"@[1] == 'e');
}

/// Whoever reads the record finds an entry for each file and for each result, in order, what was
/// skipped and whether the scan was cut short; no session where none ran.
pub proof fn the_record_can_be_read(f: Found, rep: Option<SessionReport>)
    ensures
        match document(record_text(f, rep)) {
            Err(_) => false,
            Ok(v) => {
                &&& field(v, "files"@) == Some(
                    Json::Array(
                        Seq::new(f.files.len(), |i: int| object_json(file_values(f.files[i]))),
                    ),
                )
                &&& field(v, "skipped_samples"@) == Some(Json::Num(dec(f.skipped)))
                &&& field(v, "truncated"@) == Some(Json::Bool(f.truncated))
                &&& rep is None ==> field(v, "session"@) == Some(Json::Null)
                &&& match (rep, field(v, "session"@)) {
                    (Some(run), Some(s)) => {
                        &&& field(s, "results"@) == Some(
                            Json::Array(
                                Seq::new(
                                    run.results@.len(),
                                    |i: int| object_json(result_values(run.results@[i])),
                                ),
                            ),
                        )
                        &&& field(s, "ended_early"@) == Some(Json::Bool(run.ended_early))
                        &&& run.mpv_version is Some ==> field(s, "mpv_version"@) == Some(
                            Json::Str(run.mpv_version->0@),
                        )
                        &&& run.vo_used is Some ==> field(s, "vo"@) == Some(
                            Json::Str(run.vo_used->0@),
                        )
                    },
                    (Some(_), None) => false,
                    _ => true,
                }
            },
        },
{
    the_record_is_valid_json(f, rep);
    record_names_differ(f, rep);
    let v = record_values(f, rep);
    member_is(v, 2);
    member_is(v, 4);
    member_is(v, 5);
    member_is(v, 6);
    assert(file_entries(f.files) =~= Seq::new(
        f.files.len(),
        |i: int| object_json(file_values(f.files[i])),
    ));
    if let Some(run) = rep {
        session_names_differ(run);
        let s = session_values(run);
        member_is(s, 0);
        member_is(s, 1);
        member_is(s, 3);
        member_is(s, 4);
        assert(result_entries(run.results@) =~= Seq::new(
            run.results@.len(),
            |i: int| object_json(result_values(run.results@[i])),
        ));
    }
}

/// The entry of a directory that could not be read has its path and the reason, and that of a result
/// counts its tracks by kind.
pub proof fn entries_say_what_went_wrong(u: (Seq<char>, Seq<char>), t: TrackCounts)
    ensures
        field(object_json(unreadable_values(u)), "path"@) == Some(Json::Str(u.0)),
        field(object_json(unreadable_values(u)), "error"@) == Some(Json::Str(u.1)),
        field(object_json(track_values(t)), "video"@) == Some(Json::Num(dec(t.video as nat))),
        field(object_json(track_values(t)), "audio"@) == Some(Json::Num(dec(t.audio as nat))),
        field(object_json(track_values(t)), "subtitle"@) == Some(Json::Num(dec(t.subtitle as nat))),
{
    reveal_strlit("path");
    reveal_strlit("error");
    reveal_strlit("video");
    reveal_strlit("audio");
    reveal_strlit("subtitle");
    assert("path"@.len() == 4 && "error"@.len() == 5 && "subtitle"@.len() == 8);
    assert("video"@.len() == 5 && "audio"@.len() == 5);
    assert("video"@[0] == 'v' && "audio"@[0] == 'a');
    member_is(unreadable_values(u), 0);
    member_is(unreadable_values(u), 1);
    member_is(track_values(t), 0);
    member_is(track_values(t), 1);
    member_is(track_values(t), 2);
}

/// The record says which tool wrote it and in which form, whatever it holds.
pub proof fn the_record_says_what_it_is(f: Found, rep: Option<SessionReport>)
    ensures
        match document(record_text(f, rep)) {
            Ok(v) => field(v, "tool"@) == Some(Json::Str("lumen-play"@)) && field(v, "schema"@) == Some(
                Json::Num(dec(1)),
            ),
            Err(_) => false,
        },
{
    the_record_is_valid_json(f, rep);
    record_names_differ(f, rep);
    member_is(record_values(f, rep), 0);
    member_is(record_values(f, rep), 1);
}

} // verus!
