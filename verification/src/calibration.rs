//! Whether files decoded the way they were predicted to: one record for each session, kept as JSON
//! lines in a log that stays on this machine.
use vstd::arithmetic::power2::{lemma2_to64, lemma2_to64_rest, pow2};
use vstd::prelude::*;
use vstd::string::*;

use crate::binary64::{half_even, magnitude, nearest};
use crate::fidelity::{find_selected, is_video_codec, selected_at, video_codec, VideoCodec};
use crate::json::{
    document,
    field,
    in_number,
    measure_of,
    model,
    parse,
    quote,
    quoted,
    str_field,
    Json,
    Value,
};
use crate::json_writer::{
    integers_read_exactly,
    object_of,
    object_text,
    pairs_view,
    reads_as,
    reads_document,
    reads_null,
    reads_number,
    reads_object,
    reads_string,
    with_members,
};
use crate::measure::Measure;
use crate::number::bits;
use crate::numeral::{float_value, numeral_value};
use crate::paths::{join, joined};
use crate::record::{
    opt_bool,
    opt_bool_value,
    opt_nat,
    opt_num,
    opt_num_value,
    opt_numeral,
    opt_quoted,
    opt_str,
    opt_str_value,
    opt_word,
};
use crate::remote::protocol::{num_field, num_member, str_member};
use crate::session::FileResult;
use crate::text::{
    dec,
    dec_text,
    int_dec,
    is_digit,
    lines,
    lines_of,
    opt_borrow,
    opt_str_view,
    opt_view,
    owned,
    same,
};

verus! {

/// What a client declares about decoding a codec.
#[derive(Debug, Clone)]
pub struct DecodeClaim {
    pub codec: VideoCodec,
    /// Whether it decodes the codec in hardware.
    pub hardware: bool,
}

/// How a played file was predicted to decode, and how it did.
#[derive(Debug, Clone)]
pub struct CalibrationEntry {
    pub path: String,
    pub unix_secs: u64,
    pub video_codec: Option<String>,
    /// What the native profile claims about the codec; nothing where it makes no claim.
    pub predicted_hardware_decode: Option<bool>,
    /// The decoder that the player used; `no` means software.
    pub observed_hwdec: Option<String>,
    pub dropped_frames: Option<u64>,
    pub seconds_played: Measure,
    /// The file's own frame rate.
    pub expected_fps: Option<Measure>,
}

/// How a played file was predicted to decode, and how it did.
pub struct Observation {
    pub path: Seq<char>,
    pub unix_secs: u64,
    pub video_codec: Option<Seq<char>>,
    pub predicted: Option<bool>,
    pub observed: Option<Seq<char>>,
    pub dropped: Option<u64>,
    pub seconds: Measure,
    pub fps: Option<Measure>,
}

/// The shortest time that says anything about dropped frames: two seconds.
pub open spec fn least_seconds() -> Measure {
    Measure::Finite { negative: false, mantissa: 2, exponent: 0 }
}

/// The rate of dropped frames from which on it shows: the binary64 value nearest to 0,02.
pub open spec fn drop_threshold() -> Measure {
    nearest(1, 50)
}

proof fn threshold_is()
    ensures
        drop_threshold() == (Measure::Finite {
            negative: false,
            mantissa: 0x14_7AE1_47AE_147B,
            exponent: -58i32,
        }),
{
    lemma2_to64();
    lemma2_to64_rest();
    assert(bits(49) == 6) by {
        reveal_with_fuel(bits, 8);
    }
    assert(49nat / 1nat == 49);
    assert(magnitude(1, 50) == -5);
    assert(pow2(58) == 0x400_0000_0000_0000);
    assert(half_even(0x400_0000_0000_0000, 50) == 0x14_7AE1_47AE_147B);
}

impl Observation {
    /// Whether the file decoded as predicted; none where there is nothing to compare.
    pub open spec fn as_predicted(self) -> Option<bool> {
        match (self.predicted, self.observed) {
            (Some(p), Some(o)) => Some(p == (o.len() > 0 && o != "no"@)),
            _ => None,
        }
    }

    /// The rate of dropped frames.
    pub open spec fn drop_rate(self) -> Measure {
        nearest(self.dropped->0 as nat, 1).over(self.fps->0.times(self.seconds))
    }

    /// Whether there is enough to judge dropped frames by.
    pub open spec fn judgeable(self) -> bool {
        &&& self.dropped is Some
        &&& self.fps is Some
        &&& self.fps->0.above(0)
        &&& !least_seconds().greater(self.seconds)
    }

    /// Whether more frames were dropped than should show; none where there is too little to judge.
    pub open spec fn stutters(self) -> Option<bool> {
        if self.judgeable() {
            Some(self.drop_rate().greater(drop_threshold()))
        } else {
            None
        }
    }
}

impl CalibrationEntry {
    /// What the entry says.
    pub open spec fn content(self) -> Observation {
        Observation {
            path: self.path@,
            unix_secs: self.unix_secs,
            video_codec: opt_view(self.video_codec),
            predicted: self.predicted_hardware_decode,
            observed: opt_view(self.observed_hwdec),
            dropped: self.dropped_frames,
            seconds: self.seconds_played,
            fps: self.expected_fps,
        }
    }

    /// Whether the file decoded as predicted. `None` when there is nothing to compare: no claim, or
    /// no word from the player.
    pub fn hardware_decode_as_predicted(&self) -> (r: Option<bool>)
        ensures
            r == self.content().as_predicted(),
    {
        match (self.predicted_hardware_decode, &self.observed_hwdec) {
            (Some(p), Some(o)) => {
                let hardware = o.as_str().unicode_len() > 0 && !same(o.as_str(), "no");
                Some(p == hardware)
            },
            _ => None,
        }
    }

    fn rate(&self) -> (r: Measure)
        requires
            self.content().judgeable(),
        ensures
            r == self.content().drop_rate(),
    {
        match (self.dropped_frames, self.expected_fps) {
            (Some(dropped), Some(fps)) => {
                let frames = fps.product(self.seconds_played);
                Measure::of_whole(dropped).quotient(frames)
            },
            _ => Measure::NotANumber,
        }
    }

    /// Whether more frames were dropped, for the time played, than should show. `None` when there is
    /// nothing to judge: no count, no frame rate, or too short a session.
    pub fn drop_rate_flagged(&self) -> (r: Option<bool>)
        ensures
            r == self.content().stutters(),
    {
        if self.dropped_frames.is_none() {
            return None;
        }
        match self.expected_fps {
            Some(fps) => if !fps.exceeds(0) {
                return None;
            },
            None => {
                return None;
            },
        }
        let least = Measure::Finite { negative: false, mantissa: 2, exponent: 0 };
        if least.is_above(self.seconds_played) {
            return None;
        }
        proof {
            threshold_is();
        }
        let limit = Measure::Finite {
            negative: false,
            mantissa: 0x14_7AE1_47AE_147B,
            exponent: -58,
        };
        Some(self.rate().is_above(limit))
    }
}

/// What a list of claims says about a codec, from the `i`-th on.
pub open spec fn claimed(claims: Seq<DecodeClaim>, c: VideoCodec, i: int) -> Option<bool>
    decreases claims.len() - i,
{
    if i < 0 || i >= claims.len() {
        None
    } else if claims[i].codec.is(c) {
        Some(claims[i].hardware)
    } else {
        claimed(claims, c, i + 1)
    }
}

fn claim_on(claims: &Vec<DecodeClaim>, c: &VideoCodec) -> (r: Option<bool>)
    ensures
        r == claimed(claims@, *c, 0),
{
    let mut i: usize = 0;
    while i < claims.len()
        invariant
            i <= claims@.len(),
            claimed(claims@, *c, 0) == claimed(claims@, *c, i as int),
        decreases claims@.len() - i,
    {
        if claims[i].codec.same_as(c) {
            return Some(claims[i].hardware);
        }
        i += 1;
    }
    None
}

/// Whether a prediction is what the claims say of the picture track that was played.
///
/// The track's own codec name counts; the player's description of the picture is for people to read.
pub open spec fn is_prediction(p: Option<bool>, r: FileResult, claims: Seq<DecodeClaim>) -> bool {
    let at = selected_at(r.tracks@, "video"@, 0);
    if at < r.tracks@.len() {
        forall|c: VideoCodec|
            is_video_codec(c, opt_view(r.tracks@[at].codec)) ==> p == #[trigger] claimed(
                claims,
                c,
                0,
            )
    } else {
        p is None
    }
}

proof fn same_codec_same_claim(claims: Seq<DecodeClaim>, c: VideoCodec, d: VideoCodec, i: int)
    requires
        0 <= i,
        c.is(d),
    ensures
        claimed(claims, c, i) == claimed(claims, d, i),
    decreases claims.len() - i,
{
    if i < claims.len() {
        same_codec_same_claim(claims, c, d, i + 1);
    }
}

/// How a file is predicted to decode: what the claims say of the picture track that was played.
pub fn predicted_hardware_decode(r: &FileResult, claims: &Vec<DecodeClaim>) -> (p: Option<bool>)
    ensures
        is_prediction(p, *r, claims@),
{
    let at: usize = find_selected(&r.tracks, "video");
    if at >= r.tracks.len() {
        return None;
    }
    let c = video_codec(opt_borrow(&r.tracks[at].codec));
    proof {
        let name = opt_view(r.tracks@[at as int].codec);
        assert forall|d: VideoCodec| is_video_codec(d, name) implies claimed(claims@, c, 0)
            == #[trigger] claimed(claims@, d, 0) by {
            assert(c.is(d));
            same_codec_same_claim(claims@, c, d, 0);
        }
    }
    claim_on(claims, &c)
}

/// Whether a result is worth an entry: the file played, and has a picture.
pub open spec fn recordable(r: FileResult) -> bool {
    r.outcome is Played && r.video_codec is Some
}

/// An entry for one file that was played at a time. `None` when there is nothing to record: the
/// file did not play, or has no picture.
pub fn observe(r: &FileResult, unix_secs: u64, claims: &Vec<DecodeClaim>) -> (e: Option<
    CalibrationEntry,
>)
    ensures
        match e {
            Some(e) => recordable(*r) && is_prediction(
                e.predicted_hardware_decode,
                *r,
                claims@,
            ) && e.content() == (Observation {
                path: r.path@,
                unix_secs,
                video_codec: opt_view(r.video_codec),
                predicted: e.predicted_hardware_decode,
                observed: opt_view(r.hwdec),
                dropped: r.dropped_frames,
                seconds: r.seconds_played,
                fps: r.fps,
            }),
            None => !recordable(*r),
        },
{
    if !r.outcome.is_played() {
        return None;
    }
    match &r.video_codec {
        Some(c) => Some(
            CalibrationEntry {
                path: r.path.clone(),
                unix_secs,
                video_codec: Some(c.clone()),
                predicted_hardware_decode: predicted_hardware_decode(r, claims),
                observed_hwdec: match &r.hwdec {
                    Some(h) => Some(h.clone()),
                    None => None,
                },
                dropped_frames: r.dropped_frames,
                seconds_played: r.seconds_played,
                expected_fps: r.fps,
            },
        ),
        None => None,
    }
}

/// Where the log is kept, below the configuration directory.
pub fn default_log_path(config_dir: &str) -> (r: String)
    ensures
        r@ == joined(joined(config_dir@, "lumen"@), "calibration.jsonl"@),
{
    join(join(config_dir, "lumen").as_str(), "calibration.jsonl")
}

/// A numeral; `null` when there is none.
pub open spec fn opt_written(n: Option<Seq<char>>) -> Seq<char> {
    match n {
        Some(t) => t,
        None => "null"@,
    }
}

/// The members of an entry's line. The time played and the frame rate are written by the numerals
/// given.
pub open spec fn line_members(o: Observation, seconds: Seq<char>, fps: Option<Seq<char>>) -> Seq<
    (Seq<char>, Seq<char>),
> {
    seq![
        ("path"@, quoted(o.path)),
        ("unix_secs"@, dec(o.unix_secs as nat)),
        ("video_codec"@, opt_quoted(o.video_codec)),
        ("predicted_hardware_decode"@, opt_word(o.predicted)),
        ("observed_hwdec"@, opt_quoted(o.observed)),
        ("dropped_frames"@, opt_numeral(opt_nat(o.dropped))),
        ("seconds_played"@, seconds),
        ("expected_fps"@, opt_written(fps)),
    ]
}

/// The number of a member, as a measure.
pub open spec fn measure_field(v: Json, key: Seq<char>) -> Option<Measure> {
    match field(v, key) {
        Some(f) => measure_of(f),
        None => None,
    }
}

/// The truth value of a member.
pub open spec fn bool_field(v: Json, key: Seq<char>) -> Option<bool> {
    match field(v, key) {
        Some(Json::Bool(b)) => Some(b),
        _ => None,
    }
}

/// What a JSON value says of a played file; none where it lacks the path or the time.
///
/// A line without the time played reads as one of no time at all, on which nothing is judged.
pub open spec fn observation_in(v: Json) -> Option<Observation> {
    match (str_field(v, "path"@), num_field(v, "unix_secs"@)) {
        (Some(path), Some(secs)) => Some(
            Observation {
                path,
                unix_secs: secs.as_u64(),
                video_codec: str_field(v, "video_codec"@),
                predicted: bool_field(v, "predicted_hardware_decode"@),
                observed: str_field(v, "observed_hwdec"@),
                dropped: match num_field(v, "dropped_frames"@) {
                    Some(n) => Some(n.as_u64()),
                    None => None,
                },
                seconds: match measure_field(v, "seconds_played"@) {
                    Some(m) => m,
                    None => crate::session::zero_measure(),
                },
                fps: measure_field(v, "expected_fps"@),
            },
        ),
        _ => None,
    }
}

/// What a line of the log says; none for a line that is not one.
pub open spec fn observation_on(line: Seq<char>) -> Option<Observation> {
    match document(line) {
        Ok(v) => observation_in(v),
        Err(_) => None,
    }
}

/// What an entry says, if there is one.
pub open spec fn content_of(e: Option<CalibrationEntry>) -> Option<Observation> {
    match e {
        Some(e) => Some(e.content()),
        None => None,
    }
}

fn bool_member(v: &Value, key: &str) -> (r: Option<bool>)
    ensures
        r == bool_field(model(*v), key@),
{
    match v.get(key) {
        Some(f) => f.as_bool(),
        None => None,
    }
}

fn measure_member(v: &Value, key: &str) -> (r: Option<Measure>)
    ensures
        r == measure_field(model(*v), key@),
{
    match v.get(key) {
        Some(f) => f.as_f64(),
        None => None,
    }
}

impl CalibrationEntry {
    /// The entry as a line of the log, without the newline that ends it. `seconds` and `fps` are the
    /// time played and the frame rate, written out.
    pub fn to_json_line(&self, seconds: &str, fps: Option<&str>) -> (r: String)
        ensures
            r@ == object_text(line_members(self.content(), seconds@, opt_str_view(fps))),
    {
        let members = vec![
            ("path", quote(self.path.as_str())),
            ("unix_secs", dec_text(self.unix_secs as u128)),
            ("video_codec", opt_str(opt_borrow(&self.video_codec))),
            ("predicted_hardware_decode", opt_bool(self.predicted_hardware_decode)),
            ("observed_hwdec", opt_str(opt_borrow(&self.observed_hwdec))),
            ("dropped_frames", opt_num(self.dropped_frames)),
            ("seconds_played", owned(seconds)),
            (
                "expected_fps",
                match fps {
                    Some(t) => owned(t),
                    None => owned("null"),
                },
            ),
        ];
        assert(pairs_view(members@) =~= line_members(self.content(), seconds@, opt_str_view(fps)));
        object_of(&members)
    }

    /// The entry on a line of the log. `None` for a line that is not one.
    pub fn from_json_line(line: &str) -> (r: Option<Self>)
        ensures
            content_of(r) == observation_on(line@),
    {
        let v = match parse(line) {
            Ok(v) => v,
            Err(_) => {
                return None;
            },
        };
        let path = match str_member(&v, "path") {
            Some(p) => p,
            None => {
                return None;
            },
        };
        let secs = match num_member(&v, "unix_secs") {
            Some(n) => n,
            None => {
                return None;
            },
        };
        let dropped_frames: Option<u64> = match num_member(&v, "dropped_frames") {
            Some(n) => Some(n.to_u64()),
            None => None,
        };
        let seconds_played = match measure_member(&v, "seconds_played") {
            Some(m) => m,
            None => Measure::Finite { negative: false, mantissa: 0, exponent: 0 },
        };
        Some(
            CalibrationEntry {
                path,
                unix_secs: secs.to_u64(),
                video_codec: str_member(&v, "video_codec"),
                predicted_hardware_decode: bool_member(&v, "predicted_hardware_decode"),
                observed_hwdec: str_member(&v, "observed_hwdec"),
                dropped_frames,
                seconds_played,
                expected_fps: measure_member(&v, "expected_fps"),
            },
        )
    }
}

/// What entries say.
pub open spec fn contents_of(e: Seq<CalibrationEntry>) -> Seq<Observation> {
    Seq::new(e.len(), |i: int| e[i].content())
}

/// What the first `n` lines say; a line that is not an entry is passed over.
pub open spec fn observations(l: Seq<Seq<char>>, n: nat) -> Seq<Observation>
    decreases n,
{
    if n == 0 || n > l.len() {
        Seq::empty()
    } else {
        let rest = observations(l, (n - 1) as nat);
        match observation_on(l[n - 1]) {
            Some(o) => rest.push(o),
            None => rest,
        }
    }
}

/// The entries of a log, in order. A line that is not one is passed over.
pub fn read_all(text: &str) -> (r: Vec<CalibrationEntry>)
    ensures
        contents_of(r@) == observations(lines(text@), lines(text@).len()),
{
    let all = lines_of(text);
    let ghost l = lines(text@);
    assert(l.len() == all@.len());
    let mut out: Vec<CalibrationEntry> = Vec::new();
    let mut i: usize = 0;
    assert(contents_of(out@) =~= Seq::<Observation>::empty());
    while i < all.len()
        invariant
            i <= all@.len(),
            l == crate::text::views(all@),
            contents_of(out@) == observations(l, i as nat),
        decreases all@.len() - i,
    {
        let ghost had = contents_of(out@);
        match CalibrationEntry::from_json_line(all[i].as_str()) {
            Some(e) => {
                let ghost o = e.content();
                out.push(e);
                assert(contents_of(out@) =~= had.push(o));
            },
            None => {},
        }
        i += 1;
    }
    out
}

/// How many observations hold a property.
pub open spec fn how_many(o: Seq<Observation>, p: spec_fn(Observation) -> bool) -> nat
    decreases o.len(),
{
    if o.len() == 0 {
        0
    } else {
        how_many(o.drop_last(), p) + if p(o.last()) {
            1nat
        } else {
            0
        }
    }
}

/// The lines on observations that hold a property.
pub open spec fn lines_on(
    o: Seq<Observation>,
    p: spec_fn(Observation) -> bool,
    line: spec_fn(Observation) -> Seq<char>,
) -> Seq<char>
    decreases o.len(),
{
    if o.len() == 0 {
        Seq::empty()
    } else {
        lines_on(o.drop_last(), p, line) + if p(o.last()) {
            line(o.last())
        } else {
            Seq::empty()
        }
    }
}

/// A property that observations are counted by.
#[derive(Debug, Clone, Copy, PartialEq, Eq, Structural)]
enum Property {
    /// There is a prediction to compare.
    Compared,
    /// The prediction held.
    Held,
    /// The prediction did not hold.
    Missed,
    /// There is enough to judge dropped frames by.
    Judged,
    /// Too many frames were dropped.
    Stuttered,
}

/// Whether there is a prediction to compare.
pub open spec fn is_compared() -> spec_fn(Observation) -> bool {
    |o: Observation| o.as_predicted() is Some
}

/// Whether a prediction held.
pub open spec fn has_held() -> spec_fn(Observation) -> bool {
    |o: Observation| o.as_predicted() == Some(true)
}

/// Whether a prediction did not hold.
pub open spec fn has_missed() -> spec_fn(Observation) -> bool {
    |o: Observation| o.as_predicted() == Some(false)
}

/// Whether there is enough to judge dropped frames by.
pub open spec fn is_judged() -> spec_fn(Observation) -> bool {
    |o: Observation| o.stutters() is Some
}

/// Whether too many frames were dropped.
pub open spec fn has_stuttered() -> spec_fn(Observation) -> bool {
    |o: Observation| o.stutters() == Some(true)
}

impl Property {
    spec fn property(self) -> spec_fn(Observation) -> bool {
        match self {
            Property::Compared => is_compared(),
            Property::Held => has_held(),
            Property::Missed => has_missed(),
            Property::Judged => is_judged(),
            Property::Stuttered => has_stuttered(),
        }
    }

    fn holds(self, e: &CalibrationEntry) -> (r: bool)
        ensures
            r == (self.property())(e.content()),
    {
        match self {
            Property::Compared => e.hardware_decode_as_predicted().is_some(),
            Property::Held => match e.hardware_decode_as_predicted() {
                Some(b) => b,
                None => false,
            },
            Property::Missed => match e.hardware_decode_as_predicted() {
                Some(b) => !b,
                None => false,
            },
            Property::Judged => e.drop_rate_flagged().is_some(),
            Property::Stuttered => match e.drop_rate_flagged() {
                Some(b) => b,
                None => false,
            },
        }
    }
}

fn count(entries: &Vec<CalibrationEntry>, p: Property) -> (r: usize)
    ensures
        r == how_many(contents_of(entries@), p.property()),
        r <= entries@.len(),
{
    let ghost all = contents_of(entries@);
    let mut n: usize = 0;
    let mut i: usize = 0;
    assert(all.take(0) =~= Seq::<Observation>::empty());
    while i < entries.len()
        invariant
            i <= entries@.len(),
            all == contents_of(entries@),
            n == how_many(all.take(i as int), p.property()),
            n <= i,
        decreases entries@.len() - i,
    {
        proof {
            assert(all.take(i as int + 1).drop_last() =~= all.take(i as int));
            assert(all.take(i as int + 1).last() == entries@[i as int].content());
        }
        if p.holds(&entries[i]) {
            n = n + 1;
        }
        i += 1;
    }
    assert(all.take(i as int) =~= all);
    n
}

/// `s` unless there is exactly one.
pub open spec fn ending(n: nat) -> Seq<char> {
    if n == 1 {
        ""@
    } else {
        "s"@
    }
}

fn ending_text(n: usize) -> (r: &'static str)
    ensures
        r@ == ending(n as nat),
{
    if n == 1 {
        ""
    } else {
        "s"
    }
}

/// The line on a prediction that did not hold.
pub open spec fn miss_line() -> spec_fn(Observation) -> Seq<char> {
    |o: Observation|
        "\n  "@ + o.path + " ("@ + (match o.video_codec {
            Some(c) => c,
            None => "unknown codec"@,
        }) + ") -- predicted "@ + (if o.predicted == Some(true) {
            "hardware"@
        } else {
            "software"@
        }) + ", mpv actually used "@ + (match o.observed {
            Some(h) => if h == "no"@ || h.len() == 0 {
                "software"@
            } else {
                "hardware"@
            },
            None => "software"@,
        })
}

fn append_miss(s: &mut String, e: &CalibrationEntry)
    ensures
        final(s)@ == old(s)@ + miss_line()(e.content()),
{
    let mut line = owned("\n  ");
    line.append(e.path.as_str());
    line.append(" (");
    match &e.video_codec {
        Some(c) => {
            line.append(c.as_str());
        },
        None => {
            line.append("unknown codec");
        },
    }
    line.append(") -- predicted ");
    match e.predicted_hardware_decode {
        Some(true) => {
            line.append("hardware");
        },
        _ => {
            line.append("software");
        },
    }
    line.append(", mpv actually used ");
    match &e.observed_hwdec {
        Some(h) => if same(h.as_str(), "no") || h.as_str().unicode_len() == 0 {
            line.append("software");
        } else {
            line.append("hardware");
        },
        None => {
            line.append("software");
        },
    }
    s.append(line.as_str());
}

/// What is said of the predictions.
pub open spec fn predictions_shown(o: Seq<Observation>) -> Seq<char> {
    let compared = how_many(o, is_compared());
    let held = how_many(o, has_held());
    if compared == 0 {
        "no calibration data yet ("@ + dec(o.len()) + " session"@ + ending(o.len())
            + " logged, none with a codec this build has a hardware-decode claim for)"@
    } else if held == compared {
        dec(held) + "/"@ + dec(compared) + " real playback session"@ + ending(compared)
            + " matched the fidelity model's hardware-decode prediction"@
    } else {
        dec(held) + "/"@ + dec(compared)
            + " real playback sessions matched the fidelity model's hardware-decode prediction -- "@
            + dec((compared - held) as nat) + " did not:"@ + lines_on(o, has_missed(), miss_line())
    }
}

/// Each session with a prediction to compare held it or missed it, and no other session did either.
pub proof fn predictions_hold_or_miss(o: Seq<Observation>)
    ensures
        how_many(o, has_held()) + how_many(o, has_missed()) == how_many(o, is_compared()),
        how_many(o, is_compared()) <= o.len(),
    decreases o.len(),
{
    if o.len() > 0 {
        predictions_hold_or_miss(o.drop_last());
    }
}

fn hardware_decode_summary(entries: &Vec<CalibrationEntry>) -> (r: String)
    ensures
        r@ == predictions_shown(contents_of(entries@)),
{
    let ghost all = contents_of(entries@);
    let compared: usize = count(entries, Property::Compared);
    let held: usize = count(entries, Property::Held);
    proof {
        predictions_hold_or_miss(all);
    }
    if compared == 0 {
        let mut s = owned("no calibration data yet (");
        s.append(dec_text(entries.len() as u128).as_str());
        s.append(" session");
        s.append(ending_text(entries.len()));
        s.append(" logged, none with a codec this build has a hardware-decode claim for)");
        return s;
    }
    let mut s = dec_text(held as u128);
    s.append("/");
    s.append(dec_text(compared as u128).as_str());
    if held == compared {
        s.append(" real playback session");
        s.append(ending_text(compared));
        s.append(" matched the fidelity model's hardware-decode prediction");
        return s;
    }
    s.append(
        " real playback sessions matched the fidelity model's hardware-decode prediction -- ",
    );
    s.append(dec_text((compared - held) as u128).as_str());
    s.append(" did not:");
    let ghost head = s@;
    let mut i: usize = 0;
    assert(all.take(0) =~= Seq::<Observation>::empty());
    assert(head + lines_on(all.take(0), has_missed(), miss_line()) =~= head);
    while i < entries.len()
        invariant
            i <= entries@.len(),
            all == contents_of(entries@),
            s@ == head + lines_on(all.take(i as int), has_missed(), miss_line()),
        decreases entries@.len() - i,
    {
        proof {
            assert(all.take(i as int + 1).drop_last() =~= all.take(i as int));
            assert(all.take(i as int + 1).last() == entries@[i as int].content());
        }
        if Property::Missed.holds(&entries[i]) {
            append_miss(&mut s, &entries[i]);
        }
        i += 1;
        assert(s@ =~= head + lines_on(all.take(i as int), has_missed(), miss_line()));
    }
    assert(all.take(i as int) =~= all);
    s
}

/// A hundred.
pub open spec fn hundred() -> Measure {
    Measure::Finite { negative: false, mantissa: 100, exponent: 0 }
}

/// The line on a session with too many dropped frames.
pub open spec fn stutter_line() -> spec_fn(Observation) -> Seq<char> {
    |o: Observation|
        "\n  "@ + o.path + " -- "@ + dec(o.dropped->0 as nat) + " dropped over "@
            + o.seconds.rounded(false) + "s ("@ + o.drop_rate().times(hundred()).rounded(true)
            + "%)"@
}

/// What is said of dropped frames; nothing where there is nothing to judge.
pub open spec fn drops_shown(o: Seq<Observation>) -> Option<Seq<char>> {
    let judged = how_many(o, is_judged());
    let flagged = how_many(o, has_stuttered());
    if judged == 0 {
        None
    } else if flagged == 0 {
        Some(
            dec(judged) + "/"@ + dec(judged) + " real playback session"@ + ending(judged)
                + " stayed under the 2% dropped-frame threshold"@,
        )
    } else {
        Some(
            dec(flagged) + "/"@ + dec(judged)
                + " real playback sessions exceeded the 2% dropped-frame threshold:"@ + lines_on(
                o,
                has_stuttered(),
                stutter_line(),
            ),
        )
    }
}

fn append_stutter(s: &mut String, e: &CalibrationEntry)
    requires
        e.content().judgeable(),
    ensures
        final(s)@ == old(s)@ + stutter_line()(e.content()),
{
    let mut line = owned("\n  ");
    line.append(e.path.as_str());
    line.append(" -- ");
    let dropped: u64 = match e.dropped_frames {
        Some(n) => n,
        None => 0,
    };
    line.append(dec_text(dropped as u128).as_str());
    line.append(" dropped over ");
    line.append(e.seconds_played.rounded_text(false).as_str());
    line.append("s (");
    let percent = e.rate().product(
        Measure::Finite { negative: false, mantissa: 100, exponent: 0 },
    );
    line.append(percent.rounded_text(true).as_str());
    line.append("%)");
    s.append(line.as_str());
}

fn drop_rate_summary(entries: &Vec<CalibrationEntry>) -> (r: Option<String>)
    ensures
        opt_view(r) == drops_shown(contents_of(entries@)),
{
    let ghost all = contents_of(entries@);
    let judged: usize = count(entries, Property::Judged);
    if judged == 0 {
        return None;
    }
    let flagged: usize = count(entries, Property::Stuttered);
    if flagged == 0 {
        let mut s = dec_text(judged as u128);
        s.append("/");
        s.append(dec_text(judged as u128).as_str());
        s.append(" real playback session");
        s.append(ending_text(judged));
        s.append(" stayed under the 2% dropped-frame threshold");
        return Some(s);
    }
    let mut s = dec_text(flagged as u128);
    s.append("/");
    s.append(dec_text(judged as u128).as_str());
    s.append(" real playback sessions exceeded the 2% dropped-frame threshold:");
    let ghost head = s@;
    let mut i: usize = 0;
    assert(all.take(0) =~= Seq::<Observation>::empty());
    assert(head + lines_on(all.take(0), has_stuttered(), stutter_line()) =~= head);
    while i < entries.len()
        invariant
            i <= entries@.len(),
            all == contents_of(entries@),
            s@ == head + lines_on(all.take(i as int), has_stuttered(), stutter_line()),
        decreases entries@.len() - i,
    {
        proof {
            assert(all.take(i as int + 1).drop_last() =~= all.take(i as int));
            assert(all.take(i as int + 1).last() == entries@[i as int].content());
        }
        if Property::Stuttered.holds(&entries[i]) {
            append_stutter(&mut s, &entries[i]);
        }
        i += 1;
        assert(s@ =~= head + lines_on(all.take(i as int), has_stuttered(), stutter_line()));
    }
    assert(all.take(i as int) =~= all);
    Some(s)
}

/// What a log says, for people to read.
pub open spec fn log_shown(o: Seq<Observation>) -> Seq<char> {
    match drops_shown(o) {
        Some(d) => predictions_shown(o) + seq!['\n'] + d,
        None => predictions_shown(o),
    }
}

/// What a log says: how often the prediction held, and whether too many frames were dropped.
pub fn summarize(entries: &Vec<CalibrationEntry>) -> (r: String)
    ensures
        r@ == log_shown(contents_of(entries@)),
{
    let mut s = hardware_decode_summary(entries);
    match drop_rate_summary(entries) {
        Some(d) => {
            let ghost head = s@;
            s.push('\n');
            assert(s@ =~= head + seq!['\n']);
            s.append(d.as_str());
        },
        None => {},
    }
    s
}

/// How a session's entries went into the log.
#[derive(Debug, Clone, Copy, PartialEq, Eq, Structural)]
pub struct Recording {
    pub misses: usize,
    pub recorded: usize,
}

impl Recording {
    /// Nothing is recorded yet.
    pub fn new() -> (r: Self)
        ensures
            r.misses == 0,
            r.recorded == 0,
    {
        Recording { misses: 0, recorded: 0 }
    }

    /// Notes an entry that is about to be written.
    pub fn saw(&mut self, e: &CalibrationEntry)
        requires
            old(self).misses < usize::MAX,
        ensures
            final(self).recorded == old(self).recorded,
            final(self).misses == old(self).misses + (if e.content().as_predicted() == Some(false) {
                1int
            } else {
                0
            }),
    {
        if Property::Missed.holds(e) {
            self.misses = self.misses + 1;
        }
    }

    /// Notes that the entry was written.
    pub fn wrote(&mut self)
        requires
            old(self).recorded < usize::MAX,
        ensures
            final(self).recorded == old(self).recorded + 1,
            final(self).misses == old(self).misses,
    {
        self.recorded = self.recorded + 1;
    }

    /// What to say when it is done; nothing when no prediction missed.
    pub fn remark(&self) -> (r: Option<String>)
        ensures
            opt_view(r) == (if self.misses == 0 {
                None
            } else {
                Some(
                    "calibration: "@ + dec(self.misses as nat) + "/"@ + dec(self.recorded as nat)
                        + " played file"@ + ending(self.recorded as nat)
                        + " did not decode the way the fidelity model predicted -- see `lumen doctor` for details"@,
                )
            }),
    {
        if self.misses == 0 {
            return None;
        }
        let mut s = owned("calibration: ");
        s.append(dec_text(self.misses as u128).as_str());
        s.append("/");
        s.append(dec_text(self.recorded as u128).as_str());
        s.append(" played file");
        s.append(ending_text(self.recorded));
        s.append(
            " did not decode the way the fidelity model predicted -- see `lumen doctor` for details",
        );
        Some(s)
    }
}

/// Whether a numeral is one that a log can hold, and stands for a quantity.
pub open spec fn writes(t: Seq<char>, m: Measure) -> bool {
    &&& numeral_value(t) == Some(m)
    &&& t.len() > 0
    &&& t[0] == '-' || is_digit(t[0])
    &&& forall|i: int| 0 <= i < t.len() ==> in_number(#[trigger] t[i])
}

/// Whether a number that may be missing is written by a numeral that may be missing.
pub open spec fn opt_writes(t: Option<Seq<char>>, m: Option<Measure>) -> bool {
    match (t, m) {
        (Some(t), Some(m)) => writes(t, m),
        (None, None) => true,
        _ => false,
    }
}

proof fn numerals_name_no_words(t: Seq<char>, m: Measure)
    requires
        writes(t, m),
    ensures
        float_value(t) == Some(m),
{
    reveal_strlit("nan");
    reveal_strlit("inf");
    reveal_strlit("infinity");
    assert("nan"@[0] == 'n' && "inf"@[0] == 'i' && "infinity"@[0] == 'i');
    let u = crate::number::unsigned(t);
    let word = crate::text::lower(u);
    if word.len() > 0 {
        assert(in_number(u[0])) by {
            if u.len() < t.len() {
                assert(u[0] == t[1]);
                assert(in_number(t[1]));
            } else {
                assert(in_number(t[0]));
            }
        }
        assert(word[0] != 'n' && word[0] != 'i');
    }
}

proof fn line_names_differ()
    ensures
        ({
            let a = "path"@;
            let b = "unix_secs"@;
            let c = "video_codec"@;
            let d = "predicted_hardware_decode"@;
            let e = "observed_hwdec"@;
            let f = "dropped_frames"@;
            let g = "seconds_played"@;
            let h = "expected_fps"@;
            &&& a != b && a != c && a != d && a != e && a != f && a != g && a != h
            &&& b != c && b != d && b != e && b != f && b != g && b != h
            &&& c != d && c != e && c != f && c != g && c != h
            &&& d != e && d != f && d != g && d != h
            &&& e != f && e != g && e != h
            &&& f != g && f != h
            &&& g != h
        }),
{
    reveal_strlit("path");
    reveal_strlit("unix_secs");
    reveal_strlit("video_codec");
    reveal_strlit("predicted_hardware_decode");
    reveal_strlit("observed_hwdec");
    reveal_strlit("dropped_frames");
    reveal_strlit("seconds_played");
    reveal_strlit("expected_fps");
    assert("path"@.len() == 4 && "unix_secs"@.len() == 9 && "video_codec"@.len() == 11);
    assert("predicted_hardware_decode"@.len() == 25 && "observed_hwdec"@.len() == 14);
    assert("dropped_frames"@.len() == 14 && "seconds_played"@.len() == 14);
    assert("expected_fps"@.len() == 12);
    assert("observed_hwdec"@[0] == 'o' && "dropped_frames"@[0] == 'd' && "seconds_played"@[0]
        == 's');
}

/// The members of an entry's line, as values.
spec fn line_values(o: Observation, seconds: Seq<char>, fps: Option<Seq<char>>) -> Seq<
    (Seq<char>, Json),
> {
    seq![
        ("path"@, Json::Str(o.path)),
        ("unix_secs"@, Json::Num(dec(o.unix_secs as nat))),
        ("video_codec"@, opt_str_value(o.video_codec)),
        ("predicted_hardware_decode"@, opt_bool_value(o.predicted)),
        ("observed_hwdec"@, opt_str_value(o.observed)),
        ("dropped_frames"@, opt_num_value(opt_nat(o.dropped))),
        ("seconds_played"@, Json::Num(seconds)),
        (
            "expected_fps"@,
            match fps {
                Some(t) => Json::Num(t),
                None => Json::Null,
            },
        ),
    ]
}

proof fn line_reads(o: Observation, seconds: Seq<char>, fps: Option<Seq<char>>)
    requires
        writes(seconds, o.seconds),
        opt_writes(fps, o.fps),
    ensures
        document(object_text(line_members(o, seconds, fps))) == Ok::<Json, Seq<char>>(
            Json::Object(with_members(Map::empty(), line_values(o, seconds, fps), 0)),
        ),
{
    let m = line_members(o, seconds, fps);
    let v = line_values(o, seconds, fps);
    reads_string(o.path);
    crate::record::dec_reads(o.unix_secs as nat);
    crate::record::opt_quoted_reads(o.video_codec);
    crate::record::opt_word_reads(o.predicted);
    crate::record::opt_quoted_reads(o.observed);
    crate::record::opt_numeral_reads(opt_nat(o.dropped));
    reads_number(seconds);
    match fps {
        Some(t) => reads_number(t),
        None => reads_null(),
    }
    assert forall|i: int| 0 <= i < m.len() implies (#[trigger] m[i]).0 == v[i].0 && reads_as(
        m[i].1,
        v[i].1,
        1,
    ) by {}
    reads_object(m, v, 1);
    reads_document(object_text(m), Json::Object(with_members(Map::empty(), v, 0)), 2);
}

/// An entry that is written to the log and read again says the same in every field, as long as its
/// whole numbers are at most 2^53 and its other numbers are written by numerals that stand for them.
pub proof fn entries_round_trip(o: Observation, seconds: Seq<char>, fps: Option<Seq<char>>)
    requires
        writes(seconds, o.seconds),
        opt_writes(fps, o.fps),
        o.unix_secs <= 0x20_0000_0000_0000,
        o.dropped is Some ==> o.dropped->0 <= 0x20_0000_0000_0000,
    ensures
        observation_on(object_text(line_members(o, seconds, fps))) == Some(o),
{
    line_reads(o, seconds, fps);
    line_names_differ();
    integers_read_exactly(o.unix_secs as int);
    assert(int_dec(o.unix_secs as int) == dec(o.unix_secs as nat));
    if o.dropped is Some {
        integers_read_exactly(o.dropped->0 as int);
        assert(int_dec(o.dropped->0 as int) == dec(o.dropped->0 as nat));
    }
    numerals_name_no_words(seconds, o.seconds);
    match (fps, o.fps) {
        (Some(t), Some(m)) => numerals_name_no_words(t, m),
        _ => {},
    }
    let v = line_values(o, seconds, fps);
    reveal_with_fuel(with_members, 9);
    let w = with_members(Map::empty(), v, 0);
    let j = Json::Object(w);
    assert(w.contains_key("path"@) && w["path"@] == v[0].1);
    assert(w.contains_key("unix_secs"@) && w["unix_secs"@] == v[1].1);
    assert(w.contains_key("video_codec"@) && w["video_codec"@] == v[2].1);
    assert(w.contains_key("predicted_hardware_decode"@) && w["predicted_hardware_decode"@]
        == v[3].1);
    assert(w.contains_key("observed_hwdec"@) && w["observed_hwdec"@] == v[4].1);
    assert(w.contains_key("dropped_frames"@) && w["dropped_frames"@] == v[5].1);
    assert(w.contains_key("seconds_played"@) && w["seconds_played"@] == v[6].1);
    assert(w.contains_key("expected_fps"@) && w["expected_fps"@] == v[7].1);
    assert(observation_in(j) is Some);
    assert(observation_in(j)->0.video_codec == o.video_codec);
    assert(observation_in(j)->0.observed == o.observed);
    assert(observation_in(j)->0.predicted == o.predicted);
    assert(observation_in(j)->0.dropped == o.dropped);
    assert(observation_in(j)->0.seconds == o.seconds);
    assert(observation_in(j)->0.fps == o.fps);
}

/// A prediction holds exactly where what was predicted happened: hardware was predicted and some
/// decoder was used, or none was predicted and none was. Without both there is nothing to compare.
pub proof fn predictions_hold_where_they_came_true(o: Observation, p: bool, used: Seq<char>)
    ensures
        o.predicted == Some(p) && o.observed == Some("no"@) ==> o.as_predicted() == Some(!p),
        o.predicted == Some(p) && o.observed == Some(Seq::<char>::empty()) ==> o.as_predicted()
            == Some(!p),
        o.predicted == Some(p) && o.observed == Some(used) && used.len() > 0 && used != "no"@
            ==> o.as_predicted() == Some(p),
        o.predicted is None || o.observed is None ==> o.as_predicted() is None,
{
}

/// The line on a prediction that missed says that hardware was predicted and software used, or the
/// other way round.
pub proof fn a_miss_says_what_happened(o: Observation)
    requires
        o.as_predicted() == Some(false),
    ensures
        ({
            let (meant, used) = if o.predicted == Some(true) {
                ("hardware"@, "software"@)
            } else {
                ("software"@, "hardware"@)
            };
            (" -- predicted "@ + meant + ", mpv actually used "@ + used).is_suffix_of(
                miss_line()(o),
            )
        }),
{
    let (meant, used) = if o.predicted == Some(true) {
        ("hardware"@, "software"@)
    } else {
        ("software"@, "hardware"@)
    };
    reveal_strlit(") -- predicted ");
    reveal_strlit(" -- predicted ");
    let tail = " -- predicted "@ + meant + ", mpv actually used "@ + used;
    let line = miss_line()(o);
    assert(") -- predicted "@ =~= ")"@ + " -- predicted "@) by {
        reveal_strlit(")");
    }
    assert(line.subrange(line.len() - tail.len(), line.len() as int) =~= tail);
}

/// Dropped frames are judged only of a file that played for two seconds at least and whose rate is
/// known.
pub proof fn short_runs_are_not_judged(o: Observation, n: u64)
    ensures
        o.seconds == (Measure::Finite { negative: false, mantissa: n, exponent: 0 }) && n < 2
            ==> o.stutters() is None,
        o.dropped is None || o.fps is None ==> o.stutters() is None,
{
    lemma2_to64();
    assert(n as nat * 1 == n);
    assert(2nat * 1 == 2);
}

proof fn claims_are_first(claims: Seq<DecodeClaim>, c: VideoCodec, i: int)
    requires
        0 <= i <= claims.len(),
    ensures
        match claimed(claims, c, i) {
            Some(h) => exists|k: int|
                i <= k < claims.len() && (#[trigger] claims[k]).codec.is(c) && claims[k].hardware == h
                    && forall|j: int| i <= j < k ==> !(#[trigger] claims[j]).codec.is(c),
            None => forall|k: int| i <= k < claims.len() ==> !(#[trigger] claims[k]).codec.is(c),
        },
    decreases claims.len() - i,
{
    if i < claims.len() {
        if claims[i].codec.is(c) {
            assert(claimed(claims, c, i) == Some(claims[i].hardware));
        } else {
            claims_are_first(claims, c, i + 1);
            match claimed(claims, c, i + 1) {
                Some(h) => {
                    let k = choose|k: int|
                        i + 1 <= k < claims.len() && (#[trigger] claims[k]).codec.is(c)
                            && claims[k].hardware == h && forall|j: int|
                            i + 1 <= j < k ==> !(#[trigger] claims[j]).codec.is(c);
                    assert(claims[k].codec.is(c) && claims[k].hardware == h);
                },
                None => {},
            }
        }
    }
}

/// The first claim about a codec decides what is predicted for it; without any there is no prediction.
pub proof fn the_first_claim_decides(claims: Seq<DecodeClaim>, c: VideoCodec)
    ensures
        match claimed(claims, c, 0) {
            Some(h) => exists|k: int|
                0 <= k < claims.len() && (#[trigger] claims[k]).codec.is(c) && claims[k].hardware == h
                    && forall|j: int| 0 <= j < k ==> !(#[trigger] claims[j]).codec.is(c),
            None => forall|k: int| 0 <= k < claims.len() ==> !(#[trigger] claims[k]).codec.is(c),
        },
{
    claims_are_first(claims, c, 0);
}

/// Observations are counted as many as have the property, and a log's entries are read in the order of
/// its lines.
pub proof fn observations_are_counted(o: Seq<Observation>, p: spec_fn(Observation) -> bool)
    ensures
        how_many(o, p) == o.filter(p).len(),
    decreases o.len(),
{
    reveal(Seq::filter);
    if o.len() > 0 {
        observations_are_counted(o.drop_last(), p);
    }
}

/// What is said of the predictions begins with how many held of how many could be compared; of dropped
/// frames with how many sessions were over the threshold of how many could be judged.
pub proof fn summaries_begin_with_the_counts(o: Seq<Observation>)
    ensures
        ({
            let held = o.filter(|x: Observation| x.as_predicted() == Some(true)).len();
            let compared = o.filter(|x: Observation| x.as_predicted() is Some).len();
            &&& compared > 0 ==> (dec(held) + "/"@ + dec(compared)
                + " real playback session"@).is_prefix_of(predictions_shown(o))
            &&& compared == 0 ==> ("no calibration data yet ("@ + dec(o.len())).is_prefix_of(
                predictions_shown(o),
            )
        }),
        ({
            let over = o.filter(|x: Observation| x.stutters() == Some(true)).len();
            let judged = o.filter(|x: Observation| x.stutters() is Some).len();
            &&& judged == 0 <==> drops_shown(o) is None
            &&& judged > 0 && over > 0 ==> (dec(over) + "/"@ + dec(judged)
                + " real playback sessions exceeded"@).is_prefix_of(drops_shown(o)->0)
            &&& judged > 0 && over == 0 ==> (dec(judged) + "/"@ + dec(judged)
                + " real playback session"@).is_prefix_of(drops_shown(o)->0)
        }),
{
    let h = |x: Observation| x.as_predicted() == Some(true);
    let c = |x: Observation| x.as_predicted() is Some;
    let v = |x: Observation| x.stutters() == Some(true);
    let j = |x: Observation| x.stutters() is Some;
    observations_are_counted(o, has_held());
    observations_are_counted(o, is_compared());
    observations_are_counted(o, has_stuttered());
    observations_are_counted(o, is_judged());
    assert(has_held() =~= h);
    assert(is_compared() =~= c);
    assert(has_stuttered() =~= v);
    assert(is_judged() =~= j);
    reveal_strlit(" real playback session");
    reveal_strlit(
        " real playback sessions matched the fidelity model's hardware-decode prediction -- ",
    );
    reveal_strlit(" real playback sessions exceeded");
    reveal_strlit(" real playback sessions exceeded the 2% dropped-frame threshold:");
    let p = predictions_shown(o);
    let held = how_many(o, has_held());
    let compared = how_many(o, is_compared());
    if compared > 0 {
        let head = dec(held) + "/"@ + dec(compared) + " real playback session"@;
        assert(p.subrange(0, head.len() as int) =~= head);
    } else {
        let head = "no calibration data yet ("@ + dec(o.len());
        assert(p.subrange(0, head.len() as int) =~= head);
    }
    let judged = how_many(o, is_judged());
    let over = how_many(o, has_stuttered());
    if judged > 0 {
        let d = drops_shown(o)->0;
        if over > 0 {
            let head = dec(over) + "/"@ + dec(judged) + " real playback sessions exceeded"@;
            assert(d.subrange(0, head.len() as int) =~= head);
        } else {
            let head = dec(judged) + "/"@ + dec(judged) + " real playback session"@;
            assert(d.subrange(0, head.len() as int) =~= head);
        }
    }
}

/// A session of two seconds or more at a known rate is judged. Where no frame was dropped it does not
/// stutter; where as many were as there are frames it does.
pub proof fn dropped_frames_are_judged(o: Observation, fps: u64, n: u64)
    requires
        o.fps == Some(Measure::Finite { negative: false, mantissa: fps, exponent: 0 }),
        o.seconds == (Measure::Finite { negative: false, mantissa: n, exponent: 0 }),
        o.dropped is Some,
        fps > 0,
        n >= 2,
        fps * n <= u64::MAX,
    ensures
        o.stutters() is Some,
        o.dropped == Some(0u64) ==> o.stutters() == Some(false),
        o.dropped->0 == fps * n && fps * n <= 0x20_0000_0000_0000 ==> o.stutters() == Some(true),
{
    lemma2_to64();
    assert(fps as nat * 1 == fps);
    assert(n as nat * 1 == n && 2nat * 1 == 2);
    let frames = (fps * n) as nat;
    assert(fps as nat * n as nat == frames);
    assert(frames > 0) by (nonlinear_arith)
        requires
            frames == fps * n,
            fps > 0,
            n >= 2,
    ;
    assert(frames * 1 == frames);
    threshold_is();
    let whole = o.fps->0.times(o.seconds);
    assert(whole == nearest(frames, 1).signed(false));
    if o.dropped == Some(0u64) {
        if whole is Finite {
            assert(0nat * crate::binary64::up(0 - whole->exponent) == 0);
        }
        match o.drop_rate() {
            Measure::Finite { negative, mantissa, exponent } => {
                assert(mantissa == 0);
                crate::binary64::up_is_positive(exponent + 58);
                assert(0 * crate::binary64::up(exponent + 58) == 0);
                assert(0x14_7AE1_47AE_147B * crate::binary64::down(exponent + 58) > 0)
                    by (nonlinear_arith)
                    requires
                        crate::binary64::down(exponent + 58) > 0,
                ;
            },
            _ => {},
        }
    }
    if o.dropped->0 == frames && frames <= 0x20_0000_0000_0000 {
        crate::binary64::whole_numbers_are_exact(frames);
        assert(nearest(frames, 1) is Finite);
        let m = nearest(frames, 1)->mantissa;
        let e = nearest(frames, 1)->exponent;
        let k = (if e >= 0 {
            e as int
        } else {
            -(e as int)
        }) as nat;
        vstd::arithmetic::power2::lemma_pow2_pos(k);
        assert(0nat * pow2(k) == 0);
        assert(0nat / pow2(k) == 0) by (nonlinear_arith)
            requires
                pow2(k) > 0,
        ;
        assert(m > 0);
        crate::binary64::whole_numbers_multiply(m, 1, e);
        assert(nearest(frames, 1) == (Measure::Finite { negative: false, mantissa: m, exponent: e }));
        assert(o.drop_rate() == nearest(frames, 1).over(nearest(frames, 1)));
        assert(crate::binary64::up(6) == 64 && crate::binary64::down(6) == 1);
        assert(0x10_0000_0000_0000 * 64 > 0x14_7AE1_47AE_147B * 1);
        assert(o.drop_rate().greater(drop_threshold()));
    }
}

/// What is predicted goes by the first picture track that was selected: whatever claim comes first for
/// its codec. Without such a track there is no prediction.
pub proof fn predictions_go_by_the_selected_track(
    p: Option<bool>,
    r: FileResult,
    claims: Seq<DecodeClaim>,
    c: VideoCodec,
    i: int,
    k: int,
)
    requires
        is_prediction(p, r, claims),
    ensures
        (forall|j: int|
            0 <= j < r.tracks@.len() ==> !((#[trigger] r.tracks@[j]).kind@ == "video"@
                && r.tracks@[j].selected)) ==> p is None,
        0 <= i < r.tracks@.len() && r.tracks@[i].kind@ == "video"@ && r.tracks@[i].selected && (forall|
            j: int,
        |
            0 <= j < i ==> !((#[trigger] r.tracks@[j]).kind@ == "video"@ && r.tracks@[j].selected))
            && is_video_codec(c, opt_view(r.tracks@[i].codec)) && 0 <= k < claims.len()
            && claims[k].codec.is(c) && (forall|j: int|
            0 <= j < k ==> !(#[trigger] claims[j]).codec.is(c)) ==> p == Some(claims[k].hardware),
{
    crate::fidelity::selected_is_first(r.tracks@, "video"@, 0);
    the_first_claim_decides(claims, c);
}

} // verus!
