//! What the player reported about a file, as the description of its streams that a decision about
//! playing it elsewhere is made on.
//!
//! A tier is modelled, not measured: the streams are what the player found in the file, and what a
//! client makes of them is what its declared capabilities would yield.
use vstd::arithmetic::power2::{lemma2_to64, lemma2_to64_rest, lemma_pow2_pos, pow2};
use vstd::prelude::*;
use vstd::string::*;

use crate::binary64::{
    down,
    half_even,
    half_even_is_near,
    magnitude,
    magnitude_bounds,
    nearest,
    nearest_scaled,
    step,
    up,
    up_adds,
    up_grows,
};
use crate::measure::Measure;
use crate::media::Container;
use crate::scan::ScannedFile;
use crate::session::{FileResult, Rational, TrackInfo};
use crate::text::{
    chars_of,
    contains_text,
    dec,
    ends_with,
    is_digit,
    lower,
    lower_text,
    occurs,
    opt_borrow,
    opt_is,
    opt_str_view,
    opt_view,
    owned,
    parse_uint,
    parse_uint_text,
    same,
    slice_text,
    split,
    split_text,
    starts_with,
    trim,
    trim_text,
    upper,
    upper_text,
    views,
};

verus! {

/// A video codec.
#[derive(Debug, Clone, PartialEq, Eq)]
pub enum VideoCodec {
    H264,
    Hevc,
    Vvc,
    Av1,
    Vp8,
    Vp9,
    Mpeg1,
    Mpeg2,
    Mpeg4Part2,
    Vc1,
    Theora,
    ProRes,
    ProResRaw,
    DnxHd,
    Apv,
    Ffv1,
    Mjpeg,
    Dv,
    Uncompressed,
    H263,
    Cinepak,
    Indeo,
    Svq3,
    QtRle,
    UtVideo,
    /// A codec that is not known, by its name.
    Other(String),
}

/// An audio codec.
#[derive(Debug, Clone, PartialEq, Eq)]
pub enum AudioCodec {
    TrueHd,
    Flac,
    Alac,
    WavPack,
    MonkeysAudio,
    Ac3,
    EAc3,
    Ac4,
    Aac,
    Opus,
    Vorbis,
    Mp3,
    Mp2,
    Wma,
    WmaLossless,
    Dts,
    DtsHdMa,
    DtsHdHra,
    DtsX,
    Pcm,
    Dsd,
    Adpcm,
    /// A codec that is not known, by its name.
    Other(String),
}

/// A subtitle codec.
#[derive(Debug, Clone, PartialEq, Eq)]
pub enum SubtitleCodec {
    SubRip,
    Ass,
    WebVtt,
    Ttml,
    MicroDvd,
    SubViewer,
    MovText,
    Pgs,
    VobSub,
    DvbSub,
    Cea608,
    Cea708,
    Teletext,
    /// A codec that is not known, by its name.
    Other(String),
}

/// The video codec of a lowercase name; none where it is not known.
pub open spec fn video_named(n: Seq<char>) -> Option<VideoCodec> {
    if n == "h264"@ || n == "avc"@ || n == "avc1"@ {
        Some(VideoCodec::H264)
    } else if n == "hevc"@ || n == "h265"@ || n == "hvc1"@ || n == "hev1"@ {
        Some(VideoCodec::Hevc)
    } else if n == "vvc"@ || n == "h266"@ {
        Some(VideoCodec::Vvc)
    } else if n == "av1"@ {
        Some(VideoCodec::Av1)
    } else if n == "vp8"@ {
        Some(VideoCodec::Vp8)
    } else if n == "vp9"@ {
        Some(VideoCodec::Vp9)
    } else if n == "mpeg1video"@ {
        Some(VideoCodec::Mpeg1)
    } else if n == "mpeg2video"@ {
        Some(VideoCodec::Mpeg2)
    } else if n == "mpeg4"@ || n == "msmpeg4v3"@ || n == "msmpeg4v2"@ || n == "div3"@ || n == "divx"@ || n == "xvid"@ {
        Some(VideoCodec::Mpeg4Part2)
    } else if n == "vc1"@ || n == "wmv3"@ {
        Some(VideoCodec::Vc1)
    } else if n == "theora"@ {
        Some(VideoCodec::Theora)
    } else if n == "prores"@ {
        Some(VideoCodec::ProRes)
    } else if n == "prores_raw"@ || n == "aprn"@ || n == "aprh"@ {
        Some(VideoCodec::ProResRaw)
    } else if n == "dnxhd"@ || n == "dnxhr"@ {
        Some(VideoCodec::DnxHd)
    } else if n == "apv"@ {
        Some(VideoCodec::Apv)
    } else if n == "ffv1"@ {
        Some(VideoCodec::Ffv1)
    } else if n == "mjpeg"@ {
        Some(VideoCodec::Mjpeg)
    } else if n == "dvvideo"@ {
        Some(VideoCodec::Dv)
    } else if n == "rawvideo"@ || n == "v210"@ || n == "yuv4"@ {
        Some(VideoCodec::Uncompressed)
    } else if n == "h263"@ || n == "h263p"@ || n == "h263i"@ {
        Some(VideoCodec::H263)
    } else if n == "cinepak"@ {
        Some(VideoCodec::Cinepak)
    } else if n == "indeo2"@ || n == "indeo3"@ || n == "indeo4"@ || n == "indeo5"@ {
        Some(VideoCodec::Indeo)
    } else if n == "svq3"@ {
        Some(VideoCodec::Svq3)
    } else if n == "qtrle"@ {
        Some(VideoCodec::QtRle)
    } else if n == "utvideo"@ {
        Some(VideoCodec::UtVideo)
    } else {
        None
    }
}

/// The audio codec of a lowercase name, where the name alone decides; none where it is not known.
pub open spec fn audio_named(n: Seq<char>) -> Option<AudioCodec> {
    if n == "truehd"@ || n == "mlp"@ {
        Some(AudioCodec::TrueHd)
    } else if n == "flac"@ {
        Some(AudioCodec::Flac)
    } else if n == "alac"@ {
        Some(AudioCodec::Alac)
    } else if n == "wavpack"@ {
        Some(AudioCodec::WavPack)
    } else if n == "ape"@ || n == "monkeysaudio"@ {
        Some(AudioCodec::MonkeysAudio)
    } else if n == "ac3"@ {
        Some(AudioCodec::Ac3)
    } else if n == "eac3"@ {
        Some(AudioCodec::EAc3)
    } else if n == "ac4"@ {
        Some(AudioCodec::Ac4)
    } else if n == "aac"@ || n == "aac_latm"@ {
        Some(AudioCodec::Aac)
    } else if n == "opus"@ {
        Some(AudioCodec::Opus)
    } else if n == "vorbis"@ {
        Some(AudioCodec::Vorbis)
    } else if n == "mp3"@ || n == "mp3float"@ {
        Some(AudioCodec::Mp3)
    } else if n == "mp2"@ || n == "mp2float"@ {
        Some(AudioCodec::Mp2)
    } else if n == "wmav1"@ || n == "wmav2"@ || n == "wmapro"@ {
        Some(AudioCodec::Wma)
    } else if n == "wmalossless"@ {
        Some(AudioCodec::WmaLossless)
    } else {
        None
    }
}

/// The subtitle codec of a lowercase name; none where it is not known.
pub open spec fn subtitle_named(n: Seq<char>) -> Option<SubtitleCodec> {
    if n == "subrip"@ || n == "srt"@ {
        Some(SubtitleCodec::SubRip)
    } else if n == "ass"@ || n == "ssa"@ {
        Some(SubtitleCodec::Ass)
    } else if n == "webvtt"@ || n == "vtt"@ {
        Some(SubtitleCodec::WebVtt)
    } else if n == "ttml"@ || n == "stl"@ {
        Some(SubtitleCodec::Ttml)
    } else if n == "microdvd"@ {
        Some(SubtitleCodec::MicroDvd)
    } else if n == "subviewer"@ || n == "subviewer1"@ {
        Some(SubtitleCodec::SubViewer)
    } else if n == "mov_text"@ || n == "tx3g"@ {
        Some(SubtitleCodec::MovText)
    } else if n == "hdmv_pgs_subtitle"@ || n == "pgssub"@ {
        Some(SubtitleCodec::Pgs)
    } else if n == "dvd_subtitle"@ || n == "dvdsub"@ {
        Some(SubtitleCodec::VobSub)
    } else if n == "dvb_subtitle"@ || n == "dvbsub"@ {
        Some(SubtitleCodec::DvbSub)
    } else if n == "eia_608"@ || n == "cc_dec"@ {
        Some(SubtitleCodec::Cea608)
    } else if n == "eia_708"@ || n == "cea_708"@ {
        Some(SubtitleCodec::Cea708)
    } else if n == "dvb_teletext"@ || n == "teletext"@ {
        Some(SubtitleCodec::Teletext)
    } else {
        None
    }
}

fn known_video(n: &str) -> (r: Option<VideoCodec>)
    ensures
        r == video_named(n@),
{
    if same(n, "h264") || same(n, "avc") || same(n, "avc1") {
        Some(VideoCodec::H264)
    } else if same(n, "hevc") || same(n, "h265") || same(n, "hvc1") || same(n, "hev1") {
        Some(VideoCodec::Hevc)
    } else if same(n, "vvc") || same(n, "h266") {
        Some(VideoCodec::Vvc)
    } else if same(n, "av1") {
        Some(VideoCodec::Av1)
    } else if same(n, "vp8") {
        Some(VideoCodec::Vp8)
    } else if same(n, "vp9") {
        Some(VideoCodec::Vp9)
    } else if same(n, "mpeg1video") {
        Some(VideoCodec::Mpeg1)
    } else if same(n, "mpeg2video") {
        Some(VideoCodec::Mpeg2)
    } else if same(n, "mpeg4") || same(n, "msmpeg4v3") || same(n, "msmpeg4v2") || same(n, "div3") || same(n, "divx") || same(n, "xvid") {
        Some(VideoCodec::Mpeg4Part2)
    } else if same(n, "vc1") || same(n, "wmv3") {
        Some(VideoCodec::Vc1)
    } else if same(n, "theora") {
        Some(VideoCodec::Theora)
    } else if same(n, "prores") {
        Some(VideoCodec::ProRes)
    } else if same(n, "prores_raw") || same(n, "aprn") || same(n, "aprh") {
        Some(VideoCodec::ProResRaw)
    } else if same(n, "dnxhd") || same(n, "dnxhr") {
        Some(VideoCodec::DnxHd)
    } else if same(n, "apv") {
        Some(VideoCodec::Apv)
    } else if same(n, "ffv1") {
        Some(VideoCodec::Ffv1)
    } else if same(n, "mjpeg") {
        Some(VideoCodec::Mjpeg)
    } else if same(n, "dvvideo") {
        Some(VideoCodec::Dv)
    } else if same(n, "rawvideo") || same(n, "v210") || same(n, "yuv4") {
        Some(VideoCodec::Uncompressed)
    } else if same(n, "h263") || same(n, "h263p") || same(n, "h263i") {
        Some(VideoCodec::H263)
    } else if same(n, "cinepak") {
        Some(VideoCodec::Cinepak)
    } else if same(n, "indeo2") || same(n, "indeo3") || same(n, "indeo4") || same(n, "indeo5") {
        Some(VideoCodec::Indeo)
    } else if same(n, "svq3") {
        Some(VideoCodec::Svq3)
    } else if same(n, "qtrle") {
        Some(VideoCodec::QtRle)
    } else if same(n, "utvideo") {
        Some(VideoCodec::UtVideo)
    } else {
        None
    }
}

fn known_audio(n: &str) -> (r: Option<AudioCodec>)
    ensures
        r == audio_named(n@),
{
    if same(n, "truehd") || same(n, "mlp") {
        Some(AudioCodec::TrueHd)
    } else if same(n, "flac") {
        Some(AudioCodec::Flac)
    } else if same(n, "alac") {
        Some(AudioCodec::Alac)
    } else if same(n, "wavpack") {
        Some(AudioCodec::WavPack)
    } else if same(n, "ape") || same(n, "monkeysaudio") {
        Some(AudioCodec::MonkeysAudio)
    } else if same(n, "ac3") {
        Some(AudioCodec::Ac3)
    } else if same(n, "eac3") {
        Some(AudioCodec::EAc3)
    } else if same(n, "ac4") {
        Some(AudioCodec::Ac4)
    } else if same(n, "aac") || same(n, "aac_latm") {
        Some(AudioCodec::Aac)
    } else if same(n, "opus") {
        Some(AudioCodec::Opus)
    } else if same(n, "vorbis") {
        Some(AudioCodec::Vorbis)
    } else if same(n, "mp3") || same(n, "mp3float") {
        Some(AudioCodec::Mp3)
    } else if same(n, "mp2") || same(n, "mp2float") {
        Some(AudioCodec::Mp2)
    } else if same(n, "wmav1") || same(n, "wmav2") || same(n, "wmapro") {
        Some(AudioCodec::Wma)
    } else if same(n, "wmalossless") {
        Some(AudioCodec::WmaLossless)
    } else {
        None
    }
}

fn known_subtitle(n: &str) -> (r: Option<SubtitleCodec>)
    ensures
        r == subtitle_named(n@),
{
    if same(n, "subrip") || same(n, "srt") {
        Some(SubtitleCodec::SubRip)
    } else if same(n, "ass") || same(n, "ssa") {
        Some(SubtitleCodec::Ass)
    } else if same(n, "webvtt") || same(n, "vtt") {
        Some(SubtitleCodec::WebVtt)
    } else if same(n, "ttml") || same(n, "stl") {
        Some(SubtitleCodec::Ttml)
    } else if same(n, "microdvd") {
        Some(SubtitleCodec::MicroDvd)
    } else if same(n, "subviewer") || same(n, "subviewer1") {
        Some(SubtitleCodec::SubViewer)
    } else if same(n, "mov_text") || same(n, "tx3g") {
        Some(SubtitleCodec::MovText)
    } else if same(n, "hdmv_pgs_subtitle") || same(n, "pgssub") {
        Some(SubtitleCodec::Pgs)
    } else if same(n, "dvd_subtitle") || same(n, "dvdsub") {
        Some(SubtitleCodec::VobSub)
    } else if same(n, "dvb_subtitle") || same(n, "dvbsub") {
        Some(SubtitleCodec::DvbSub)
    } else if same(n, "eia_608") || same(n, "cc_dec") {
        Some(SubtitleCodec::Cea608)
    } else if same(n, "eia_708") || same(n, "cea_708") {
        Some(SubtitleCodec::Cea708)
    } else if same(n, "dvb_teletext") || same(n, "teletext") {
        Some(SubtitleCodec::Teletext)
    } else {
        None
    }
}

impl VideoCodec {
    /// A number of its own for each codec that is known.
    pub open spec fn ordinal(self) -> u8 {
        match self {
            VideoCodec::H264 => 0,
            VideoCodec::Hevc => 1,
            VideoCodec::Vvc => 2,
            VideoCodec::Av1 => 3,
            VideoCodec::Vp8 => 4,
            VideoCodec::Vp9 => 5,
            VideoCodec::Mpeg1 => 6,
            VideoCodec::Mpeg2 => 7,
            VideoCodec::Mpeg4Part2 => 8,
            VideoCodec::Vc1 => 9,
            VideoCodec::Theora => 10,
            VideoCodec::ProRes => 11,
            VideoCodec::ProResRaw => 12,
            VideoCodec::DnxHd => 13,
            VideoCodec::Apv => 14,
            VideoCodec::Ffv1 => 15,
            VideoCodec::Mjpeg => 16,
            VideoCodec::Dv => 17,
            VideoCodec::Uncompressed => 18,
            VideoCodec::H263 => 19,
            VideoCodec::Cinepak => 20,
            VideoCodec::Indeo => 21,
            VideoCodec::Svq3 => 22,
            VideoCodec::QtRle => 23,
            VideoCodec::UtVideo => 24,
            VideoCodec::Other(_) => 25,
        }
    }

    fn number(&self) -> (r: u8)
        ensures
            r == self.ordinal(),
    {
        match self {
            VideoCodec::H264 => 0,
            VideoCodec::Hevc => 1,
            VideoCodec::Vvc => 2,
            VideoCodec::Av1 => 3,
            VideoCodec::Vp8 => 4,
            VideoCodec::Vp9 => 5,
            VideoCodec::Mpeg1 => 6,
            VideoCodec::Mpeg2 => 7,
            VideoCodec::Mpeg4Part2 => 8,
            VideoCodec::Vc1 => 9,
            VideoCodec::Theora => 10,
            VideoCodec::ProRes => 11,
            VideoCodec::ProResRaw => 12,
            VideoCodec::DnxHd => 13,
            VideoCodec::Apv => 14,
            VideoCodec::Ffv1 => 15,
            VideoCodec::Mjpeg => 16,
            VideoCodec::Dv => 17,
            VideoCodec::Uncompressed => 18,
            VideoCodec::H263 => 19,
            VideoCodec::Cinepak => 20,
            VideoCodec::Indeo => 21,
            VideoCodec::Svq3 => 22,
            VideoCodec::QtRle => 23,
            VideoCodec::UtVideo => 24,
            VideoCodec::Other(_) => 25,
        }
    }

    /// Whether two codecs are the same one.
    pub open spec fn is(self, other: VideoCodec) -> bool {
        match (self, other) {
            (VideoCodec::Other(a), VideoCodec::Other(b)) => a@ == b@,
            _ => self == other,
        }
    }

    /// Whether two codecs are the same one.
    pub fn same_as(&self, other: &VideoCodec) -> (r: bool)
        ensures
            r == self.is(*other),
    {
        match (self, other) {
            (VideoCodec::Other(a), VideoCodec::Other(b)) => same(a.as_str(), b.as_str()),
            _ => self.number() == other.number(),
        }
    }
}

/// The name that an optional text gives, in lower case; empty when there is none.
pub open spec fn folded(name: Option<Seq<char>>) -> Seq<char> {
    match name {
        Some(n) => lower(n),
        None => Seq::empty(),
    }
}

fn folded_text(name: Option<&str>) -> (r: String)
    ensures
        r@ == folded(opt_str_view(name)),
{
    match name {
        Some(n) => lower_text(n),
        None => String::new(),
    }
}

/// Whether a codec is the one that a name stands for: a known one, or another under that name.
pub open spec fn is_video_codec(c: VideoCodec, name: Option<Seq<char>>) -> bool {
    match video_named(folded(name)) {
        Some(k) => c == k,
        None => match c {
            VideoCodec::Other(n) => n@ == folded(name),
            _ => false,
        },
    }
}

/// The video codec that a name stands for. A name that is not known is no error.
pub fn video_codec(name: Option<&str>) -> (r: VideoCodec)
    ensures
        is_video_codec(r, opt_str_view(name)),
{
    let n = folded_text(name);
    match known_video(n.as_str()) {
        Some(c) => c,
        None => VideoCodec::Other(n),
    }
}

/// The audio codec that a lowercase name and an uppercase profile stand for; none where the name is
/// not known.
///
/// A profile tells the lossless forms of DTS from the core that they contain. Where there is none,
/// the core is what is certain.
pub open spec fn audio_kind(n: Seq<char>, profile: Seq<char>) -> Option<AudioCodec> {
    if "pcm_"@.is_prefix_of(n) {
        Some(AudioCodec::Pcm)
    } else if "dsd_"@.is_prefix_of(n) {
        Some(AudioCodec::Dsd)
    } else if "adpcm_"@.is_prefix_of(n) {
        Some(AudioCodec::Adpcm)
    } else if n == "dts"@ {
        if occurs(profile, "DTS:X"@) || occurs(profile, "DTS-X"@) {
            Some(AudioCodec::DtsX)
        } else if occurs(profile, "MA"@) {
            Some(AudioCodec::DtsHdMa)
        } else if occurs(profile, "HRA"@) {
            Some(AudioCodec::DtsHdHra)
        } else {
            Some(AudioCodec::Dts)
        }
    } else {
        audio_named(n)
    }
}

/// A profile in upper case; empty when there is none.
pub open spec fn profile_word(profile: Option<Seq<char>>) -> Seq<char> {
    match profile {
        Some(p) => upper(p),
        None => Seq::empty(),
    }
}

/// Whether a codec is the one that a name and a profile stand for.
pub open spec fn is_audio_codec(
    c: AudioCodec,
    name: Option<Seq<char>>,
    profile: Option<Seq<char>>,
) -> bool {
    match audio_kind(folded(name), profile_word(profile)) {
        Some(k) => c == k,
        None => match c {
            AudioCodec::Other(n) => n@ == folded(name),
            _ => false,
        },
    }
}

/// The audio codec that a name stands for, refined by the profile where there is one.
pub fn audio_codec(name: Option<&str>, profile: Option<&str>) -> (r: AudioCodec)
    ensures
        is_audio_codec(r, opt_str_view(name), opt_str_view(profile)),
{
    let n = folded_text(name);
    let p = match profile {
        Some(p) => upper_text(p),
        None => String::new(),
    };
    if starts_with(n.as_str(), "pcm_") {
        return AudioCodec::Pcm;
    }
    if starts_with(n.as_str(), "dsd_") {
        return AudioCodec::Dsd;
    }
    if starts_with(n.as_str(), "adpcm_") {
        return AudioCodec::Adpcm;
    }
    if same(n.as_str(), "dts") {
        return if contains_text(p.as_str(), "DTS:X") || contains_text(p.as_str(), "DTS-X") {
            AudioCodec::DtsX
        } else if contains_text(p.as_str(), "MA") {
            AudioCodec::DtsHdMa
        } else if contains_text(p.as_str(), "HRA") {
            AudioCodec::DtsHdHra
        } else {
            AudioCodec::Dts
        };
    }
    match known_audio(n.as_str()) {
        Some(c) => c,
        None => AudioCodec::Other(n),
    }
}

/// Whether a codec is the one that a name stands for.
pub open spec fn is_subtitle_codec(c: SubtitleCodec, name: Option<Seq<char>>) -> bool {
    match subtitle_named(folded(name)) {
        Some(k) => c == k,
        None => match c {
            SubtitleCodec::Other(n) => n@ == folded(name),
            _ => false,
        },
    }
}

/// The subtitle codec that a name stands for.
pub fn subtitle_codec(name: Option<&str>) -> (r: SubtitleCodec)
    ensures
        is_subtitle_codec(r, opt_str_view(name)),
{
    let n = folded_text(name);
    match known_subtitle(n.as_str()) {
        Some(c) => c,
        None => SubtitleCodec::Other(n),
    }
}

/// No profile, no promise: DTS without one is the core alone.
pub proof fn dts_without_a_profile_is_the_core(c: AudioCodec, name: Seq<char>)
    requires
        lower(name) == "dts"@,
        is_audio_codec(c, Some(name), None),
    ensures
        c == AudioCodec::Dts,
{
    reveal_strlit("pcm_");
    reveal_strlit("dsd_");
    reveal_strlit("adpcm_");
    reveal_strlit("dts");
    reveal_strlit("DTS:X");
    reveal_strlit("DTS-X");
    reveal_strlit("MA");
    reveal_strlit("HRA");
    assert("DTS:X"@.len() == 5 && "DTS-X"@.len() == 5 && "MA"@.len() == 2 && "HRA"@.len() == 3);
    assert("pcm_"@.len() == 4 && "dsd_"@.len() == 4 && "adpcm_"@.len() == 6 && "dts"@.len() == 3);
}

/// Whether a list separated by commas holds a name.
pub open spec fn holds_name(list: Seq<char>, name: Seq<char>) -> bool {
    exists|i: int|
        0 <= i < split(list, ',').len() && trim(#[trigger] split(list, ',')[i]) == name
}

fn has_name(parts: &Vec<String>, name: &str, Ghost(list): Ghost<Seq<char>>) -> (r: bool)
    requires
        views(parts@) == split(list, ','),
    ensures
        r == holds_name(list, name@),
{
    let mut i: usize = 0;
    while i < parts.len()
        invariant
            i <= parts@.len(),
            views(parts@) == split(list, ','),
            forall|k: int| 0 <= k < i ==> trim(#[trigger] split(list, ',')[k]) != name@,
        decreases parts@.len() - i,
    {
        assert(split(list, ',')[i as int] == parts@[i as int]@);
        if same(trim_text(parts[i].as_str()).as_str(), name) {
            return true;
        }
        i += 1;
    }
    assert(views(parts@).len() == parts@.len());
    false
}

/// The container that a demuxer's lowercase name stands for; such a name is often a family of names.
pub open spec fn container_named(f: Seq<char>) -> Option<Container> {
    if holds_name(f, "webm"@) && !holds_name(f, "matroska"@) {
        Some(Container::WebM)
    } else if holds_name(f, "matroska"@) {
        Some(Container::Matroska)
    } else if holds_name(f, "mp4"@) || holds_name(f, "mov"@) || holds_name(f, "m4a"@) {
        Some(Container::Mp4)
    } else if holds_name(f, "mpegts"@) {
        Some(Container::MpegTs)
    } else if holds_name(f, "mpeg"@) {
        Some(Container::MpegPs)
    } else if holds_name(f, "avi"@) {
        Some(Container::Avi)
    } else if holds_name(f, "asf"@) {
        Some(Container::Asf)
    } else if holds_name(f, "flv"@) {
        Some(Container::Flv)
    } else if holds_name(f, "ogg"@) {
        Some(Container::Ogg)
    } else {
        None
    }
}

/// The container that the player's name for a file's format stands for.
pub open spec fn container_of_format(format: Option<Seq<char>>) -> Option<Container> {
    match format {
        Some(f) => container_named(lower(f)),
        None => None,
    }
}

/// The container that the player's name for a file's format stands for.
pub fn container_from_mpv(format: Option<&str>) -> (r: Option<Container>)
    ensures
        r == container_of_format(opt_str_view(format)),
{
    let f = match format {
        Some(f) => lower_text(f),
        None => {
            return None;
        },
    };
    let parts = split_text(f.as_str(), ',');
    let ghost l = f@;
    if has_name(&parts, "webm", Ghost(l)) && !has_name(&parts, "matroska", Ghost(l)) {
        Some(Container::WebM)
    } else if has_name(&parts, "matroska", Ghost(l)) {
        Some(Container::Matroska)
    } else if has_name(&parts, "mp4", Ghost(l)) || has_name(&parts, "mov", Ghost(l)) || has_name(
        &parts,
        "m4a",
        Ghost(l),
    ) {
        Some(Container::Mp4)
    } else if has_name(&parts, "mpegts", Ghost(l)) {
        Some(Container::MpegTs)
    } else if has_name(&parts, "mpeg", Ghost(l)) {
        Some(Container::MpegPs)
    } else if has_name(&parts, "avi", Ghost(l)) {
        Some(Container::Avi)
    } else if has_name(&parts, "asf", Ghost(l)) {
        Some(Container::Asf)
    } else if has_name(&parts, "flv", Ghost(l)) {
        Some(Container::Flv)
    } else if has_name(&parts, "ogg", Ghost(l)) {
        Some(Container::Ogg)
    } else {
        None
    }
}

/// A text without a suffix, however often it ends with it.
pub open spec fn without(s: Seq<char>, suffix: Seq<char>) -> Seq<char>
    decreases s.len(),
{
    if suffix.len() > 0 && suffix.is_suffix_of(s) {
        without(s.take(s.len() - suffix.len()), suffix)
    } else {
        s
    }
}

fn without_text(s: &str, suffix: &str) -> (r: String)
    requires
        suffix@.len() == 2,
    ensures
        r@ == without(s@, suffix@),
{
    let mut t = owned(s);
    while ends_with(t.as_str(), suffix)
        invariant
            suffix@.len() == 2,
            without(t@, suffix@) == without(s@, suffix@),
        decreases t@.len(),
    {
        let chars = chars_of(t.as_str());
        let n: usize = chars.len();
        assert(n >= 2);
        let ghost was = t@;
        t = slice_text(&chars, 0, n - 2);
        assert(t@ =~= was.take(was.len() - 2));
    }
    t
}

/// The digits that a text ends with.
pub open spec fn trailing_digits(s: Seq<char>) -> Seq<char>
    decreases s.len(),
{
    if s.len() > 0 && is_digit(s.last()) {
        trailing_digits(s.drop_last()).push(s.last())
    } else {
        Seq::empty()
    }
}

proof fn trailing_digits_are(s: Seq<char>, from: int)
    requires
        0 <= from <= s.len(),
        forall|k: int| from <= k < s.len() ==> is_digit(s[k]),
        from == 0 || !is_digit(s[from - 1]),
    ensures
        trailing_digits(s) == s.skip(from),
    decreases s.len(),
{
    if from < s.len() {
        let t = s.drop_last();
        trailing_digits_are(t, from);
        assert(s.skip(from) =~= t.skip(from).push(s.last()));
    } else {
        assert(s.skip(from) =~= Seq::<char>::empty());
    }
}

/// How many bits a sample of a pixel format has: the number at its end, before the byte order.
pub open spec fn depth_of(pf: Option<Seq<char>>) -> u8 {
    match pf {
        None => 8,
        Some(pf) => match parse_uint(trailing_digits(without(without(pf, "le"@), "be"@)), 255) {
            Some(n) => if 8 <= n <= 16 {
                n as u8
            } else {
                8
            },
            None => 8,
        },
    }
}

/// How many bits a sample of a pixel format has; eight where it does not say.
pub fn bit_depth_from_pixel_format(pf: Option<&str>) -> (r: u8)
    ensures
        r == depth_of(opt_str_view(pf)),
        8 <= r <= 16,
{
    let pf = match pf {
        Some(pf) => pf,
        None => {
            return 8;
        },
    };
    proof {
        reveal_strlit("le");
        reveal_strlit("be");
    }
    let base = without_text(without_text(pf, "le").as_str(), "be");
    let chars = chars_of(base.as_str());
    let mut i: usize = chars.len();
    while i > 0 && '0' <= chars[i - 1] && chars[i - 1] <= '9'
        invariant
            i <= chars@.len(),
            forall|k: int| i <= k < chars@.len() ==> is_digit(chars@[k]),
        decreases i,
    {
        i -= 1;
    }
    let digits = slice_text(&chars, i, chars.len());
    proof {
        trailing_digits_are(chars@, i as int);
        assert(chars@.subrange(i as int, chars@.len() as int) =~= chars@.skip(i as int));
    }
    match parse_uint_text(digits.as_str(), 255) {
        Some(n) => if 8 <= n && n <= 16 {
            n as u8
        } else {
            8
        },
        None => 8,
    }
}

/// How densely colour is sampled.
#[derive(Debug, Clone, Copy, PartialEq, Eq, Structural)]
pub enum ChromaSubsampling {
    Yuv420,
    Yuv422,
    Yuv444,
}

impl Default for ChromaSubsampling {
    fn default() -> (r: Self)
        ensures
            r == ChromaSubsampling::Yuv420,
    {
        ChromaSubsampling::Yuv420
    }
}

/// How densely a pixel format samples colour. What is not reported claims nothing denser than usual.
pub open spec fn chroma_of(pf: Option<Seq<char>>) -> ChromaSubsampling {
    match pf {
        None => ChromaSubsampling::Yuv420,
        Some(pf) => if "yuv444"@.is_prefix_of(pf) || "yuva444"@.is_prefix_of(pf)
            || "gbr"@.is_prefix_of(pf) {
            ChromaSubsampling::Yuv444
        } else if "yuv422"@.is_prefix_of(pf) || "yuva422"@.is_prefix_of(pf) {
            ChromaSubsampling::Yuv422
        } else {
            ChromaSubsampling::Yuv420
        },
    }
}

/// How densely a pixel format samples colour.
pub fn chroma_from_pixel_format(pf: Option<&str>) -> (r: ChromaSubsampling)
    ensures
        r == chroma_of(opt_str_view(pf)),
{
    match pf {
        None => ChromaSubsampling::Yuv420,
        Some(pf) => if starts_with(pf, "yuv444") || starts_with(pf, "yuva444") || starts_with(
            pf,
            "gbr",
        ) {
            ChromaSubsampling::Yuv444
        } else if starts_with(pf, "yuv422") || starts_with(pf, "yuva422") {
            ChromaSubsampling::Yuv422
        } else {
            ChromaSubsampling::Yuv420
        },
    }
}

/// A transfer function.
#[derive(Debug, Clone, Copy, PartialEq, Eq, Structural)]
pub enum ColorTransfer {
    Pq,
    Hlg,
    Bt709,
    Srgb,
    Linear,
    Unspecified,
}

/// Colour primaries.
#[derive(Debug, Clone, Copy, PartialEq, Eq, Structural)]
#[allow(non_camel_case_types)]
pub enum ColorPrimaries {
    Bt709,
    Bt2020,
    Bt601_525,
    Bt601_625,
    DciP3,
    DisplayP3,
    Unspecified,
}

/// A colour matrix.
#[derive(Debug, Clone, Copy, PartialEq, Eq, Structural)]
pub enum ColorMatrix {
    Bt709,
    Bt601,
    Bt2020Ncl,
    Bt2020Cl,
    YCgCo,
    IcTcP,
    Unspecified,
}

/// A form of high dynamic range.
#[derive(Debug, Clone, Copy, PartialEq, Eq, Structural)]
pub enum HdrFormat {
    Sdr,
    Hdr10,
    Hlg,
}

/// What is known of a picture's colour.
#[derive(Debug, Clone, Copy, PartialEq, Eq, Structural)]
pub struct ColorInfo {
    pub primaries: ColorPrimaries,
    pub transfer: ColorTransfer,
    pub matrix: ColorMatrix,
    pub hdr: HdrFormat,
}

/// The transfer function of a name.
pub open spec fn transfer_named(n: Option<Seq<char>>) -> ColorTransfer {
    if n == Some("pq"@) {
        ColorTransfer::Pq
    } else if n == Some("hlg"@) {
        ColorTransfer::Hlg
    } else if n == Some("bt.1886"@) || n == Some("bt.709"@) {
        ColorTransfer::Bt709
    } else if n == Some("srgb"@) {
        ColorTransfer::Srgb
    } else if n == Some("linear"@) {
        ColorTransfer::Linear
    } else {
        ColorTransfer::Unspecified
    }
}

/// The primaries of a name.
pub open spec fn primaries_named(n: Option<Seq<char>>) -> ColorPrimaries {
    if n == Some("bt.709"@) {
        ColorPrimaries::Bt709
    } else if n == Some("bt.2020"@) {
        ColorPrimaries::Bt2020
    } else if n == Some("bt.601-525"@) {
        ColorPrimaries::Bt601_525
    } else if n == Some("bt.601-625"@) {
        ColorPrimaries::Bt601_625
    } else if n == Some("dci-p3"@) {
        ColorPrimaries::DciP3
    } else if n == Some("display-p3"@) {
        ColorPrimaries::DisplayP3
    } else {
        ColorPrimaries::Unspecified
    }
}

/// The matrix of a name.
pub open spec fn matrix_named(n: Option<Seq<char>>) -> ColorMatrix {
    if n == Some("bt.709"@) {
        ColorMatrix::Bt709
    } else if n == Some("bt.601"@) {
        ColorMatrix::Bt601
    } else if n == Some("bt.2020-ncl"@) {
        ColorMatrix::Bt2020Ncl
    } else if n == Some("bt.2020-cl"@) {
        ColorMatrix::Bt2020Cl
    } else if n == Some("ycgco"@) {
        ColorMatrix::YCgCo
    } else if n == Some("ictcp"@) {
        ColorMatrix::IcTcP
    } else {
        ColorMatrix::Unspecified
    }
}

/// What is known of a picture's colour. The transfer function decides whether it is HDR, not the
/// primaries.
pub open spec fn colors_of(r: FileResult) -> ColorInfo {
    let transfer = transfer_named(opt_view(r.gamma));
    ColorInfo {
        primaries: primaries_named(opt_view(r.primaries)),
        transfer,
        matrix: matrix_named(opt_view(r.colormatrix)),
        hdr: match transfer {
            ColorTransfer::Pq => HdrFormat::Hdr10,
            ColorTransfer::Hlg => HdrFormat::Hlg,
            _ => HdrFormat::Sdr,
        },
    }
}

/// What is known of a picture's colour.
pub fn color_info(r: &FileResult) -> (c: ColorInfo)
    ensures
        c == colors_of(*r),
{
    let g = &r.gamma;
    let transfer = if opt_is(g, "pq") {
        ColorTransfer::Pq
    } else if opt_is(g, "hlg") {
        ColorTransfer::Hlg
    } else if opt_is(g, "bt.1886") || opt_is(g, "bt.709") {
        ColorTransfer::Bt709
    } else if opt_is(g, "srgb") {
        ColorTransfer::Srgb
    } else if opt_is(g, "linear") {
        ColorTransfer::Linear
    } else {
        ColorTransfer::Unspecified
    };
    let p = &r.primaries;
    let primaries = if opt_is(p, "bt.709") {
        ColorPrimaries::Bt709
    } else if opt_is(p, "bt.2020") {
        ColorPrimaries::Bt2020
    } else if opt_is(p, "bt.601-525") {
        ColorPrimaries::Bt601_525
    } else if opt_is(p, "bt.601-625") {
        ColorPrimaries::Bt601_625
    } else if opt_is(p, "dci-p3") {
        ColorPrimaries::DciP3
    } else if opt_is(p, "display-p3") {
        ColorPrimaries::DisplayP3
    } else {
        ColorPrimaries::Unspecified
    };
    let m = &r.colormatrix;
    let matrix = if opt_is(m, "bt.709") {
        ColorMatrix::Bt709
    } else if opt_is(m, "bt.601") {
        ColorMatrix::Bt601
    } else if opt_is(m, "bt.2020-ncl") {
        ColorMatrix::Bt2020Ncl
    } else if opt_is(m, "bt.2020-cl") {
        ColorMatrix::Bt2020Cl
    } else if opt_is(m, "ycgco") {
        ColorMatrix::YCgCo
    } else if opt_is(m, "ictcp") {
        ColorMatrix::IcTcP
    } else {
        ColorMatrix::Unspecified
    };
    let hdr = match transfer {
        ColorTransfer::Pq => HdrFormat::Hdr10,
        ColorTransfer::Hlg => HdrFormat::Hlg,
        _ => HdrFormat::Sdr,
    };
    ColorInfo { primaries, transfer, matrix, hdr }
}

/// A picture is taken for HDR exactly when the session's own report says so.
pub proof fn reports_agree_on_hdr(r: FileResult)
    ensures
        (colors_of(r).hdr != HdrFormat::Sdr) == r.hdr(),
{
    reveal_strlit("pq");
    reveal_strlit("hlg");
    assert("pq"@.len() == 2 && "hlg"@.len() == 3);
}

/// Wide primaries alone do not make a picture HDR.
pub proof fn primaries_do_not_decide_hdr(r: FileResult, primaries: Option<String>)
    ensures
        colors_of(FileResult { primaries, ..r }).hdr == colors_of(r).hdr,
{
}

/// The whole number nearest to a magnitude, halves up.
pub open spec fn half_up(m: Measure) -> nat {
    match m {
        Measure::Finite { mantissa, exponent, .. } => if exponent >= 0 {
            mantissa as nat * pow2(exponent as nat)
        } else {
            let p = pow2((-exponent) as nat);
            (2 * mantissa as nat + p) / (2 * p)
        },
        _ => 0,
    }
}

/// 1001, the denominator of the rates that film and television use.
pub open spec fn ntsc() -> Measure {
    Measure::Finite { negative: false, mantissa: 1001, exponent: 0 }
}

/// A frame rate as a fraction over 1001; none for a rate that is no rate.
///
/// Such a fraction is what a rate like 24000/1001 is exactly, and a decimal never is.
pub open spec fn rate_of(fps: Measure) -> Option<Rational> {
    if !fps.positive() || fps.above(1000) {
        None
    } else {
        let num = half_up(fps.times(ntsc()));
        if 0 < num < u32::MAX {
            Some(Rational { num: num as u32, den: 1001 })
        } else {
            None
        }
    }
}

/// The whole number nearest to a magnitude, halves up; `None` when it is 2^64 or more.
fn round_half_up(m: Measure) -> (r: Option<u64>)
    ensures
        match r {
            Some(n) => n == half_up(m),
            None => half_up(m) > u64::MAX,
        },
{
    match m {
        Measure::Finite { mantissa, exponent, .. } => {
            if exponent >= 0 {
                crate::measure::exact_whole(mantissa, exponent)
            } else {
                let k: i64 = -(exponent as i64);
                proof {
                    lemma2_to64();
                    lemma2_to64_rest();
                    lemma_pow2_pos(k as nat);
                }
                if k > 65 {
                    proof {
                        vstd::arithmetic::power2::lemma_pow2_strictly_increases(65, k as nat);
                        vstd::arithmetic::power2::lemma_pow2_unfold(65);
                        let p = pow2(k as nat) as int;
                        assert((2 * mantissa as int + p) / (2 * p) == 0) by (nonlinear_arith)
                            requires
                                0 <= 2 * mantissa < p,
                        ;
                    }
                    return Some(0);
                }
                let mut p: u128 = 1;
                let mut i: i64 = 0;
                while i < k
                    invariant
                        0 <= i <= k <= 65,
                        p == pow2(i as nat),
                        p <= 0x2_0000_0000_0000_0000,
                    decreases k - i,
                {
                    proof {
                        vstd::arithmetic::power2::lemma_pow2_unfold((i + 1) as nat);
                        vstd::arithmetic::power2::lemma_pow2_unfold(65);
                        lemma2_to64();
                        lemma2_to64_rest();
                        if i + 1 < 65 {
                            vstd::arithmetic::power2::lemma_pow2_strictly_increases(
                                (i + 1) as nat,
                                65,
                            );
                        }
                    }
                    p = p * 2;
                    i += 1;
                }
                let n: u128 = (2 * mantissa as u128 + p) / (2 * p);
                proof {
                    let q = p as int;
                    assert(0 <= (2 * mantissa as int + q) / (2 * q) <= mantissa + 1)
                        by (nonlinear_arith)
                        requires
                            q >= 1,
                            mantissa >= 0,
                    ;
                    vstd::arithmetic::power2::lemma_pow2_unfold(k as nat);
                    lemma_pow2_pos((k - 1) as nat);
                    assert((2 * mantissa as int + q) / (2 * q) <= mantissa) by (nonlinear_arith)
                        requires
                            q >= 2,
                            mantissa >= 0,
                    ;
                }
                Some(n as u64)
            }
        },
        _ => Some(0),
    }
}

/// A frame rate as a fraction over 1001; `None` for a rate that is no rate.
pub fn rational_fps(fps: Measure) -> (r: Option<Rational>)
    ensures
        r == rate_of(fps),
{
    if !fps.is_positive() || fps.exceeds(1000) {
        return None;
    }
    let x = fps.product(Measure::Finite { negative: false, mantissa: 1001, exponent: 0 });
    match round_half_up(x) {
        Some(n) => if 0 < n && n < u32::MAX as u64 {
            Some(Rational { num: n as u32, den: 1001 })
        } else {
            None
        },
        None => None,
    }
}

/// The nearest value to a rate over 1001, as a count of its steps.
proof fn rate_in_steps(n: nat) -> (r: (nat, nat))
    requires
        1 <= n <= 1001000,
    ensures
        43 <= r.1 <= 62,
        0 < r.0 < 0x20_0000_0000_0000,
        nearest(n, 1001) == (Measure::Finite {
            negative: false,
            mantissa: r.0 as u64,
            exponent: (-(r.1 as int)) as i32,
        }),
        2 * (r.0 * 1001) <= 2 * (n * pow2(r.1)) + 1001,
        2 * (n * pow2(r.1)) <= 2 * (r.0 * 1001) + 1001,
{
    lemma2_to64();
    lemma2_to64_rest();
    let l = magnitude(n, 1001);
    magnitude_bounds(n, 1001);
    if l > 10 {
        up_grows(11, l);
        assert(1001 * up(l) >= 1001 * 2048);
        assert(down(l) == 1);
        assert(2 * n * 1 == 2 * n);
        assert(false);
    }
    if l < -9 {
        up_grows(10, -l);
        let d = down(l) as int;
        assert(n * d >= 1024) by (nonlinear_arith)
            requires
                n >= 1,
                d >= 1024,
        ;
        assert(1001 * up(l) == 1001);
        assert(false);
    }
    let k = (53 - l) as nat;
    assert(step(n, 1001) == -(k as int));
    let p = pow2(k);
    assert(down(-(k as int)) == p && up(-(k as int)) == 1);
    let m = half_even(n * p, 1001);
    assert(1001 * 1 == 1001);
    half_even_is_near(n * p, 1001);
    // The numerator is a multiple of 2^43, and so is 1001 * 2^53, which it is below.
    vstd::arithmetic::power2::lemma_pow2_adds(43, (k - 43) as nat);
    let h = pow2(43) as int;
    let q = pow2((k - 43) as nat) as int;
    assert(n * p < 1001 * 0x20_0000_0000_0000) by {
        if l >= 0 {
            up_adds(l, k as int);
            let ul = up(l) as int;
            assert(down(l) == 1);
            assert(n * 1 == n);
            assert(n < 1001 * ul);
            assert(ul * p == 0x20_0000_0000_0000);
            assert(n * p < (1001 * ul) * p) by (nonlinear_arith)
                requires
                    n < 1001 * ul,
                    p > 0,
            ;
            assert((1001 * ul) * p == 1001 * (ul * p)) by (nonlinear_arith);
        } else {
            up_adds(53, -l);
            let dl = down(l) as int;
            assert(p == 0x20_0000_0000_0000 * dl);
            assert(n * dl < 1001);
            assert(n * (0x20_0000_0000_0000 * dl) == 0x20_0000_0000_0000 * (n * dl))
                by (nonlinear_arith);
        }
    }
    assert(n * p <= 1001 * 0x20_0000_0000_0000 - h) by (nonlinear_arith)
        requires
            n * p < 1001 * 0x20_0000_0000_0000,
            p == h * q,
            h == 0x800_0000_0000,
    {
        assert(n * (h * q) == h * (n * q)) by (nonlinear_arith);
        assert(1001 * 0x20_0000_0000_0000 == h * (1001 * 1024));
        assert(h * (n * q) < h * (1001 * 1024));
        assert(n * q < 1001 * 1024);
        assert(h * (n * q) <= h * (1001 * 1024 - 1));
    }
    assert(p >= h) by {
        if k > 43 {
            vstd::arithmetic::power2::lemma_pow2_strictly_increases(43, k);
        }
    }
    assert(n * p >= p) by (nonlinear_arith)
        requires
            n >= 1,
    ;
    (m, k)
}

/// A rate over 1001, as far as rates go, survives being told as the nearest binary64 value: it is
/// recovered exactly, not approximated.
pub proof fn rates_over_1001_are_recovered(n: nat)
    requires
        1 <= n <= 1001000,
    ensures
        rate_of(nearest(n, 1001)) == Some(Rational { num: n as u32, den: 1001 }),
{
    lemma2_to64();
    lemma2_to64_rest();
    let (m, k) = rate_in_steps(n);
    let p = pow2(k);
    if k > 43 {
        vstd::arithmetic::power2::lemma_pow2_strictly_increases(43, k);
    }
    let fps = nearest(n, 1001);
    let np = n * p;
    assert(p <= np <= 1001000 * p) by (nonlinear_arith)
        requires
            np == n * p,
            1 <= n <= 1001000,
    ;
    if n < 1001000 {
        assert(np <= 1000999 * p) by (nonlinear_arith)
            requires
                np == n * p,
                n <= 1000999,
        ;
    }
    assert(m <= 1000 * p);
    assert(!fps.above(1000));
    assert(fps.positive());
    // The product, as a ratio.
    let num = m * 1001;
    assert(nearest_scaled(m as u64 as nat * 1001u64 as nat, 1, -(k as int)) == nearest(num, p)) by {
        assert(up(-(k as int)) == 1 && down(-(k as int)) == p);
        assert(num * 1 == num);
        assert(1 * p == p);
    }
    let x = fps.times(ntsc());
    assert(x == nearest(num, p).signed(false));
    let l = magnitude(num, p);
    magnitude_bounds(num, p);
    // Between one half and 2^20.
    assert(2 * num >= p && num < 0x100000 * p);
    if l > 20 {
        up_grows(21, l);
        let ul = up(l) as int;
        assert(p * ul >= p * 0x200000) by (nonlinear_arith)
            requires
                ul >= 0x200000,
                p > 0,
        ;
        assert(down(l) == 1);
        assert(2 * num * 1 == 2 * num);
        assert(false);
    }
    if l < 0 {
        up_grows(1, -l);
        let dl = down(l) as int;
        assert(num * dl >= num * 2) by (nonlinear_arith)
            requires
                dl >= 2,
        ;
        assert(p * up(l) == p);
        assert(false);
    }
    let j = (53 - l) as nat;
    let u = -(j as int);
    assert(step(num, p) == u);
    let w = pow2(j);
    vstd::arithmetic::power2::lemma_pow2_strictly_increases(32, j);
    assert(down(u) == w && up(u) == 1);
    assert(p * 1 == p);
    let s = half_even(num * w, p);
    half_even_is_near(num * w, p);
    // 2 |s - n w| is less than w.
    let close = 2 * (s as int) < 2 * (n * w) + w && 2 * (n * w) < 2 * (s as int) + w;
    assert(close) by {
        let sw = s as int;
        let ww = w as int;
        let pp = p as int;
        let nn = n as int;
        let nu = num as int;
        assert(2 * (sw * pp) <= 2 * (nu * ww) + pp);
        assert(2 * (nu * ww) <= 2 * (sw * pp) + pp);
        assert(2 * (nu * ww) <= 2 * ((nn * pp) * ww) + 1001 * ww) by (nonlinear_arith)
            requires
                2 * nu <= 2 * (nn * pp) + 1001,
                ww > 0,
        ;
        assert(2 * ((nn * pp) * ww) <= 2 * (nu * ww) + 1001 * ww) by (nonlinear_arith)
            requires
                2 * (nn * pp) <= 2 * nu + 1001,
                ww > 0,
        ;
        assert((nn * pp) * ww == (nn * ww) * pp) by (nonlinear_arith);
        // pp + 1001 ww < pp ww.
        assert(pp + 1001 * ww < pp * ww) by (nonlinear_arith)
            requires
                pp >= 0x800_0000_0000,
                ww >= 0x1_0000_0000,
        ;
        let t = nn * ww;
        assert(2 * (sw * pp) < 2 * (t * pp) + pp * ww);
        assert(2 * (t * pp) < 2 * (sw * pp) + pp * ww);
        assert(2 * sw < 2 * t + ww) by (nonlinear_arith)
            requires
                2 * (sw * pp) < 2 * (t * pp) + pp * ww,
                pp > 0,
        ;
        assert(2 * t < 2 * sw + ww) by (nonlinear_arith)
            requires
                2 * (t * pp) < 2 * (sw * pp) + pp * ww,
                pp > 0,
        ;
    }
    assert((2 * s + w) / (2 * w) == n) by {
        let rest = 2 * s + w - n * (2 * w);
        assert(n * (2 * w) == 2 * (n * w)) by (nonlinear_arith);
        vstd::arithmetic::div_mod::lemma_fundamental_div_mod_converse(
            (2 * s + w) as int,
            (2 * w) as int,
            n as int,
            rest as int,
        );
    }
    if s == 0x20_0000_0000_0000 {
        vstd::arithmetic::power2::lemma_pow2_unfold(j);
        let v = pow2((j - 1) as nat);
        assert(w == 2 * v);
        assert((s + v) / w == n) by {
            let rest = s + v - n * w;
            vstd::arithmetic::div_mod::lemma_fundamental_div_mod_converse(
                (s + v) as int,
                w as int,
                n as int,
                rest as int,
            );
        }
        assert(x == (Measure::Finite {
            negative: false,
            mantissa: 0x10_0000_0000_0000,
            exponent: (u + 1) as i32,
        }));
        assert(half_up(x) == n);
    } else {
        assert(s < 0x20_0000_0000_0000 + 1) by {
            assert(s <= 1001001 * w) by (nonlinear_arith)
                requires
                    2 * s < 2 * (n * w) + w,
                    n <= 1001000,
            ;
            steps_are_few(num, p, l, w, s);
        }
        assert(x == (Measure::Finite { negative: false, mantissa: s as u64, exponent: u as i32 }));
        assert(half_up(x) == n);
    }
}

/// A count of steps is at most 2^53.
proof fn steps_are_few(num: nat, den: nat, l: int, w: nat, s: nat)
    requires
        den > 0,
        0 <= l <= 20,
        w == pow2((53 - l) as nat),
        num * down(l) < den * up(l),
        s == half_even(num * w, den),
    ensures
        s <= 0x20_0000_0000_0000,
{
    lemma2_to64();
    lemma2_to64_rest();
    up_adds(l, 53 - l);
    let ul = up(l) as int;
    assert(ul * w == 0x20_0000_0000_0000);
    assert(num * 1 == num);
    lemma_pow2_pos((53 - l) as nat);
    let du = den * ul;
    assert(num * w < du * w) by (nonlinear_arith)
        requires
            num < du,
            w > 0,
    ;
    assert((den * ul) * w == den * (ul * w)) by (nonlinear_arith);
    half_even_is_near(num * w, den);
    assert(s <= 0x20_0000_0000_0000) by (nonlinear_arith)
        requires
            2 * (s * den) <= 2 * (num * w) + den,
            num * w < den * 0x20_0000_0000_0000,
            den > 0,
    ;
}

/// What is marked about a track.
#[derive(Debug, Clone, Copy, PartialEq, Eq, Structural)]
pub struct StreamFlags {
    pub default: bool,
    pub forced: bool,
    pub enabled_default_true: bool,
    pub hearing_impaired: bool,
    pub visual_impaired: bool,
    pub original: bool,
    pub commentary: bool,
}

/// What is marked about a track. A commentary is known by its title alone.
pub open spec fn marks_of(t: TrackInfo) -> StreamFlags {
    StreamFlags {
        default: t.default,
        forced: t.forced,
        enabled_default_true: true,
        hearing_impaired: t.hearing_impaired,
        visual_impaired: t.visual_impaired,
        original: false,
        commentary: match t.title {
            Some(s) => occurs(lower(s@), "commentary"@),
            None => false,
        },
    }
}

fn flags_of(t: &TrackInfo) -> (r: StreamFlags)
    ensures
        r == marks_of(*t),
{
    let commentary = match &t.title {
        Some(s) => contains_text(lower_text(s.as_str()).as_str(), "commentary"),
        None => false,
    };
    StreamFlags {
        default: t.default,
        forced: t.forced,
        enabled_default_true: true,
        hearing_impaired: t.hearing_impaired,
        visual_impaired: t.visual_impaired,
        original: false,
        commentary,
    }
}

/// The tracks that a session played, by number.
#[derive(Debug, Clone, Copy, PartialEq, Eq, Structural)]
pub struct Selection {
    pub video: Option<u32>,
    pub audio: Option<u32>,
    pub subtitle: Option<u32>,
}

/// The place from `i` on of the first track of a kind that was selected; the end where none was.
pub open spec fn selected_at(tracks: Seq<TrackInfo>, kind: Seq<char>, i: int) -> int
    decreases tracks.len() - i,
{
    if i < 0 || i >= tracks.len() || (tracks[i].kind@ == kind && tracks[i].selected) {
        i
    } else {
        selected_at(tracks, kind, i + 1)
    }
}

/// The number of the first track of a kind that was selected.
pub open spec fn selected(tracks: Seq<TrackInfo>, kind: Seq<char>) -> Option<u32> {
    let at = selected_at(tracks, kind, 0);
    if at < tracks.len() {
        Some(tracks[at].id)
    } else {
        None
    }
}

/// The tracks that the player chose; none where it marked none at all.
pub open spec fn chosen(tracks: Seq<TrackInfo>) -> Option<Selection> {
    let s = Selection {
        video: selected(tracks, "video"@),
        audio: selected(tracks, "audio"@),
        subtitle: selected(tracks, "sub"@),
    };
    if s.video is Some || s.audio is Some || s.subtitle is Some {
        Some(s)
    } else {
        None
    }
}

/// The place of the first track of a kind that was selected.
pub(crate) fn find_selected(tracks: &Vec<TrackInfo>, kind: &str) -> (r: usize)
    ensures
        r == selected_at(tracks@, kind@, 0),
        r <= tracks@.len(),
{
    let mut i: usize = 0;
    while i < tracks.len()
        invariant
            i <= tracks@.len(),
            selected_at(tracks@, kind@, 0) == selected_at(tracks@, kind@, i as int),
        decreases tracks@.len() - i,
    {
        if same(tracks[i].kind.as_str(), kind) && tracks[i].selected {
            return i;
        }
        i += 1;
    }
    i
}

fn pick(tracks: &Vec<TrackInfo>, kind: &str) -> (r: Option<u32>)
    ensures
        r == selected(tracks@, kind@),
{
    let at: usize = find_selected(tracks, kind);
    if at < tracks.len() {
        Some(tracks[at].id)
    } else {
        None
    }
}

/// The tracks that the player chose. Where it marked nothing, guessing is better than reporting.
pub fn mpv_selection(tracks: &Vec<TrackInfo>) -> (r: Option<Selection>)
    ensures
        r == chosen(tracks@),
{
    let s = Selection {
        video: pick(tracks, "video"),
        audio: pick(tracks, "audio"),
        subtitle: pick(tracks, "sub"),
    };
    if s.video.is_some() || s.audio.is_some() || s.subtitle.is_some() {
        Some(s)
    } else {
        None
    }
}

/// The tracks to plan with: those that the player chose, since the file was really played. Only
/// where it marked none does the automatic choice stand in.
pub fn selection(tracks: &Vec<TrackInfo>, automatic: Selection) -> (r: Selection)
    ensures
        r == (match chosen(tracks@) {
            Some(s) => s,
            None => automatic,
        }),
{
    match mpv_selection(tracks) {
        Some(s) => s,
        None => automatic,
    }
}

/// A picture track, as far as the player describes it.
#[derive(Debug, Clone, PartialEq)]
pub struct VideoStream {
    pub index: u32,
    pub codec: VideoCodec,
    pub profile: Option<String>,
    pub width: u32,
    pub height: u32,
    pub frame_rate: Option<Rational>,
    pub bit_depth: u8,
    pub color: ColorInfo,
    pub bitrate_bps: Option<u64>,
    pub flags: StreamFlags,
    pub chroma: ChromaSubsampling,
}

/// A sound track, as far as the player describes it.
#[derive(Debug, Clone, PartialEq)]
pub struct AudioStream {
    pub index: u32,
    pub codec: AudioCodec,
    pub channels: u32,
    pub sample_rate: u32,
    pub bitrate_bps: Option<u64>,
    pub language: String,
    pub title: Option<String>,
    pub flags: StreamFlags,
    /// Never claimed: it takes the bitstream to know.
    pub has_objects: bool,
}

/// A subtitle track, as far as the player describes it.
#[derive(Debug, Clone, PartialEq)]
pub struct SubtitleStream {
    pub index: u32,
    pub codec: SubtitleCodec,
    pub language: String,
    pub title: Option<String>,
    pub flags: StreamFlags,
    pub external: bool,
}

/// A file on this machine and its streams.
#[derive(Debug, Clone)]
pub struct MediaSource {
    pub container: Container,
    pub duration_ns: Option<i64>,
    pub bitrate_bps: Option<u64>,
    pub video: Vec<VideoStream>,
    pub audio: Vec<AudioStream>,
    pub subtitles: Vec<SubtitleStream>,
}

/// The tracks of a kind, in order.
pub open spec fn of_kind(tracks: Seq<TrackInfo>, kind: Seq<char>) -> Seq<TrackInfo>
    decreases tracks.len(),
{
    if tracks.len() == 0 {
        Seq::empty()
    } else {
        let rest = of_kind(tracks.drop_last(), kind);
        if tracks.last().kind@ == kind {
            rest.push(tracks.last())
        } else {
            rest
        }
    }
}

/// One value where it is there, else the other, else zero.
pub open spec fn either(a: Option<u32>, b: Option<u32>) -> u32 {
    match a {
        Some(n) => n,
        None => match b {
            Some(n) => n,
            None => 0,
        },
    }
}

/// The frame rate of a track: its own, or that of the file.
pub open spec fn track_rate(t: TrackInfo, r: FileResult) -> Option<Rational> {
    let fps = match t.fps {
        Some(f) => Some(f),
        None => r.fps,
    };
    match fps {
        Some(f) => rate_of(f),
        None => None,
    }
}

/// Whether a stream is what a picture track of a result describes.
pub open spec fn is_video(s: VideoStream, t: TrackInfo, r: FileResult) -> bool {
    &&& s.index == t.id
    &&& is_video_codec(s.codec, opt_view(t.codec))
    &&& opt_view(s.profile) == opt_view(t.codec_profile)
    &&& s.width == either(t.width, r.width)
    &&& s.height == either(t.height, r.height)
    &&& s.frame_rate == track_rate(t, r)
    &&& s.bit_depth == depth_of(opt_view(r.pixel_format))
    &&& s.color == colors_of(r)
    &&& s.bitrate_bps == t.bitrate_bps
    &&& s.flags == marks_of(t)
    &&& s.chroma == chroma_of(opt_view(r.pixel_format))
}

/// A text, or nothing at all.
pub open spec fn or_empty(s: Option<Seq<char>>) -> Seq<char> {
    match s {
        Some(t) => t,
        None => Seq::empty(),
    }
}

/// Whether a stream is what a sound track describes.
pub open spec fn is_audio(s: AudioStream, t: TrackInfo) -> bool {
    &&& s.index == t.id
    &&& is_audio_codec(s.codec, opt_view(t.codec), opt_view(t.codec_profile))
    &&& s.channels == match t.channels {
        Some(n) => n,
        None => 2,
    }
    &&& s.sample_rate == match t.sample_rate {
        Some(n) => n,
        None => 48000,
    }
    &&& s.bitrate_bps == t.bitrate_bps
    &&& s.language@ == or_empty(opt_view(t.lang))
    &&& opt_view(s.title) == opt_view(t.title)
    &&& s.flags == marks_of(t)
    &&& !s.has_objects
}

/// Whether a stream is what a subtitle track describes.
pub open spec fn is_subtitle(s: SubtitleStream, t: TrackInfo) -> bool {
    &&& s.index == t.id
    &&& is_subtitle_codec(s.codec, opt_view(t.codec))
    &&& s.language@ == or_empty(opt_view(t.lang))
    &&& opt_view(s.title) == opt_view(t.title)
    &&& s.flags == marks_of(t)
    &&& s.external == t.external
}

/// A thousand million.
pub open spec fn giga() -> Measure {
    Measure::Finite { negative: false, mantissa: 1000000000, exponent: 0 }
}

/// A duration in seconds as whole nanoseconds, where it is above zero.
pub open spec fn nanoseconds(d: Option<Measure>) -> Option<i64> {
    match d {
        Some(d) => if d.above(0) {
            Some(d.times(giga()).truncated())
        } else {
            None
        },
        None => None,
    }
}

/// Eight.
pub open spec fn eight() -> Measure {
    Measure::Finite { negative: false, mantissa: 8, exponent: 0 }
}

/// One half.
pub open spec fn one_half() -> Measure {
    Measure::Finite { negative: false, mantissa: 1, exponent: -1i32 }
}

/// The bits per second of a file, from its size and duration, where it lasts more than half a
/// second and comes to any.
pub open spec fn overall_rate(size: u64, d: Option<Measure>) -> Option<u64> {
    match d {
        Some(d) => if d.greater(one_half()) {
            let rate = nearest(size as nat, 1).times(eight()).over(d).whole_part();
            if rate > 0 {
                Some(rate)
            } else {
                None
            }
        } else {
            None
        },
        None => None,
    }
}

/// The container of a file: what its bytes say, or else what the player says.
pub open spec fn source_container(r: FileResult, f: ScannedFile) -> Option<Container> {
    match f.container {
        Some(c) => Some(c),
        None => container_of_format(opt_view(r.file_format)),
    }
}

/// Whether there are streams to describe in a container that is known.
pub open spec fn describable(r: FileResult, f: ScannedFile) -> bool {
    &&& source_container(r, f) is Some
    &&& of_kind(r.tracks@, "video"@).len() > 0 || of_kind(r.tracks@, "audio"@).len() > 0
}

/// Whether a source is what a result and a scanned file describe.
pub open spec fn is_source(s: MediaSource, r: FileResult, f: ScannedFile) -> bool {
    let video = of_kind(r.tracks@, "video"@);
    let audio = of_kind(r.tracks@, "audio"@);
    let subs = of_kind(r.tracks@, "sub"@);
    &&& source_container(r, f) == Some(s.container)
    &&& s.duration_ns == nanoseconds(r.duration)
    &&& s.bitrate_bps == overall_rate(f.size, r.duration)
    &&& s.video@.len() == video.len()
    &&& forall|i: int| 0 <= i < video.len() ==> is_video(#[trigger] s.video@[i], video[i], r)
    &&& s.audio@.len() == audio.len()
    &&& forall|i: int| 0 <= i < audio.len() ==> is_audio(#[trigger] s.audio@[i], audio[i])
    &&& s.subtitles@.len() == subs.len()
    &&& forall|i: int| 0 <= i < subs.len() ==> is_subtitle(#[trigger] s.subtitles@[i], subs[i])
}

fn copied(s: &Option<String>) -> (r: Option<String>)
    ensures
        opt_view(r) == opt_view(*s),
{
    match s {
        Some(t) => Some(t.clone()),
        None => None,
    }
}

fn text_or_empty(s: &Option<String>) -> (r: String)
    ensures
        r@ == or_empty(opt_view(*s)),
{
    match s {
        Some(t) => t.clone(),
        None => String::new(),
    }
}

fn first_of(a: Option<u32>, b: Option<u32>) -> (r: u32)
    ensures
        r == either(a, b),
{
    match a {
        Some(n) => n,
        None => match b {
            Some(n) => n,
            None => 0,
        },
    }
}

fn video_stream(t: &TrackInfo, r: &FileResult) -> (s: VideoStream)
    ensures
        is_video(s, *t, *r),
{
    let fps = match t.fps {
        Some(f) => Some(f),
        None => r.fps,
    };
    VideoStream {
        index: t.id,
        codec: video_codec(opt_borrow(&t.codec)),
        profile: copied(&t.codec_profile),
        width: first_of(t.width, r.width),
        height: first_of(t.height, r.height),
        frame_rate: match fps {
            Some(f) => rational_fps(f),
            None => None,
        },
        bit_depth: bit_depth_from_pixel_format(opt_borrow(&r.pixel_format)),
        color: color_info(r),
        bitrate_bps: t.bitrate_bps,
        flags: flags_of(t),
        chroma: chroma_from_pixel_format(opt_borrow(&r.pixel_format)),
    }
}

fn audio_stream(t: &TrackInfo) -> (s: AudioStream)
    ensures
        is_audio(s, *t),
{
    AudioStream {
        index: t.id,
        codec: audio_codec(opt_borrow(&t.codec), opt_borrow(&t.codec_profile)),
        channels: match t.channels {
            Some(n) => n,
            None => 2,
        },
        sample_rate: match t.sample_rate {
            Some(n) => n,
            None => 48000,
        },
        bitrate_bps: t.bitrate_bps,
        language: text_or_empty(&t.lang),
        title: copied(&t.title),
        flags: flags_of(t),
        has_objects: false,
    }
}

fn subtitle_stream(t: &TrackInfo) -> (s: SubtitleStream)
    ensures
        is_subtitle(s, *t),
{
    SubtitleStream {
        index: t.id,
        codec: subtitle_codec(opt_borrow(&t.codec)),
        language: text_or_empty(&t.lang),
        title: copied(&t.title),
        flags: flags_of(t),
        external: t.external,
    }
}

fn duration_in_ns(d: Option<Measure>) -> (r: Option<i64>)
    ensures
        r == nanoseconds(d),
{
    match d {
        Some(d) => if d.exceeds(0) {
            Some(
                d.product(
                    Measure::Finite { negative: false, mantissa: 1000000000, exponent: 0 },
                ).to_i64(),
            )
        } else {
            None
        },
        None => None,
    }
}

fn rate_overall(size: u64, d: Option<Measure>) -> (r: Option<u64>)
    ensures
        r == overall_rate(size, d),
{
    match d {
        Some(d) => if d.is_above(Measure::Finite { negative: false, mantissa: 1, exponent: -1 }) {
            let bits = Measure::of_whole(size).product(
                Measure::Finite { negative: false, mantissa: 8, exponent: 0 },
            );
            let rate: u64 = bits.quotient(d).whole();
            if rate > 0 {
                Some(rate)
            } else {
                None
            }
        } else {
            None
        },
        None => None,
    }
}

/// The streams of a file, from what the player reported; `None` where no container is known or
/// there is neither picture nor sound.
pub fn media_source(r: &FileResult, scanned: &ScannedFile) -> (s: Option<MediaSource>)
    ensures
        match s {
            Some(s) => describable(*r, *scanned) && is_source(s, *r, *scanned),
            None => !describable(*r, *scanned),
        },
{
    let container = match scanned.container {
        Some(c) => c,
        None => match container_from_mpv(opt_borrow(&r.file_format)) {
            Some(c) => c,
            None => {
                return None;
            },
        },
    };
    let ghost all = r.tracks@;
    let mut video: Vec<VideoStream> = Vec::new();
    let mut audio: Vec<AudioStream> = Vec::new();
    let mut subtitles: Vec<SubtitleStream> = Vec::new();
    proof {
        reveal_strlit("video");
        reveal_strlit("audio");
        reveal_strlit("sub");
        assert("video"@[0] == 'v' && "audio"@[0] == 'a' && "sub"@[0] == 's');
        assert(all.take(0) =~= Seq::<TrackInfo>::empty());
    }
    let mut i: usize = 0;
    while i < r.tracks.len()
        invariant
            i <= r.tracks@.len(),
            all == r.tracks@,
            "video"@ != "audio"@,
            "video"@ != "sub"@,
            "audio"@ != "sub"@,
            video@.len() == of_kind(all.take(i as int), "video"@).len(),
            forall|k: int|
                0 <= k < video@.len() ==> is_video(
                    #[trigger] video@[k],
                    of_kind(all.take(i as int), "video"@)[k],
                    *r,
                ),
            audio@.len() == of_kind(all.take(i as int), "audio"@).len(),
            forall|k: int|
                0 <= k < audio@.len() ==> is_audio(
                    #[trigger] audio@[k],
                    of_kind(all.take(i as int), "audio"@)[k],
                ),
            subtitles@.len() == of_kind(all.take(i as int), "sub"@).len(),
            forall|k: int|
                0 <= k < subtitles@.len() ==> is_subtitle(
                    #[trigger] subtitles@[k],
                    of_kind(all.take(i as int), "sub"@)[k],
                ),
        decreases r.tracks@.len() - i,
    {
        let t = &r.tracks[i];
        proof {
            assert(all.take(i as int + 1).drop_last() =~= all.take(i as int));
            assert(all.take(i as int + 1).last() == *t);
        }
        if same(t.kind.as_str(), "video") {
            video.push(video_stream(t, r));
        } else if same(t.kind.as_str(), "audio") {
            audio.push(audio_stream(t));
        } else if same(t.kind.as_str(), "sub") {
            subtitles.push(subtitle_stream(t));
        }
        i += 1;
    }
    assert(all.take(i as int) =~= all);
    if video.len() == 0 && audio.len() == 0 {
        return None;
    }
    Some(
        MediaSource {
            container,
            duration_ns: duration_in_ns(r.duration),
            bitrate_bps: rate_overall(scanned.size, r.duration),
            video,
            audio,
            subtitles,
        },
    )
}

/// How well a file plays, from the best on.
#[derive(Debug, Clone, Copy, PartialEq, Eq, PartialOrd, Ord, Structural)]
pub enum Tier {
    T0BitExact,
    T1,
    T2Preserved,
    T3,
    T4,
    T5,
}

/// What a decision about playing a file came to.
#[derive(Debug, Clone)]
pub struct Planned {
    pub tier: Tier,
    /// Nothing is encoded again.
    pub is_direct: bool,
    /// It cannot be played at all.
    pub is_blocked: bool,
    /// Every better outcome that was ruled out, and why.
    pub reasons: Vec<String>,
}

/// What one capability profile would make of a file.
#[derive(Debug, Clone)]
pub struct ProfileOutcome {
    pub profile: String,
    pub tier: Tier,
    /// Nothing is encoded again.
    pub direct: bool,
    pub reasons: Vec<String>,
}

/// What the modelled profiles would make of a file.
#[derive(Debug, Clone)]
pub struct Fidelity {
    pub native: ProfileOutcome,
    pub browser: ProfileOutcome,
}

impl Fidelity {
    /// Whether the native profile plays the file as it is and the browser cannot.
    pub fn native_only(&self) -> (r: bool)
        ensures
            r == (self.native.direct && !self.browser.direct),
    {
        self.native.direct && !self.browser.direct
    }
}

/// Whether an outcome is what a decision came to under a profile.
pub open spec fn is_outcome(o: ProfileOutcome, profile: Seq<char>, p: Planned) -> bool {
    &&& o.profile@ == profile
    &&& o.tier == p.tier
    &&& o.direct == (p.is_direct && !p.is_blocked)
    &&& o.reasons == p.reasons
}

fn evaluate(profile: &str, p: Planned) -> (r: ProfileOutcome)
    ensures
        is_outcome(r, profile@, p),
{
    ProfileOutcome {
        profile: owned(profile),
        tier: p.tier,
        direct: p.is_direct && !p.is_blocked,
        reasons: p.reasons,
    }
}

/// Whether a file can be assessed: it played, and has streams to describe.
pub open spec fn assessable(r: FileResult, f: ScannedFile) -> bool {
    r.outcome is Played && describable(r, f)
}

/// What the modelled profiles would make of a file, from what was decided for each. `None` for a
/// file that did not play or has no stream to describe: a tier for it would be fiction.
pub fn assess(r: &FileResult, scanned: &ScannedFile, native: Planned, browser: Planned) -> (out: Option<
    Fidelity,
>)
    ensures
        match out {
            Some(f) => assessable(*r, *scanned) && is_outcome(f.native, "native"@, native)
                && is_outcome(f.browser, "browser"@, browser),
            None => !assessable(*r, *scanned),
        },
{
    if !r.outcome.is_played() {
        return None;
    }
    match media_source(r, scanned) {
        Some(_) => Some(
            Fidelity { native: evaluate("native", native), browser: evaluate("browser", browser) },
        ),
        None => None,
    }
}

pub proof fn selected_is_first(tracks: Seq<TrackInfo>, kind: Seq<char>, i: int)
    requires
        0 <= i <= tracks.len(),
    ensures
        i <= selected_at(tracks, kind, i) <= tracks.len(),
        selected_at(tracks, kind, i) < tracks.len() ==> tracks[selected_at(
            tracks,
            kind,
            i,
        )].kind@ == kind && tracks[selected_at(tracks, kind, i)].selected,
        forall|k: int|
            i <= k < selected_at(tracks, kind, i) ==> !((#[trigger] tracks[k]).kind@ == kind
                && tracks[k].selected),
    decreases tracks.len() - i,
{
    if i < tracks.len() && !(tracks[i].kind@ == kind && tracks[i].selected) {
        selected_is_first(tracks, kind, i + 1);
    }
}

/// Whether a number is that of the first selected track of a kind; none where no track of the kind is
/// selected.
pub open spec fn is_first_selected(
    n: Option<u32>,
    tracks: Seq<TrackInfo>,
    kind: Seq<char>,
) -> bool {
    match n {
        Some(id) => exists|i: int|
            0 <= i < tracks.len() && (#[trigger] tracks[i]).id == id && tracks[i].kind@ == kind
                && tracks[i].selected && forall|k: int|
                0 <= k < i ==> !((#[trigger] tracks[k]).kind@ == kind && tracks[k].selected),
        None => forall|i: int|
            0 <= i < tracks.len() ==> !((#[trigger] tracks[i]).kind@ == kind && tracks[i].selected),
    }
}

/// Of each kind the first track that the player selected is the one that was played: a picture among
/// the pictures, a sound among the sounds, a subtitle among the subtitles. Nothing was chosen exactly
/// where none of these is selected.
pub proof fn the_selected_tracks_are_chosen(tracks: Seq<TrackInfo>)
    ensures
        match chosen(tracks) {
            Some(s) => is_first_selected(s.video, tracks, "video"@) && is_first_selected(
                s.audio,
                tracks,
                "audio"@,
            ) && is_first_selected(s.subtitle, tracks, "sub"@),
            None => is_first_selected(None, tracks, "video"@) && is_first_selected(
                None,
                tracks,
                "audio"@,
            ) && is_first_selected(None, tracks, "sub"@),
        },
{
    selected_is_first(tracks, "video"@, 0);
    selected_is_first(tracks, "audio"@, 0);
    selected_is_first(tracks, "sub"@, 0);
}

/// The tracks of a kind are those that say so, all of them and in order.
pub proof fn tracks_are_sorted_by_kind(tracks: Seq<TrackInfo>, kind: Seq<char>)
    ensures
        of_kind(tracks, kind) == tracks.filter(|t: TrackInfo| t.kind@ == kind),
    decreases tracks.len(),
{
    reveal(Seq::filter);
    if tracks.len() > 0 {
        tracks_are_sorted_by_kind(tracks.drop_last(), kind);
    }
}

proof fn digits_at_the_end(base: Seq<char>, d: Seq<char>)
    requires
        base.len() > 0,
        !is_digit(base.last()),
        crate::text::all_digits(d),
    ensures
        trailing_digits(base + d) == d,
{
    let s = base + d;
    assert forall|k: int| base.len() <= k < s.len() implies is_digit(s[k]) by {
        assert(is_digit(d[k - base.len()]));
    }
    assert(s[base.len() - 1] == base.last());
    trailing_digits_are(s, base.len() as int);
    assert(s.skip(base.len() as int) =~= d);
}

proof fn nothing_to_take_off(s: Seq<char>, suffix: Seq<char>)
    requires
        suffix.len() == 2,
        s.len() > 0,
        s.last() != suffix.last(),
    ensures
        without(s, suffix) == s,
{
    if suffix.is_suffix_of(s) {
        let t = s.subrange(s.len() - suffix.len(), s.len() as int);
        assert(t.last() == s.last());
    }
}

proof fn one_to_take_off(s: Seq<char>, suffix: Seq<char>)
    requires
        suffix.len() == 2,
        s.len() > 0,
        s.last() != suffix.last(),
    ensures
        without(s + suffix, suffix) == s,
{
    let t = s + suffix;
    assert(suffix =~= t.subrange(t.len() - 2, t.len() as int));
    assert(t.take(t.len() - 2) =~= s);
    nothing_to_take_off(s, suffix);
}

/// The depth of a pixel format is the number at its end, whatever stands before it and whichever byte
/// order follows it, where that is from eight to sixteen bits; any other number is no depth.
pub proof fn the_depth_is_the_number_at_the_end(base: Seq<char>, n: nat)
    requires
        base.len() > 0,
        !is_digit(base.last()),
        n <= 255,
    ensures
        ({
            let depth = if 8 <= n <= 16 {
                n
            } else {
                8
            };
            &&& depth_of(Some(base + dec(n))) == depth
            &&& depth_of(Some(base + dec(n) + "le"@)) == depth
            &&& depth_of(Some(base + dec(n) + "be"@)) == depth
        }),
{
    let s = base + dec(n);
    let le = "le"@;
    let be = "be"@;
    reveal_strlit("le");
    reveal_strlit("be");
    crate::text::numerals_read_back(n, 255);
    crate::json_writer::dec_is_digits(n);
    assert(s.last() == dec(n)[dec(n).len() - 1]);
    assert(is_digit(dec(n)[dec(n).len() - 1]));
    assert(le.last() == 'e' && be.last() == 'e');
    digits_at_the_end(base, dec(n));
    nothing_to_take_off(s, le);
    nothing_to_take_off(s, be);
    one_to_take_off(s, le);
    one_to_take_off(s, be);
    let b = s + be;
    assert(without(b, le) == b) by {
        if le.is_suffix_of(b) {
            let t = b.subrange(b.len() - 2, b.len() as int);
            assert(t[0] == 'b');
            assert(le[0] == 'l');
        }
    }
    if dec(n).len() > 0 && dec(n)[0] == '+' {
        assert(is_digit(dec(n)[0]));
    }
}

/// A pixel format samples colour as its name says, whatever follows the sampling in the name; what is
/// not said is taken for the usual.
pub proof fn formats_sample_as_they_say(rest: Seq<char>)
    ensures
        chroma_of(Some("yuv444"@ + rest)) == ChromaSubsampling::Yuv444,
        chroma_of(Some("yuv422"@ + rest)) == ChromaSubsampling::Yuv422,
        chroma_of(Some("yuv420"@ + rest)) == ChromaSubsampling::Yuv420,
        chroma_of(None) == ChromaSubsampling::Yuv420,
{
    reveal_strlit("yuv444");
    reveal_strlit("yuva444");
    reveal_strlit("gbr");
    reveal_strlit("yuv422");
    reveal_strlit("yuva422");
    reveal_strlit("yuv420");
    assert("yuv444"@ =~= ("yuv444"@ + rest).subrange(0, 6));
    assert("yuv422"@ =~= ("yuv422"@ + rest).subrange(0, 6));
    let b = "yuv422"@ + rest;
    let c = "yuv420"@ + rest;
    assert(b[0] == 'y' && b[3] == '4' && b[4] == '2' && c[0] == 'y' && c[3] == '4' && c[4] == '2'
        && c[5] == '0');
    assert("yuv444"@[4] == '4' && "yuva444"@[3] == 'a' && "gbr"@[0] == 'g' && "yuv422"@[5] == '2'
        && "yuva422"@[3] == 'a');
    prefix_letters("yuv444"@, b, 4);
    prefix_letters("yuva444"@, b, 3);
    prefix_letters("gbr"@, b, 0);
    prefix_letters("yuv444"@, c, 4);
    prefix_letters("yuva444"@, c, 3);
    prefix_letters("gbr"@, c, 0);
    prefix_letters("yuv422"@, c, 5);
    prefix_letters("yuva422"@, c, 3);
}

proof fn prefix_letters(p: Seq<char>, s: Seq<char>, i: int)
    requires
        0 <= i < p.len(),
        i < s.len(),
        p[i] != s[i],
    ensures
        !p.is_prefix_of(s),
{
    if p.is_prefix_of(s) {
        assert(s.subrange(0, p.len() as int)[i] == s[i]);
    }
}

/// A track is a commentary exactly where its title says so somewhere, letter case aside; what else is
/// marked about it is what the player says.
pub proof fn commentaries_say_so(t: TrackInfo)
    ensures
        marks_of(t).commentary <==> t.title is Some && exists|p: Seq<char>, q: Seq<char>|
            lower(t.title->0@) == #[trigger] p.add("commentary"@).add(q),
        marks_of(t).default == t.default && marks_of(t).forced == t.forced,
        marks_of(t).hearing_impaired == t.hearing_impaired && marks_of(t).visual_impaired
            == t.visual_impaired,
{
    if let Some(s) = t.title {
        crate::text::occurs_between(lower(s@), "commentary"@);
    }
}

/// Codecs go by their names whatever the letter case, and a codec that is not known keeps its name. A
/// profile counts in any case too, and what is raw sound by its name is so whatever follows.
pub proof fn codecs_go_by_name(
    v: VideoCodec,
    a: AudioCodec,
    s: SubtitleCodec,
    name: Seq<char>,
    profile: Seq<char>,
)
    ensures
        is_video_codec(v, Some(name)) == is_video_codec(v, Some(upper(name))),
        is_audio_codec(a, Some(name), Some(profile)) == is_audio_codec(
            a,
            Some(upper(name)),
            Some(lower(profile)),
        ),
        is_subtitle_codec(s, Some(name)) == is_subtitle_codec(s, Some(upper(name))),
        audio_kind("pcm_"@ + name, profile) == Some(AudioCodec::Pcm),
        match v {
            VideoCodec::Other(n) => is_video_codec(v, Some(name)) ==> n@ == lower(name),
            _ => true,
        },
{
    crate::text::lower_case_folds_letters(name);
    crate::text::lower_case_folds_letters(profile);
    assert(upper(lower(profile)) =~= upper(profile)) by {
        assert forall|i: int| 0 <= i < profile.len() implies #[trigger] upper(lower(profile))[i]
            == upper(profile)[i] by {
            assert(lower(profile)[i] as u32 == (if 65 <= profile[i] as u32 <= 90 {
                profile[i] as u32 + 32
            } else {
                profile[i] as int
            }));
        }
    }
    crate::text::what_is_added_comes_off(name, "pcm_"@);
    video_names_are_known(folded(Some(name)));
}

proof fn video_names_are_known(n: Seq<char>)
    ensures
        match video_named(n) {
            Some(VideoCodec::Other(_)) => false,
            _ => true,
        },
{
}

/// What a track says of itself counts before what the file says.
pub proof fn tracks_speak_for_themselves(t: TrackInfo, r: FileResult, a: u32, b: u32)
    ensures
        either(Some(a), Some(b)) == a,
        either(None, Some(b)) == b,
        either(None, None) == 0,
        t.fps is Some ==> track_rate(t, r) == rate_of(t.fps->0),
        t.fps is None && r.fps is Some ==> track_rate(t, r) == rate_of(r.fps->0),
{
}

/// A family of format names stands for a container where one of its names does: the names of two lists
/// put together are those of either.
pub proof fn format_names_add_up(a: Seq<char>, b: Seq<char>, name: Seq<char>)
    ensures
        holds_name(a.push(',') + b, name) <==> holds_name(a, name) || holds_name(b, name),
        !a.contains(',') ==> (holds_name(a, name) <==> trim(a) == name),
{
    let s = a.push(',') + b;
    crate::text::pieces_go_on(a, b, ',');
    let x = split(a, ',');
    let y = split(b, ',');
    let all = split(s, ',');
    if holds_name(s, name) {
        let i = choose|i: int| 0 <= i < all.len() && trim(#[trigger] all[i]) == name;
        if i < x.len() {
            assert(all[i] == x[i]);
        } else {
            assert(all[i] == y[i - x.len()]);
        }
    }
    if holds_name(a, name) {
        let i = choose|i: int| 0 <= i < x.len() && trim(#[trigger] x[i]) == name;
        assert(all[i] == x[i]);
    }
    if holds_name(b, name) {
        let i = choose|i: int| 0 <= i < y.len() && trim(#[trigger] y[i]) == name;
        assert(all[x.len() + i] == y[i]);
    }
    if !a.contains(',') {
        crate::text::splits_at_the_first(a, b, ',');
        assert(x[0] == a);
    }
}

/// A whole number of seconds is that many thousand million nanoseconds; no time at all is not told.
pub proof fn durations_are_told_exactly(n: u64)
    requires
        n <= 9_007_199,
    ensures
        nanoseconds(Some(Measure::Finite { negative: false, mantissa: n, exponent: 0 })) == (if n > 0 {
            Some((n * 1_000_000_000) as i64)
        } else {
            None
        }),
        nanoseconds(None) is None,
{
    let t = (n * 1_000_000_000) as nat;
    lemma2_to64();
    crate::binary64::whole_numbers_are_exact(t);
    assert(n as nat * 1000000000nat * 1 == t);
    assert(n as nat * 1 == n);
}

/// A file plays as it is under a profile exactly where that was decided and nothing stands against it.
pub proof fn blocked_files_do_not_play(o: ProfileOutcome, profile: Seq<char>, p: Planned)
    requires
        is_outcome(o, profile, p),
    ensures
        o.direct ==> p.is_direct && !p.is_blocked,
        p.is_blocked ==> !o.direct,
        o.tier == p.tier,
{
}

/// A stream is numbered, sized, timed and marked as its track is: each fact goes where it belongs. A
/// sound track that does not say counts as stereo at 48 kHz.
pub proof fn streams_are_what_the_tracks_say(s: MediaSource, r: FileResult, f: ScannedFile, i: int)
    requires
        is_source(s, r, f),
    ensures
        ({
            let video = of_kind(r.tracks@, "video"@);
            let audio = of_kind(r.tracks@, "audio"@);
            let subs = of_kind(r.tracks@, "sub"@);
            &&& 0 <= i < video.len() ==> {
                let v = s.video@[i];
                let t = video[i];
                &&& v.index == t.id && v.bitrate_bps == t.bitrate_bps
                &&& t.width is Some ==> v.width == t.width->0
                &&& t.height is Some ==> v.height == t.height->0
                &&& t.width is None && r.width is Some ==> v.width == r.width->0
                &&& t.height is None && r.height is Some ==> v.height == r.height->0
                &&& v.flags.default == t.default && v.flags.forced == t.forced
                &&& v.color.hdr == HdrFormat::Hdr10 || v.color.hdr == HdrFormat::Hlg <==> r.hdr()
            }
            &&& 0 <= i < audio.len() ==> {
                let a = s.audio@[i];
                let t = audio[i];
                &&& a.index == t.id && a.bitrate_bps == t.bitrate_bps
                &&& t.channels is Some ==> a.channels == t.channels->0
                &&& t.channels is None ==> a.channels == 2
                &&& t.sample_rate is Some ==> a.sample_rate == t.sample_rate->0
                &&& t.sample_rate is None ==> a.sample_rate == 48_000
                &&& t.lang is Some ==> a.language@ == t.lang->0@
                &&& t.lang is None ==> a.language@.len() == 0
                &&& t.title is Some ==> a.title is Some && a.title->0@ == t.title->0@
            }
            &&& 0 <= i < subs.len() ==> {
                let u = s.subtitles@[i];
                let t = subs[i];
                &&& u.index == t.id && u.external == t.external
                &&& t.lang is Some ==> u.language@ == t.lang->0@
                &&& t.title is Some ==> u.title is Some && u.title->0@ == t.title->0@
                &&& u.flags.forced == t.forced && u.flags.hearing_impaired == t.hearing_impaired
            }
            &&& f.container is Some ==> s.container == f.container->0
        }),
{
    let video = of_kind(r.tracks@, "video"@);
    let audio = of_kind(r.tracks@, "audio"@);
    let subs = of_kind(r.tracks@, "sub"@);
    reports_agree_on_hdr(r);
    if 0 <= i < video.len() {
        assert(is_video(s.video@[i], video[i], r));
    }
    if 0 <= i < audio.len() {
        assert(is_audio(s.audio@[i], audio[i]));
    }
    if 0 <= i < subs.len() {
        assert(is_subtitle(s.subtitles@[i], subs[i]));
    }
}

/// A video codec is known by its names, letter case aside, and by no other.
pub proof fn video_codecs_have_their_names(n: Seq<char>)
    ensures
        is_video_codec(VideoCodec::H264, Some(n)) <==> lower(n) == "h264"@ || lower(n) == "avc"@
            || lower(n) == "avc1"@,
        is_video_codec(VideoCodec::Hevc, Some(n)) <==> lower(n) == "hevc"@ || lower(n) == "h265"@
            || lower(n) == "hvc1"@ || lower(n) == "hev1"@,
        is_video_codec(VideoCodec::Vvc, Some(n)) <==> lower(n) == "vvc"@ || lower(n) == "h266"@,
        is_video_codec(VideoCodec::Av1, Some(n)) <==> lower(n) == "av1"@,
        is_video_codec(VideoCodec::Vp8, Some(n)) <==> lower(n) == "vp8"@,
        is_video_codec(VideoCodec::Vp9, Some(n)) <==> lower(n) == "vp9"@,
        is_video_codec(VideoCodec::Mpeg1, Some(n)) <==> lower(n) == "mpeg1video"@,
        is_video_codec(VideoCodec::Mpeg2, Some(n)) <==> lower(n) == "mpeg2video"@,
        is_video_codec(VideoCodec::Mpeg4Part2, Some(n)) <==> lower(n) == "mpeg4"@
            || lower(n) == "msmpeg4v3"@ || lower(n) == "msmpeg4v2"@ || lower(n) == "div3"@
            || lower(n) == "divx"@ || lower(n) == "xvid"@,
        is_video_codec(VideoCodec::Vc1, Some(n)) <==> lower(n) == "vc1"@ || lower(n) == "wmv3"@,
        is_video_codec(VideoCodec::Theora, Some(n)) <==> lower(n) == "theora"@,
        is_video_codec(VideoCodec::ProRes, Some(n)) <==> lower(n) == "prores"@,
        is_video_codec(VideoCodec::ProResRaw, Some(n)) <==> lower(n) == "prores_raw"@
            || lower(n) == "aprn"@ || lower(n) == "aprh"@,
        is_video_codec(VideoCodec::DnxHd, Some(n)) <==> lower(n) == "dnxhd"@
            || lower(n) == "dnxhr"@,
        is_video_codec(VideoCodec::Apv, Some(n)) <==> lower(n) == "apv"@,
        is_video_codec(VideoCodec::Ffv1, Some(n)) <==> lower(n) == "ffv1"@,
        is_video_codec(VideoCodec::Mjpeg, Some(n)) <==> lower(n) == "mjpeg"@,
        is_video_codec(VideoCodec::Dv, Some(n)) <==> lower(n) == "dvvideo"@,
        is_video_codec(VideoCodec::Uncompressed, Some(n)) <==> lower(n) == "rawvideo"@
            || lower(n) == "v210"@ || lower(n) == "yuv4"@,
        is_video_codec(VideoCodec::H263, Some(n)) <==> lower(n) == "h263"@ || lower(n) == "h263p"@
            || lower(n) == "h263i"@,
        is_video_codec(VideoCodec::Cinepak, Some(n)) <==> lower(n) == "cinepak"@,
        is_video_codec(VideoCodec::Indeo, Some(n)) <==> lower(n) == "indeo2"@
            || lower(n) == "indeo3"@ || lower(n) == "indeo4"@ || lower(n) == "indeo5"@,
        is_video_codec(VideoCodec::Svq3, Some(n)) <==> lower(n) == "svq3"@,
        is_video_codec(VideoCodec::QtRle, Some(n)) <==> lower(n) == "qtrle"@,
        is_video_codec(VideoCodec::UtVideo, Some(n)) <==> lower(n) == "utvideo"@,
{
    reveal_strlit("h264");
    reveal_strlit("avc");
    reveal_strlit("avc1");
    reveal_strlit("hevc");
    reveal_strlit("h265");
    reveal_strlit("hvc1");
    reveal_strlit("hev1");
    reveal_strlit("vvc");
    reveal_strlit("h266");
    reveal_strlit("av1");
    reveal_strlit("vp8");
    reveal_strlit("vp9");
    reveal_strlit("mpeg1video");
    reveal_strlit("mpeg2video");
    reveal_strlit("mpeg4");
    reveal_strlit("msmpeg4v3");
    reveal_strlit("msmpeg4v2");
    reveal_strlit("div3");
    reveal_strlit("divx");
    reveal_strlit("xvid");
    reveal_strlit("vc1");
    reveal_strlit("wmv3");
    reveal_strlit("theora");
    reveal_strlit("prores");
    reveal_strlit("prores_raw");
    reveal_strlit("aprn");
    reveal_strlit("aprh");
    reveal_strlit("dnxhd");
    reveal_strlit("dnxhr");
    reveal_strlit("apv");
    reveal_strlit("ffv1");
    reveal_strlit("mjpeg");
    reveal_strlit("dvvideo");
    reveal_strlit("rawvideo");
    reveal_strlit("v210");
    reveal_strlit("yuv4");
    reveal_strlit("h263");
    reveal_strlit("h263p");
    reveal_strlit("h263i");
    reveal_strlit("cinepak");
    reveal_strlit("indeo2");
    reveal_strlit("indeo3");
    reveal_strlit("indeo4");
    reveal_strlit("indeo5");
    reveal_strlit("svq3");
    reveal_strlit("qtrle");
    reveal_strlit("utvideo");
    assert("h264"@.len() == 4 && "h264"@[0] == 'h' && "h264"@[1] == '2' && "h264"@[2] == '6'
        && "h264"@[3] == '4');
    assert("avc"@.len() == 3 && "avc"@[0] == 'a' && "avc"@[1] == 'v' && "avc"@[2] == 'c');
    assert("avc1"@.len() == 4 && "avc1"@[0] == 'a' && "avc1"@[1] == 'v' && "avc1"@[2] == 'c'
        && "avc1"@[3] == '1');
    assert("hevc"@.len() == 4 && "hevc"@[0] == 'h' && "hevc"@[1] == 'e' && "hevc"@[2] == 'v'
        && "hevc"@[3] == 'c');
    assert("h265"@.len() == 4 && "h265"@[0] == 'h' && "h265"@[1] == '2' && "h265"@[2] == '6'
        && "h265"@[3] == '5');
    assert("hvc1"@.len() == 4 && "hvc1"@[0] == 'h' && "hvc1"@[1] == 'v' && "hvc1"@[2] == 'c'
        && "hvc1"@[3] == '1');
    assert("hev1"@.len() == 4 && "hev1"@[0] == 'h' && "hev1"@[1] == 'e' && "hev1"@[2] == 'v'
        && "hev1"@[3] == '1');
    assert("vvc"@.len() == 3 && "vvc"@[0] == 'v' && "vvc"@[1] == 'v' && "vvc"@[2] == 'c');
    assert("h266"@.len() == 4 && "h266"@[0] == 'h' && "h266"@[1] == '2' && "h266"@[2] == '6'
        && "h266"@[3] == '6');
    assert("av1"@.len() == 3 && "av1"@[0] == 'a' && "av1"@[1] == 'v' && "av1"@[2] == '1');
    assert("vp8"@.len() == 3 && "vp8"@[0] == 'v' && "vp8"@[1] == 'p' && "vp8"@[2] == '8');
    assert("vp9"@.len() == 3 && "vp9"@[0] == 'v' && "vp9"@[1] == 'p' && "vp9"@[2] == '9');
    assert("mpeg1video"@.len() == 10 && "mpeg1video"@[0] == 'm' && "mpeg1video"@[1] == 'p'
        && "mpeg1video"@[2] == 'e' && "mpeg1video"@[3] == 'g' && "mpeg1video"@[4] == '1'
        && "mpeg1video"@[5] == 'v' && "mpeg1video"@[6] == 'i' && "mpeg1video"@[7] == 'd'
        && "mpeg1video"@[8] == 'e' && "mpeg1video"@[9] == 'o');
    assert("mpeg2video"@.len() == 10 && "mpeg2video"@[0] == 'm' && "mpeg2video"@[1] == 'p'
        && "mpeg2video"@[2] == 'e' && "mpeg2video"@[3] == 'g' && "mpeg2video"@[4] == '2'
        && "mpeg2video"@[5] == 'v' && "mpeg2video"@[6] == 'i' && "mpeg2video"@[7] == 'd'
        && "mpeg2video"@[8] == 'e' && "mpeg2video"@[9] == 'o');
    assert("mpeg4"@.len() == 5 && "mpeg4"@[0] == 'm' && "mpeg4"@[1] == 'p' && "mpeg4"@[2] == 'e'
        && "mpeg4"@[3] == 'g' && "mpeg4"@[4] == '4');
    assert("msmpeg4v3"@.len() == 9 && "msmpeg4v3"@[0] == 'm' && "msmpeg4v3"@[1] == 's'
        && "msmpeg4v3"@[2] == 'm' && "msmpeg4v3"@[3] == 'p' && "msmpeg4v3"@[4] == 'e'
        && "msmpeg4v3"@[5] == 'g' && "msmpeg4v3"@[6] == '4' && "msmpeg4v3"@[7] == 'v'
        && "msmpeg4v3"@[8] == '3');
    assert("msmpeg4v2"@.len() == 9 && "msmpeg4v2"@[0] == 'm' && "msmpeg4v2"@[1] == 's'
        && "msmpeg4v2"@[2] == 'm' && "msmpeg4v2"@[3] == 'p' && "msmpeg4v2"@[4] == 'e'
        && "msmpeg4v2"@[5] == 'g' && "msmpeg4v2"@[6] == '4' && "msmpeg4v2"@[7] == 'v'
        && "msmpeg4v2"@[8] == '2');
    assert("div3"@.len() == 4 && "div3"@[0] == 'd' && "div3"@[1] == 'i' && "div3"@[2] == 'v'
        && "div3"@[3] == '3');
    assert("divx"@.len() == 4 && "divx"@[0] == 'd' && "divx"@[1] == 'i' && "divx"@[2] == 'v'
        && "divx"@[3] == 'x');
    assert("xvid"@.len() == 4 && "xvid"@[0] == 'x' && "xvid"@[1] == 'v' && "xvid"@[2] == 'i'
        && "xvid"@[3] == 'd');
    assert("vc1"@.len() == 3 && "vc1"@[0] == 'v' && "vc1"@[1] == 'c' && "vc1"@[2] == '1');
    assert("wmv3"@.len() == 4 && "wmv3"@[0] == 'w' && "wmv3"@[1] == 'm' && "wmv3"@[2] == 'v'
        && "wmv3"@[3] == '3');
    assert("theora"@.len() == 6 && "theora"@[0] == 't' && "theora"@[1] == 'h' && "theora"@[2] == 'e'
        && "theora"@[3] == 'o' && "theora"@[4] == 'r' && "theora"@[5] == 'a');
    assert("prores"@.len() == 6 && "prores"@[0] == 'p' && "prores"@[1] == 'r' && "prores"@[2] == 'o'
        && "prores"@[3] == 'r' && "prores"@[4] == 'e' && "prores"@[5] == 's');
    assert("prores_raw"@.len() == 10 && "prores_raw"@[0] == 'p' && "prores_raw"@[1] == 'r'
        && "prores_raw"@[2] == 'o' && "prores_raw"@[3] == 'r' && "prores_raw"@[4] == 'e'
        && "prores_raw"@[5] == 's' && "prores_raw"@[6] == '_' && "prores_raw"@[7] == 'r'
        && "prores_raw"@[8] == 'a' && "prores_raw"@[9] == 'w');
    assert("aprn"@.len() == 4 && "aprn"@[0] == 'a' && "aprn"@[1] == 'p' && "aprn"@[2] == 'r'
        && "aprn"@[3] == 'n');
    assert("aprh"@.len() == 4 && "aprh"@[0] == 'a' && "aprh"@[1] == 'p' && "aprh"@[2] == 'r'
        && "aprh"@[3] == 'h');
    assert("dnxhd"@.len() == 5 && "dnxhd"@[0] == 'd' && "dnxhd"@[1] == 'n' && "dnxhd"@[2] == 'x'
        && "dnxhd"@[3] == 'h' && "dnxhd"@[4] == 'd');
    assert("dnxhr"@.len() == 5 && "dnxhr"@[0] == 'd' && "dnxhr"@[1] == 'n' && "dnxhr"@[2] == 'x'
        && "dnxhr"@[3] == 'h' && "dnxhr"@[4] == 'r');
    assert("apv"@.len() == 3 && "apv"@[0] == 'a' && "apv"@[1] == 'p' && "apv"@[2] == 'v');
    assert("ffv1"@.len() == 4 && "ffv1"@[0] == 'f' && "ffv1"@[1] == 'f' && "ffv1"@[2] == 'v'
        && "ffv1"@[3] == '1');
    assert("mjpeg"@.len() == 5 && "mjpeg"@[0] == 'm' && "mjpeg"@[1] == 'j' && "mjpeg"@[2] == 'p'
        && "mjpeg"@[3] == 'e' && "mjpeg"@[4] == 'g');
    assert("dvvideo"@.len() == 7 && "dvvideo"@[0] == 'd' && "dvvideo"@[1] == 'v'
        && "dvvideo"@[2] == 'v' && "dvvideo"@[3] == 'i' && "dvvideo"@[4] == 'd'
        && "dvvideo"@[5] == 'e' && "dvvideo"@[6] == 'o');
    assert("rawvideo"@.len() == 8 && "rawvideo"@[0] == 'r' && "rawvideo"@[1] == 'a'
        && "rawvideo"@[2] == 'w' && "rawvideo"@[3] == 'v' && "rawvideo"@[4] == 'i'
        && "rawvideo"@[5] == 'd' && "rawvideo"@[6] == 'e' && "rawvideo"@[7] == 'o');
    assert("v210"@.len() == 4 && "v210"@[0] == 'v' && "v210"@[1] == '2' && "v210"@[2] == '1'
        && "v210"@[3] == '0');
    assert("yuv4"@.len() == 4 && "yuv4"@[0] == 'y' && "yuv4"@[1] == 'u' && "yuv4"@[2] == 'v'
        && "yuv4"@[3] == '4');
    assert("h263"@.len() == 4 && "h263"@[0] == 'h' && "h263"@[1] == '2' && "h263"@[2] == '6'
        && "h263"@[3] == '3');
    assert("h263p"@.len() == 5 && "h263p"@[0] == 'h' && "h263p"@[1] == '2' && "h263p"@[2] == '6'
        && "h263p"@[3] == '3' && "h263p"@[4] == 'p');
    assert("h263i"@.len() == 5 && "h263i"@[0] == 'h' && "h263i"@[1] == '2' && "h263i"@[2] == '6'
        && "h263i"@[3] == '3' && "h263i"@[4] == 'i');
    assert("cinepak"@.len() == 7 && "cinepak"@[0] == 'c' && "cinepak"@[1] == 'i'
        && "cinepak"@[2] == 'n' && "cinepak"@[3] == 'e' && "cinepak"@[4] == 'p'
        && "cinepak"@[5] == 'a' && "cinepak"@[6] == 'k');
    assert("indeo2"@.len() == 6 && "indeo2"@[0] == 'i' && "indeo2"@[1] == 'n' && "indeo2"@[2] == 'd'
        && "indeo2"@[3] == 'e' && "indeo2"@[4] == 'o' && "indeo2"@[5] == '2');
    assert("indeo3"@.len() == 6 && "indeo3"@[0] == 'i' && "indeo3"@[1] == 'n' && "indeo3"@[2] == 'd'
        && "indeo3"@[3] == 'e' && "indeo3"@[4] == 'o' && "indeo3"@[5] == '3');
    assert("indeo4"@.len() == 6 && "indeo4"@[0] == 'i' && "indeo4"@[1] == 'n' && "indeo4"@[2] == 'd'
        && "indeo4"@[3] == 'e' && "indeo4"@[4] == 'o' && "indeo4"@[5] == '4');
    assert("indeo5"@.len() == 6 && "indeo5"@[0] == 'i' && "indeo5"@[1] == 'n' && "indeo5"@[2] == 'd'
        && "indeo5"@[3] == 'e' && "indeo5"@[4] == 'o' && "indeo5"@[5] == '5');
    assert("svq3"@.len() == 4 && "svq3"@[0] == 's' && "svq3"@[1] == 'v' && "svq3"@[2] == 'q'
        && "svq3"@[3] == '3');
    assert("qtrle"@.len() == 5 && "qtrle"@[0] == 'q' && "qtrle"@[1] == 't' && "qtrle"@[2] == 'r'
        && "qtrle"@[3] == 'l' && "qtrle"@[4] == 'e');
    assert("utvideo"@.len() == 7 && "utvideo"@[0] == 'u' && "utvideo"@[1] == 't'
        && "utvideo"@[2] == 'v' && "utvideo"@[3] == 'i' && "utvideo"@[4] == 'd'
        && "utvideo"@[5] == 'e' && "utvideo"@[6] == 'o');
}

/// A subtitle codec is known by its names, letter case aside, and by no other.
pub proof fn subtitle_codecs_have_their_names(n: Seq<char>)
    ensures
        is_subtitle_codec(SubtitleCodec::SubRip, Some(n)) <==> lower(n) == "subrip"@
            || lower(n) == "srt"@,
        is_subtitle_codec(SubtitleCodec::Ass, Some(n)) <==> lower(n) == "ass"@
            || lower(n) == "ssa"@,
        is_subtitle_codec(SubtitleCodec::WebVtt, Some(n)) <==> lower(n) == "webvtt"@
            || lower(n) == "vtt"@,
        is_subtitle_codec(SubtitleCodec::Ttml, Some(n)) <==> lower(n) == "ttml"@
            || lower(n) == "stl"@,
        is_subtitle_codec(SubtitleCodec::MicroDvd, Some(n)) <==> lower(n) == "microdvd"@,
        is_subtitle_codec(SubtitleCodec::SubViewer, Some(n)) <==> lower(n) == "subviewer"@
            || lower(n) == "subviewer1"@,
        is_subtitle_codec(SubtitleCodec::MovText, Some(n)) <==> lower(n) == "mov_text"@
            || lower(n) == "tx3g"@,
        is_subtitle_codec(SubtitleCodec::Pgs, Some(n)) <==> lower(n) == "hdmv_pgs_subtitle"@
            || lower(n) == "pgssub"@,
        is_subtitle_codec(SubtitleCodec::VobSub, Some(n)) <==> lower(n) == "dvd_subtitle"@
            || lower(n) == "dvdsub"@,
        is_subtitle_codec(SubtitleCodec::DvbSub, Some(n)) <==> lower(n) == "dvb_subtitle"@
            || lower(n) == "dvbsub"@,
        is_subtitle_codec(SubtitleCodec::Cea608, Some(n)) <==> lower(n) == "eia_608"@
            || lower(n) == "cc_dec"@,
        is_subtitle_codec(SubtitleCodec::Cea708, Some(n)) <==> lower(n) == "eia_708"@
            || lower(n) == "cea_708"@,
        is_subtitle_codec(SubtitleCodec::Teletext, Some(n)) <==> lower(n) == "dvb_teletext"@
            || lower(n) == "teletext"@,
{
    reveal_strlit("subrip");
    reveal_strlit("srt");
    reveal_strlit("ass");
    reveal_strlit("ssa");
    reveal_strlit("webvtt");
    reveal_strlit("vtt");
    reveal_strlit("ttml");
    reveal_strlit("stl");
    reveal_strlit("microdvd");
    reveal_strlit("subviewer");
    reveal_strlit("subviewer1");
    reveal_strlit("mov_text");
    reveal_strlit("tx3g");
    reveal_strlit("hdmv_pgs_subtitle");
    reveal_strlit("pgssub");
    reveal_strlit("dvd_subtitle");
    reveal_strlit("dvdsub");
    reveal_strlit("dvb_subtitle");
    reveal_strlit("dvbsub");
    reveal_strlit("eia_608");
    reveal_strlit("cc_dec");
    reveal_strlit("eia_708");
    reveal_strlit("cea_708");
    reveal_strlit("dvb_teletext");
    reveal_strlit("teletext");
    assert("subrip"@.len() == 6 && "subrip"@[0] == 's' && "subrip"@[1] == 'u' && "subrip"@[2] == 'b'
        && "subrip"@[3] == 'r' && "subrip"@[4] == 'i' && "subrip"@[5] == 'p');
    assert("srt"@.len() == 3 && "srt"@[0] == 's' && "srt"@[1] == 'r' && "srt"@[2] == 't');
    assert("ass"@.len() == 3 && "ass"@[0] == 'a' && "ass"@[1] == 's' && "ass"@[2] == 's');
    assert("ssa"@.len() == 3 && "ssa"@[0] == 's' && "ssa"@[1] == 's' && "ssa"@[2] == 'a');
    assert("webvtt"@.len() == 6 && "webvtt"@[0] == 'w' && "webvtt"@[1] == 'e' && "webvtt"@[2] == 'b'
        && "webvtt"@[3] == 'v' && "webvtt"@[4] == 't' && "webvtt"@[5] == 't');
    assert("vtt"@.len() == 3 && "vtt"@[0] == 'v' && "vtt"@[1] == 't' && "vtt"@[2] == 't');
    assert("ttml"@.len() == 4 && "ttml"@[0] == 't' && "ttml"@[1] == 't' && "ttml"@[2] == 'm'
        && "ttml"@[3] == 'l');
    assert("stl"@.len() == 3 && "stl"@[0] == 's' && "stl"@[1] == 't' && "stl"@[2] == 'l');
    assert("microdvd"@.len() == 8 && "microdvd"@[0] == 'm' && "microdvd"@[1] == 'i'
        && "microdvd"@[2] == 'c' && "microdvd"@[3] == 'r' && "microdvd"@[4] == 'o'
        && "microdvd"@[5] == 'd' && "microdvd"@[6] == 'v' && "microdvd"@[7] == 'd');
    assert("subviewer"@.len() == 9 && "subviewer"@[0] == 's' && "subviewer"@[1] == 'u'
        && "subviewer"@[2] == 'b' && "subviewer"@[3] == 'v' && "subviewer"@[4] == 'i'
        && "subviewer"@[5] == 'e' && "subviewer"@[6] == 'w' && "subviewer"@[7] == 'e'
        && "subviewer"@[8] == 'r');
    assert("subviewer1"@.len() == 10 && "subviewer1"@[0] == 's' && "subviewer1"@[1] == 'u'
        && "subviewer1"@[2] == 'b' && "subviewer1"@[3] == 'v' && "subviewer1"@[4] == 'i'
        && "subviewer1"@[5] == 'e' && "subviewer1"@[6] == 'w' && "subviewer1"@[7] == 'e'
        && "subviewer1"@[8] == 'r' && "subviewer1"@[9] == '1');
    assert("mov_text"@.len() == 8 && "mov_text"@[0] == 'm' && "mov_text"@[1] == 'o'
        && "mov_text"@[2] == 'v' && "mov_text"@[3] == '_' && "mov_text"@[4] == 't'
        && "mov_text"@[5] == 'e' && "mov_text"@[6] == 'x' && "mov_text"@[7] == 't');
    assert("tx3g"@.len() == 4 && "tx3g"@[0] == 't' && "tx3g"@[1] == 'x' && "tx3g"@[2] == '3'
        && "tx3g"@[3] == 'g');
    assert("hdmv_pgs_subtitle"@.len() == 17 && "hdmv_pgs_subtitle"@[0] == 'h'
        && "hdmv_pgs_subtitle"@[1] == 'd' && "hdmv_pgs_subtitle"@[2] == 'm'
        && "hdmv_pgs_subtitle"@[3] == 'v' && "hdmv_pgs_subtitle"@[4] == '_'
        && "hdmv_pgs_subtitle"@[5] == 'p' && "hdmv_pgs_subtitle"@[6] == 'g'
        && "hdmv_pgs_subtitle"@[7] == 's' && "hdmv_pgs_subtitle"@[8] == '_'
        && "hdmv_pgs_subtitle"@[9] == 's' && "hdmv_pgs_subtitle"@[10] == 'u'
        && "hdmv_pgs_subtitle"@[11] == 'b' && "hdmv_pgs_subtitle"@[12] == 't'
        && "hdmv_pgs_subtitle"@[13] == 'i' && "hdmv_pgs_subtitle"@[14] == 't'
        && "hdmv_pgs_subtitle"@[15] == 'l' && "hdmv_pgs_subtitle"@[16] == 'e');
    assert("pgssub"@.len() == 6 && "pgssub"@[0] == 'p' && "pgssub"@[1] == 'g' && "pgssub"@[2] == 's'
        && "pgssub"@[3] == 's' && "pgssub"@[4] == 'u' && "pgssub"@[5] == 'b');
    assert("dvd_subtitle"@.len() == 12 && "dvd_subtitle"@[0] == 'd' && "dvd_subtitle"@[1] == 'v'
        && "dvd_subtitle"@[2] == 'd' && "dvd_subtitle"@[3] == '_' && "dvd_subtitle"@[4] == 's'
        && "dvd_subtitle"@[5] == 'u' && "dvd_subtitle"@[6] == 'b' && "dvd_subtitle"@[7] == 't'
        && "dvd_subtitle"@[8] == 'i' && "dvd_subtitle"@[9] == 't' && "dvd_subtitle"@[10] == 'l'
        && "dvd_subtitle"@[11] == 'e');
    assert("dvdsub"@.len() == 6 && "dvdsub"@[0] == 'd' && "dvdsub"@[1] == 'v' && "dvdsub"@[2] == 'd'
        && "dvdsub"@[3] == 's' && "dvdsub"@[4] == 'u' && "dvdsub"@[5] == 'b');
    assert("dvb_subtitle"@.len() == 12 && "dvb_subtitle"@[0] == 'd' && "dvb_subtitle"@[1] == 'v'
        && "dvb_subtitle"@[2] == 'b' && "dvb_subtitle"@[3] == '_' && "dvb_subtitle"@[4] == 's'
        && "dvb_subtitle"@[5] == 'u' && "dvb_subtitle"@[6] == 'b' && "dvb_subtitle"@[7] == 't'
        && "dvb_subtitle"@[8] == 'i' && "dvb_subtitle"@[9] == 't' && "dvb_subtitle"@[10] == 'l'
        && "dvb_subtitle"@[11] == 'e');
    assert("dvbsub"@.len() == 6 && "dvbsub"@[0] == 'd' && "dvbsub"@[1] == 'v' && "dvbsub"@[2] == 'b'
        && "dvbsub"@[3] == 's' && "dvbsub"@[4] == 'u' && "dvbsub"@[5] == 'b');
    assert("eia_608"@.len() == 7 && "eia_608"@[0] == 'e' && "eia_608"@[1] == 'i'
        && "eia_608"@[2] == 'a' && "eia_608"@[3] == '_' && "eia_608"@[4] == '6'
        && "eia_608"@[5] == '0' && "eia_608"@[6] == '8');
    assert("cc_dec"@.len() == 6 && "cc_dec"@[0] == 'c' && "cc_dec"@[1] == 'c' && "cc_dec"@[2] == '_'
        && "cc_dec"@[3] == 'd' && "cc_dec"@[4] == 'e' && "cc_dec"@[5] == 'c');
    assert("eia_708"@.len() == 7 && "eia_708"@[0] == 'e' && "eia_708"@[1] == 'i'
        && "eia_708"@[2] == 'a' && "eia_708"@[3] == '_' && "eia_708"@[4] == '7'
        && "eia_708"@[5] == '0' && "eia_708"@[6] == '8');
    assert("cea_708"@.len() == 7 && "cea_708"@[0] == 'c' && "cea_708"@[1] == 'e'
        && "cea_708"@[2] == 'a' && "cea_708"@[3] == '_' && "cea_708"@[4] == '7'
        && "cea_708"@[5] == '0' && "cea_708"@[6] == '8');
    assert("dvb_teletext"@.len() == 12 && "dvb_teletext"@[0] == 'd' && "dvb_teletext"@[1] == 'v'
        && "dvb_teletext"@[2] == 'b' && "dvb_teletext"@[3] == '_' && "dvb_teletext"@[4] == 't'
        && "dvb_teletext"@[5] == 'e' && "dvb_teletext"@[6] == 'l' && "dvb_teletext"@[7] == 'e'
        && "dvb_teletext"@[8] == 't' && "dvb_teletext"@[9] == 'e' && "dvb_teletext"@[10] == 'x'
        && "dvb_teletext"@[11] == 't');
    assert("teletext"@.len() == 8 && "teletext"@[0] == 't' && "teletext"@[1] == 'e'
        && "teletext"@[2] == 'l' && "teletext"@[3] == 'e' && "teletext"@[4] == 't'
        && "teletext"@[5] == 'e' && "teletext"@[6] == 'x' && "teletext"@[7] == 't');
}

/// An audio codec is known by its names, letter case aside, and by no other; a profile has no say in
/// these.
pub proof fn audio_codecs_have_their_names(n: Seq<char>, profile: Option<Seq<char>>)
    ensures
        is_audio_codec(AudioCodec::TrueHd, Some(n), profile) <==> lower(n) == "truehd"@
            || lower(n) == "mlp"@,
        is_audio_codec(AudioCodec::Flac, Some(n), profile) <==> lower(n) == "flac"@,
        is_audio_codec(AudioCodec::Alac, Some(n), profile) <==> lower(n) == "alac"@,
        is_audio_codec(AudioCodec::WavPack, Some(n), profile) <==> lower(n) == "wavpack"@,
        is_audio_codec(AudioCodec::MonkeysAudio, Some(n), profile) <==> lower(n) == "ape"@
            || lower(n) == "monkeysaudio"@,
        is_audio_codec(AudioCodec::Ac3, Some(n), profile) <==> lower(n) == "ac3"@,
        is_audio_codec(AudioCodec::EAc3, Some(n), profile) <==> lower(n) == "eac3"@,
        is_audio_codec(AudioCodec::Ac4, Some(n), profile) <==> lower(n) == "ac4"@,
        is_audio_codec(AudioCodec::Aac, Some(n), profile) <==> lower(n) == "aac"@
            || lower(n) == "aac_latm"@,
        is_audio_codec(AudioCodec::Opus, Some(n), profile) <==> lower(n) == "opus"@,
        is_audio_codec(AudioCodec::Vorbis, Some(n), profile) <==> lower(n) == "vorbis"@,
        is_audio_codec(AudioCodec::Mp3, Some(n), profile) <==> lower(n) == "mp3"@
            || lower(n) == "mp3float"@,
        is_audio_codec(AudioCodec::Mp2, Some(n), profile) <==> lower(n) == "mp2"@
            || lower(n) == "mp2float"@,
        is_audio_codec(AudioCodec::Wma, Some(n), profile) <==> lower(n) == "wmav1"@
            || lower(n) == "wmav2"@ || lower(n) == "wmapro"@,
        is_audio_codec(AudioCodec::WmaLossless, Some(n), profile) <==> lower(n) == "wmalossless"@,
{
    reveal_strlit("truehd");
    reveal_strlit("mlp");
    reveal_strlit("flac");
    reveal_strlit("alac");
    reveal_strlit("wavpack");
    reveal_strlit("ape");
    reveal_strlit("monkeysaudio");
    reveal_strlit("ac3");
    reveal_strlit("eac3");
    reveal_strlit("ac4");
    reveal_strlit("aac");
    reveal_strlit("aac_latm");
    reveal_strlit("opus");
    reveal_strlit("vorbis");
    reveal_strlit("mp3");
    reveal_strlit("mp3float");
    reveal_strlit("mp2");
    reveal_strlit("mp2float");
    reveal_strlit("wmav1");
    reveal_strlit("wmav2");
    reveal_strlit("wmapro");
    reveal_strlit("wmalossless");
    reveal_strlit("dts");
    reveal_strlit("pcm_");
    reveal_strlit("dsd_");
    reveal_strlit("adpcm_");
    assert("truehd"@.len() == 6 && "truehd"@[0] == 't' && "truehd"@[1] == 'r' && "truehd"@[2] == 'u'
        && "truehd"@[3] == 'e' && "truehd"@[4] == 'h' && "truehd"@[5] == 'd');
    assert("mlp"@.len() == 3 && "mlp"@[0] == 'm' && "mlp"@[1] == 'l' && "mlp"@[2] == 'p');
    assert("flac"@.len() == 4 && "flac"@[0] == 'f' && "flac"@[1] == 'l' && "flac"@[2] == 'a'
        && "flac"@[3] == 'c');
    assert("alac"@.len() == 4 && "alac"@[0] == 'a' && "alac"@[1] == 'l' && "alac"@[2] == 'a'
        && "alac"@[3] == 'c');
    assert("wavpack"@.len() == 7 && "wavpack"@[0] == 'w' && "wavpack"@[1] == 'a'
        && "wavpack"@[2] == 'v' && "wavpack"@[3] == 'p' && "wavpack"@[4] == 'a'
        && "wavpack"@[5] == 'c' && "wavpack"@[6] == 'k');
    assert("ape"@.len() == 3 && "ape"@[0] == 'a' && "ape"@[1] == 'p' && "ape"@[2] == 'e');
    assert("monkeysaudio"@.len() == 12 && "monkeysaudio"@[0] == 'm' && "monkeysaudio"@[1] == 'o'
        && "monkeysaudio"@[2] == 'n' && "monkeysaudio"@[3] == 'k' && "monkeysaudio"@[4] == 'e'
        && "monkeysaudio"@[5] == 'y' && "monkeysaudio"@[6] == 's' && "monkeysaudio"@[7] == 'a'
        && "monkeysaudio"@[8] == 'u' && "monkeysaudio"@[9] == 'd' && "monkeysaudio"@[10] == 'i'
        && "monkeysaudio"@[11] == 'o');
    assert("ac3"@.len() == 3 && "ac3"@[0] == 'a' && "ac3"@[1] == 'c' && "ac3"@[2] == '3');
    assert("eac3"@.len() == 4 && "eac3"@[0] == 'e' && "eac3"@[1] == 'a' && "eac3"@[2] == 'c'
        && "eac3"@[3] == '3');
    assert("ac4"@.len() == 3 && "ac4"@[0] == 'a' && "ac4"@[1] == 'c' && "ac4"@[2] == '4');
    assert("aac"@.len() == 3 && "aac"@[0] == 'a' && "aac"@[1] == 'a' && "aac"@[2] == 'c');
    assert("aac_latm"@.len() == 8 && "aac_latm"@[0] == 'a' && "aac_latm"@[1] == 'a'
        && "aac_latm"@[2] == 'c' && "aac_latm"@[3] == '_' && "aac_latm"@[4] == 'l'
        && "aac_latm"@[5] == 'a' && "aac_latm"@[6] == 't' && "aac_latm"@[7] == 'm');
    assert("opus"@.len() == 4 && "opus"@[0] == 'o' && "opus"@[1] == 'p' && "opus"@[2] == 'u'
        && "opus"@[3] == 's');
    assert("vorbis"@.len() == 6 && "vorbis"@[0] == 'v' && "vorbis"@[1] == 'o' && "vorbis"@[2] == 'r'
        && "vorbis"@[3] == 'b' && "vorbis"@[4] == 'i' && "vorbis"@[5] == 's');
    assert("mp3"@.len() == 3 && "mp3"@[0] == 'm' && "mp3"@[1] == 'p' && "mp3"@[2] == '3');
    assert("mp3float"@.len() == 8 && "mp3float"@[0] == 'm' && "mp3float"@[1] == 'p'
        && "mp3float"@[2] == '3' && "mp3float"@[3] == 'f' && "mp3float"@[4] == 'l'
        && "mp3float"@[5] == 'o' && "mp3float"@[6] == 'a' && "mp3float"@[7] == 't');
    assert("mp2"@.len() == 3 && "mp2"@[0] == 'm' && "mp2"@[1] == 'p' && "mp2"@[2] == '2');
    assert("mp2float"@.len() == 8 && "mp2float"@[0] == 'm' && "mp2float"@[1] == 'p'
        && "mp2float"@[2] == '2' && "mp2float"@[3] == 'f' && "mp2float"@[4] == 'l'
        && "mp2float"@[5] == 'o' && "mp2float"@[6] == 'a' && "mp2float"@[7] == 't');
    assert("wmav1"@.len() == 5 && "wmav1"@[0] == 'w' && "wmav1"@[1] == 'm' && "wmav1"@[2] == 'a'
        && "wmav1"@[3] == 'v' && "wmav1"@[4] == '1');
    assert("wmav2"@.len() == 5 && "wmav2"@[0] == 'w' && "wmav2"@[1] == 'm' && "wmav2"@[2] == 'a'
        && "wmav2"@[3] == 'v' && "wmav2"@[4] == '2');
    assert("wmapro"@.len() == 6 && "wmapro"@[0] == 'w' && "wmapro"@[1] == 'm' && "wmapro"@[2] == 'a'
        && "wmapro"@[3] == 'p' && "wmapro"@[4] == 'r' && "wmapro"@[5] == 'o');
    assert("wmalossless"@.len() == 11 && "wmalossless"@[0] == 'w' && "wmalossless"@[1] == 'm'
        && "wmalossless"@[2] == 'a' && "wmalossless"@[3] == 'l' && "wmalossless"@[4] == 'o'
        && "wmalossless"@[5] == 's' && "wmalossless"@[6] == 's' && "wmalossless"@[7] == 'l'
        && "wmalossless"@[8] == 'e' && "wmalossless"@[9] == 's' && "wmalossless"@[10] == 's');
    assert("dts"@.len() == 3 && "dts"@[0] == 'd' && "dts"@[1] == 't' && "dts"@[2] == 's');
    assert("pcm_"@.len() == 4 && "pcm_"@[0] == 'p' && "pcm_"@[1] == 'c' && "pcm_"@[2] == 'm'
        && "pcm_"@[3] == '_');
    assert("dsd_"@.len() == 4 && "dsd_"@[0] == 'd' && "dsd_"@[1] == 's' && "dsd_"@[2] == 'd'
        && "dsd_"@[3] == '_');
    assert("adpcm_"@.len() == 6 && "adpcm_"@[0] == 'a' && "adpcm_"@[1] == 'd' && "adpcm_"@[2] == 'p'
        && "adpcm_"@[3] == 'c' && "adpcm_"@[4] == 'm' && "adpcm_"@[5] == '_');
    let l = lower(n);
    assert("pcm_"@.is_prefix_of(l) ==> l.len() >= 4 && l[0] == 'p' && l[1] == 'c' && l[2] == 'm'
        && l[3] == '_');
    assert("dsd_"@.is_prefix_of(l) ==> l.len() >= 4 && l[0] == 'd' && l[1] == 's' && l[2] == 'd');
    assert("adpcm_"@.is_prefix_of(l) ==> l.len() >= 6 && l[0] == 'a' && l[1] == 'd' && l[2] == 'p');
}

/// The forms of DTS are told apart by the profile, the richest first.
pub proof fn forms_of_dts_go_by_profile(name: Seq<char>, profile: Seq<char>)
    requires
        lower(name) == "dts"@,
    ensures
        ({
            let p = upper(profile);
            let x = occurs(p, "DTS:X"@) || occurs(p, "DTS-X"@);
            &&& is_audio_codec(AudioCodec::DtsX, Some(name), Some(profile)) <==> x
            &&& is_audio_codec(AudioCodec::DtsHdMa, Some(name), Some(profile)) <==> !x && occurs(
                p,
                "MA"@,
            )
            &&& is_audio_codec(AudioCodec::DtsHdHra, Some(name), Some(profile)) <==> !x && !occurs(
                p,
                "MA"@,
            ) && occurs(p, "HRA"@)
            &&& is_audio_codec(AudioCodec::Dts, Some(name), Some(profile)) <==> !x && !occurs(
                p,
                "MA"@,
            ) && !occurs(p, "HRA"@)
        }),
{
    reveal_strlit("dts");
    reveal_strlit("pcm_");
    reveal_strlit("dsd_");
    reveal_strlit("adpcm_");
    assert("dts"@.len() == 3 && "pcm_"@.len() == 4 && "dsd_"@.len() == 4 && "adpcm_"@.len() == 6);
}

/// A transfer function is known by its names, and by no other.
pub proof fn transfers_have_their_names(n: Seq<char>)
    ensures
        transfer_named(Some(n)) == ColorTransfer::Pq <==> n == "pq"@,
        transfer_named(Some(n)) == ColorTransfer::Hlg <==> n == "hlg"@,
        transfer_named(Some(n)) == ColorTransfer::Bt709 <==> n == "bt.1886"@ || n == "bt.709"@,
        transfer_named(Some(n)) == ColorTransfer::Srgb <==> n == "srgb"@,
        transfer_named(Some(n)) == ColorTransfer::Linear <==> n == "linear"@,
{
    reveal_strlit("pq");
    reveal_strlit("hlg");
    reveal_strlit("bt.1886");
    reveal_strlit("bt.709");
    reveal_strlit("srgb");
    reveal_strlit("linear");
    assert("pq"@.len() == 2 && "pq"@[0] == 'p' && "pq"@[1] == 'q');
    assert("hlg"@.len() == 3 && "hlg"@[0] == 'h' && "hlg"@[1] == 'l' && "hlg"@[2] == 'g');
    assert("bt.1886"@.len() == 7 && "bt.1886"@[0] == 'b' && "bt.1886"@[1] == 't'
        && "bt.1886"@[2] == '.' && "bt.1886"@[3] == '1' && "bt.1886"@[4] == '8'
        && "bt.1886"@[5] == '8' && "bt.1886"@[6] == '6');
    assert("bt.709"@.len() == 6 && "bt.709"@[0] == 'b' && "bt.709"@[1] == 't' && "bt.709"@[2] == '.'
        && "bt.709"@[3] == '7' && "bt.709"@[4] == '0' && "bt.709"@[5] == '9');
    assert("srgb"@.len() == 4 && "srgb"@[0] == 's' && "srgb"@[1] == 'r' && "srgb"@[2] == 'g'
        && "srgb"@[3] == 'b');
    assert("linear"@.len() == 6 && "linear"@[0] == 'l' && "linear"@[1] == 'i' && "linear"@[2] == 'n'
        && "linear"@[3] == 'e' && "linear"@[4] == 'a' && "linear"@[5] == 'r');
}

/// Primaries are known by their names, and by no other.
pub proof fn primaries_have_their_names(n: Seq<char>)
    ensures
        primaries_named(Some(n)) == ColorPrimaries::Bt709 <==> n == "bt.709"@,
        primaries_named(Some(n)) == ColorPrimaries::Bt2020 <==> n == "bt.2020"@,
        primaries_named(Some(n)) == ColorPrimaries::Bt601_525 <==> n == "bt.601-525"@,
        primaries_named(Some(n)) == ColorPrimaries::Bt601_625 <==> n == "bt.601-625"@,
        primaries_named(Some(n)) == ColorPrimaries::DciP3 <==> n == "dci-p3"@,
        primaries_named(Some(n)) == ColorPrimaries::DisplayP3 <==> n == "display-p3"@,
{
    reveal_strlit("bt.709");
    reveal_strlit("bt.2020");
    reveal_strlit("bt.601-525");
    reveal_strlit("bt.601-625");
    reveal_strlit("dci-p3");
    reveal_strlit("display-p3");
    assert("bt.709"@.len() == 6 && "bt.709"@[0] == 'b' && "bt.709"@[1] == 't' && "bt.709"@[2] == '.'
        && "bt.709"@[3] == '7' && "bt.709"@[4] == '0' && "bt.709"@[5] == '9');
    assert("bt.2020"@.len() == 7 && "bt.2020"@[0] == 'b' && "bt.2020"@[1] == 't'
        && "bt.2020"@[2] == '.' && "bt.2020"@[3] == '2' && "bt.2020"@[4] == '0'
        && "bt.2020"@[5] == '2' && "bt.2020"@[6] == '0');
    assert("bt.601-525"@.len() == 10 && "bt.601-525"@[0] == 'b' && "bt.601-525"@[1] == 't'
        && "bt.601-525"@[2] == '.' && "bt.601-525"@[3] == '6' && "bt.601-525"@[4] == '0'
        && "bt.601-525"@[5] == '1' && "bt.601-525"@[6] == '-' && "bt.601-525"@[7] == '5'
        && "bt.601-525"@[8] == '2' && "bt.601-525"@[9] == '5');
    assert("bt.601-625"@.len() == 10 && "bt.601-625"@[0] == 'b' && "bt.601-625"@[1] == 't'
        && "bt.601-625"@[2] == '.' && "bt.601-625"@[3] == '6' && "bt.601-625"@[4] == '0'
        && "bt.601-625"@[5] == '1' && "bt.601-625"@[6] == '-' && "bt.601-625"@[7] == '6'
        && "bt.601-625"@[8] == '2' && "bt.601-625"@[9] == '5');
    assert("dci-p3"@.len() == 6 && "dci-p3"@[0] == 'd' && "dci-p3"@[1] == 'c' && "dci-p3"@[2] == 'i'
        && "dci-p3"@[3] == '-' && "dci-p3"@[4] == 'p' && "dci-p3"@[5] == '3');
    assert("display-p3"@.len() == 10 && "display-p3"@[0] == 'd' && "display-p3"@[1] == 'i'
        && "display-p3"@[2] == 's' && "display-p3"@[3] == 'p' && "display-p3"@[4] == 'l'
        && "display-p3"@[5] == 'a' && "display-p3"@[6] == 'y' && "display-p3"@[7] == '-'
        && "display-p3"@[8] == 'p' && "display-p3"@[9] == '3');
}

/// A matrix is known by its name, and by no other.
pub proof fn matrices_have_their_names(n: Seq<char>)
    ensures
        matrix_named(Some(n)) == ColorMatrix::Bt709 <==> n == "bt.709"@,
        matrix_named(Some(n)) == ColorMatrix::Bt601 <==> n == "bt.601"@,
        matrix_named(Some(n)) == ColorMatrix::Bt2020Ncl <==> n == "bt.2020-ncl"@,
        matrix_named(Some(n)) == ColorMatrix::Bt2020Cl <==> n == "bt.2020-cl"@,
        matrix_named(Some(n)) == ColorMatrix::YCgCo <==> n == "ycgco"@,
        matrix_named(Some(n)) == ColorMatrix::IcTcP <==> n == "ictcp"@,
{
    reveal_strlit("bt.709");
    reveal_strlit("bt.601");
    reveal_strlit("bt.2020-ncl");
    reveal_strlit("bt.2020-cl");
    reveal_strlit("ycgco");
    reveal_strlit("ictcp");
    assert("bt.709"@.len() == 6 && "bt.709"@[0] == 'b' && "bt.709"@[1] == 't' && "bt.709"@[2] == '.'
        && "bt.709"@[3] == '7' && "bt.709"@[4] == '0' && "bt.709"@[5] == '9');
    assert("bt.601"@.len() == 6 && "bt.601"@[0] == 'b' && "bt.601"@[1] == 't' && "bt.601"@[2] == '.'
        && "bt.601"@[3] == '6' && "bt.601"@[4] == '0' && "bt.601"@[5] == '1');
    assert("bt.2020-ncl"@.len() == 11 && "bt.2020-ncl"@[0] == 'b' && "bt.2020-ncl"@[1] == 't'
        && "bt.2020-ncl"@[2] == '.' && "bt.2020-ncl"@[3] == '2' && "bt.2020-ncl"@[4] == '0'
        && "bt.2020-ncl"@[5] == '2' && "bt.2020-ncl"@[6] == '0' && "bt.2020-ncl"@[7] == '-'
        && "bt.2020-ncl"@[8] == 'n' && "bt.2020-ncl"@[9] == 'c' && "bt.2020-ncl"@[10] == 'l');
    assert("bt.2020-cl"@.len() == 10 && "bt.2020-cl"@[0] == 'b' && "bt.2020-cl"@[1] == 't'
        && "bt.2020-cl"@[2] == '.' && "bt.2020-cl"@[3] == '2' && "bt.2020-cl"@[4] == '0'
        && "bt.2020-cl"@[5] == '2' && "bt.2020-cl"@[6] == '0' && "bt.2020-cl"@[7] == '-'
        && "bt.2020-cl"@[8] == 'c' && "bt.2020-cl"@[9] == 'l');
    assert("ycgco"@.len() == 5 && "ycgco"@[0] == 'y' && "ycgco"@[1] == 'c' && "ycgco"@[2] == 'g'
        && "ycgco"@[3] == 'c' && "ycgco"@[4] == 'o');
    assert("ictcp"@.len() == 5 && "ictcp"@[0] == 'i' && "ictcp"@[1] == 'c' && "ictcp"@[2] == 't'
        && "ictcp"@[3] == 'c' && "ictcp"@[4] == 'p');
}

/// A format that names Matroska is Matroska even where it names WebM too; one of the MP4 family is MP4,
/// one that names the transport stream is that and no program stream.
pub proof fn containers_go_by_the_names_of_the_format(f: Seq<char>)
    ensures
        ({
            let l = lower(f);
            let c = container_of_format(Some(f));
            let mkv = holds_name(l, "matroska"@);
            let webm = holds_name(l, "webm"@);
            let mp4 = holds_name(l, "mp4"@) || holds_name(l, "mov"@) || holds_name(l, "m4a"@);
            let ts = holds_name(l, "mpegts"@);
            let rest = !mkv && !webm && !mp4 && !ts;
            &&& c == Some(Container::Matroska) <==> mkv
            &&& c == Some(Container::WebM) <==> webm && !mkv
            &&& c == Some(Container::Mp4) <==> mp4 && !mkv && !webm
            &&& c == Some(Container::MpegTs) <==> ts && !mkv && !webm && !mp4
            &&& c == Some(Container::MpegPs) <==> rest && holds_name(l, "mpeg"@)
            &&& c == Some(Container::Avi) ==> holds_name(l, "avi"@)
            &&& c == Some(Container::Asf) ==> holds_name(l, "asf"@)
            &&& c == Some(Container::Flv) ==> holds_name(l, "flv"@)
            &&& c == Some(Container::Ogg) ==> holds_name(l, "ogg"@)
            &&& c is None ==> rest && !holds_name(l, "avi"@) && !holds_name(l, "asf"@)
                && !holds_name(l, "flv"@) && !holds_name(l, "ogg"@)
        }),
        container_of_format(None) is None,
{
}

/// What is above one half and finite is above zero.
proof fn above_half_is_positive(d: Measure)
    requires
        d.greater(one_half()),
        d is Finite,
    ensures
        !(d->Finite_negative),
        d->mantissa > 0,
{
    let m = d->mantissa as int;
    let e = d->exponent as int;
    crate::binary64::up_is_positive(e + 1);
    let u = crate::binary64::up(e + 1) as int;
    let w = crate::binary64::down(e + 1) as int;
    let x = if d->Finite_negative {
        -m
    } else {
        m
    };
    assert(e - (-1) == e + 1);
    assert(x * u > 1 * w);
    assert(x > 0) by (nonlinear_arith)
        requires
            x * u > 1 * w,
            u > 0,
            w > 0,
    ;
}

/// The rate of a file is its bits over its time: where it lasts a second for every bit, it is one.
pub proof fn rates_are_bits_over_time(size: u64, d: Measure)
    requires
        d == nearest(size as nat, 1).times(eight()),
        d.greater(one_half()),
        d is Finite,
    ensures
        overall_rate(size, Some(d)) == Some(1u64),
{
    above_half_is_positive(d);
    let m = d->mantissa;
    let e = d->exponent;
    crate::binary64::whole_numbers_multiply(m, 1, e);
    assert(d == (Measure::Finite { negative: false, mantissa: m, exponent: e }));
    let one = Measure::Finite { negative: false, mantissa: 0x10_0000_0000_0000, exponent: -52i32 };
    assert(d.over(d) == one);
    lemma2_to64_rest();
    assert(0x10_0000_0000_0000nat / pow2(52) == 1);
    assert(one.whole_part() == 1);
}

/// Nothing is said of a file that lasts no more than half a second, or whose duration is not known.
pub proof fn short_files_have_no_rate(size: u64, d: Measure)
    requires
        !d.greater(one_half()),
    ensures
        overall_rate(size, None) is None,
        overall_rate(size, Some(d)) is None,
        overall_rate(size, Some(one_half())) is None,
{
    crate::binary64::quantities_are_ordered(one_half(), one_half(), 0, 0);
}

/// What is kept as red, green and blue loses no colour, and transparency changes nothing about it.
pub proof fn transparency_does_not_change_the_sampling(rest: Seq<char>)
    ensures
        chroma_of(Some("gbr"@ + rest)) == ChromaSubsampling::Yuv444,
        chroma_of(Some("yuva444"@ + rest)) == chroma_of(Some("yuv444"@ + rest)),
        chroma_of(Some("yuva422"@ + rest)) == chroma_of(Some("yuv422"@ + rest)),
{
    reveal_strlit("yuv444");
    reveal_strlit("yuva444");
    reveal_strlit("gbr");
    reveal_strlit("yuv422");
    reveal_strlit("yuva422");
    formats_sample_as_they_say(rest);
    assert("gbr"@ =~= ("gbr"@ + rest).subrange(0, 3));
    assert("yuva444"@ =~= ("yuva444"@ + rest).subrange(0, 7));
    assert("yuva422"@ =~= ("yuva422"@ + rest).subrange(0, 7));
    let b = "yuva422"@ + rest;
    assert(b[0] == 'y' && b[3] == 'a' && b[5] == '2');
    assert("yuv444"@[3] == '4' && "yuva444"@[5] == '4' && "gbr"@[0] == 'g');
    prefix_letters("yuv444"@, b, 3);
    prefix_letters("yuva444"@, b, 5);
    prefix_letters("gbr"@, b, 0);
}

} // verus!
