//! The library scan: what each file is, which files count, and in which order they play.
//!
//! Content decides, not the extension. An extension that disagrees with the content is recorded
//! rather than obeyed. What the file system holds is handed in as a tree of plain values.
use vstd::prelude::*;
use vstd::string::*;

use crate::media::Container;
use crate::paths::{
    extension,
    extension_of,
    file_name,
    name_of,
    path_lt,
    path_lt_is_order,
    path_order_is_weak,
};
use crate::text::{
    chars_of,
    dec,
    dec_text,
    digits_value,
    lex_lt,
    lex_lt_is_total_order,
    lower,
    lower_text,
    opt_view,
    owned,
    pad0,
    padded_text,
    pair_views,
    same,
    texts_are_ordered_where_they_differ,
    views,
};

verus! {

/// What kind of file it is.
#[derive(Debug, Clone, Copy, PartialEq, Eq, PartialOrd, Ord, Structural)]
pub enum MediaKind {
    Video,
    Audio,
    /// A sidecar subtitle. Not played on its own.
    Subtitle,
    /// Read as media by neither content nor extension.
    Other,
}

/// How sure a guess at a container is, from the least sure on.
#[derive(Debug, Clone, Copy, PartialEq, Eq, PartialOrd, Ord, Structural)]
pub enum Confidence {
    /// Nothing matched; the demuxer may try it all the same.
    Weak,
    Probable,
    Certain,
}

impl Confidence {
    /// The rank of a confidence; a surer one ranks higher.
    pub open spec fn rank(self) -> int {
        match self {
            Confidence::Weak => 0,
            Confidence::Probable => 1,
            Confidence::Certain => 2,
        }
    }

    fn ranked(self) -> (r: u8)
        ensures
            r == self.rank(),
    {
        match self {
            Confidence::Weak => 0,
            Confidence::Probable => 1,
            Confidence::Certain => 2,
        }
    }

    /// The name that reports show.
    pub open spec fn shown(self) -> Seq<char> {
        match self {
            Confidence::Weak => "Weak"@,
            Confidence::Probable => "Probable"@,
            Confidence::Certain => "Certain"@,
        }
    }

    /// The name that reports show.
    pub fn name(self) -> (r: String)
        ensures
            r@ == self.shown(),
    {
        match self {
            Confidence::Weak => owned("Weak"),
            Confidence::Probable => owned("Probable"),
            Confidence::Certain => owned("Certain"),
        }
    }
}

/// A container that a file's first bytes speak for.
#[derive(Debug, Clone, PartialEq)]
pub struct Candidate {
    pub container: Container,
    pub confidence: Confidence,
    pub evidence: String,
}

/// Which episode a name speaks of.
#[derive(Debug, Clone, PartialEq)]
pub enum EpisodeSpec {
    SeasonEpisode { season: u16, episodes: Vec<u16> },
    SeasonOnly { season: u16 },
    Absolute(Vec<u32>),
    Date { year: u16, month: u8, day: u8 },
}

/// What a file's name says about it.
#[derive(Debug, Clone, PartialEq)]
pub struct ParsedName {
    pub title: String,
    pub year: Option<u16>,
    pub episode: Option<EpisodeSpec>,
    pub part: Option<u32>,
    pub is_sample: bool,
}

/// Which episode a name speaks of.
pub enum Episode {
    SeasonEpisode { season: u16, episodes: Seq<u16> },
    SeasonOnly { season: u16 },
    Absolute(Seq<u32>),
    Date { year: u16, month: u8, day: u8 },
}

/// What a file's name says about it.
pub struct Name {
    pub title: Seq<char>,
    pub year: Option<u16>,
    pub episode: Option<Episode>,
    pub part: Option<u32>,
    pub is_sample: bool,
}

/// The content of an episode.
pub open spec fn episode_view(e: Option<EpisodeSpec>) -> Option<Episode> {
    match e {
        Some(EpisodeSpec::SeasonEpisode { season, episodes }) => Some(
            Episode::SeasonEpisode { season, episodes: episodes@ },
        ),
        Some(EpisodeSpec::SeasonOnly { season }) => Some(Episode::SeasonOnly { season }),
        Some(EpisodeSpec::Absolute(n)) => Some(Episode::Absolute(n@)),
        Some(EpisodeSpec::Date { year, month, day }) => Some(Episode::Date { year, month, day }),
        None => None,
    }
}

impl ParsedName {
    /// What the name says.
    pub open spec fn content(self) -> Name {
        Name {
            title: self.title@,
            year: self.year,
            episode: episode_view(self.episode),
            part: self.part,
            is_sample: self.is_sample,
        }
    }

    /// A copy.
    pub fn copy(&self) -> (r: Self)
        ensures
            r.content() == self.content(),
    {
        let episode = match &self.episode {
            Some(EpisodeSpec::SeasonEpisode { season, episodes }) => {
                let mut all: Vec<u16> = Vec::new();
                let mut i: usize = 0;
                while i < episodes.len()
                    invariant
                        i <= episodes@.len(),
                        all@ == episodes@.take(i as int),
                    decreases episodes@.len() - i,
                {
                    all.push(episodes[i]);
                    i += 1;
                    assert(all@ =~= episodes@.take(i as int));
                }
                assert(all@ =~= episodes@);
                Some(EpisodeSpec::SeasonEpisode { season: *season, episodes: all })
            },
            Some(EpisodeSpec::SeasonOnly { season }) => Some(
                EpisodeSpec::SeasonOnly { season: *season },
            ),
            Some(EpisodeSpec::Absolute(n)) => {
                let mut all: Vec<u32> = Vec::new();
                let mut i: usize = 0;
                while i < n.len()
                    invariant
                        i <= n@.len(),
                        all@ == n@.take(i as int),
                    decreases n@.len() - i,
                {
                    all.push(n[i]);
                    i += 1;
                    assert(all@ =~= n@.take(i as int));
                }
                assert(all@ =~= n@);
                Some(EpisodeSpec::Absolute(all))
            },
            Some(EpisodeSpec::Date { year, month, day }) => Some(
                EpisodeSpec::Date { year: *year, month: *month, day: *day },
            ),
            None => None,
        };
        ParsedName {
            title: self.title.clone(),
            year: self.year,
            episode,
            part: self.part,
            is_sample: self.is_sample,
        }
    }
}

/// A file of the library.
#[derive(Debug, Clone)]
pub struct ScannedFile {
    pub path: String,
    pub size: u64,
    pub extension: Option<String>,
    pub kind: MediaKind,
    /// Best container guess from the file's own bytes, if any signature matched.
    pub container: Option<Container>,
    pub confidence: Option<Confidence>,
    /// Why the container was chosen.
    pub evidence: Option<String>,
    /// The extension claims one container and the bytes say another.
    pub extension_mismatch: bool,
    /// No signature matched at all. Not a refusal: the player still tries.
    pub unidentified: bool,
    pub parsed: ParsedName,
}

/// What is known of a file of the library.
pub struct Scanned {
    pub path: Seq<char>,
    pub size: u64,
    pub extension: Option<Seq<char>>,
    pub kind: MediaKind,
    pub container: Option<Container>,
    pub confidence: Option<Confidence>,
    pub evidence: Option<Seq<char>>,
    pub extension_mismatch: bool,
    pub unidentified: bool,
    pub parsed: Name,
}

impl ScannedFile {
    /// What is known of the file.
    pub open spec fn content(self) -> Scanned {
        Scanned {
            path: self.path@,
            size: self.size,
            extension: opt_view(self.extension),
            kind: self.kind,
            container: self.container,
            confidence: self.confidence,
            evidence: opt_view(self.evidence),
            extension_mismatch: self.extension_mismatch,
            unidentified: self.unidentified,
            parsed: self.parsed.content(),
        }
    }
}

impl Scanned {
    /// The file's name; empty where the path names none.
    pub open spec fn file_name(self) -> Seq<char> {
        match name_of(self.path) {
            Some(n) => n,
            None => Seq::empty(),
        }
    }

    /// A mismatch takes a container that the bytes spoke for.
    pub open spec fn wf(self) -> bool {
        self.extension_mismatch ==> self.container is Some
    }

    /// Whether the file is played.
    pub open spec fn playable(self) -> bool {
        self.kind == MediaKind::Video || self.kind == MediaKind::Audio
    }

    /// The title that stands for the file: the parsed one, else the file's name.
    pub open spec fn title(self) -> Seq<char> {
        if self.parsed.title.len() == 0 {
            self.file_name()
        } else {
            self.parsed.title
        }
    }
}

/// `E` and a number of at least two digits, for each episode, with hyphens between them.
pub open spec fn episode_list(episodes: Seq<u16>) -> Seq<char>
    decreases episodes.len(),
{
    if episodes.len() == 0 {
        Seq::empty()
    } else {
        let one = "E"@ + pad0(dec(episodes.last() as nat), 2);
        if episodes.len() == 1 {
            one
        } else {
            episode_list(episodes.drop_last()) + "-"@ + one
        }
    }
}

/// What a label says of the episode, after the title.
pub open spec fn episode_suffix(e: Option<Episode>) -> Seq<char> {
    match e {
        Some(Episode::SeasonEpisode { season, episodes }) => " S"@ + pad0(dec(season as nat), 2)
            + episode_list(episodes),
        Some(Episode::SeasonOnly { season }) => " S"@ + pad0(dec(season as nat), 2),
        Some(Episode::Absolute(n)) => if n.len() > 0 {
            " #"@ + dec(n[0] as nat)
        } else {
            Seq::empty()
        },
        Some(Episode::Date { year, month, day }) => " "@ + dec(year as nat) + "-"@ + pad0(
            dec(month as nat),
            2,
        ) + "-"@ + pad0(dec(day as nat), 2),
        None => Seq::empty(),
    }
}

/// What a label says of the year, after the title.
pub open spec fn year_suffix(year: Option<u16>) -> Seq<char> {
    match year {
        Some(y) => " ("@ + dec(y as nat) + ")"@,
        None => Seq::empty(),
    }
}

/// A short label: the title, the year, the episode numbering. A file without a title goes by its
/// name.
pub open spec fn label_of(f: Scanned) -> Seq<char> {
    if f.parsed.title.len() == 0 {
        f.file_name()
    } else {
        f.parsed.title + year_suffix(f.parsed.year) + episode_suffix(f.parsed.episode)
    }
}

fn episode_list_text(episodes: &Vec<u16>) -> (r: String)
    ensures
        r@ == episode_list(episodes@),
{
    let mut out = String::new();
    let mut i: usize = 0;
    assert(episodes@.take(0) =~= Seq::<u16>::empty());
    while i < episodes.len()
        invariant
            i <= episodes@.len(),
            out@ == episode_list(episodes@.take(i as int)),
        decreases episodes@.len() - i,
    {
        proof {
            let next = episodes@.take(i as int + 1);
            assert(next.drop_last() =~= episodes@.take(i as int));
            assert(next.last() == episodes@[i as int]);
        }
        let mut one = owned("E");
        one.append(padded_text(episodes[i] as u128, 2).as_str());
        if i > 0 {
            out.append("-");
            out.append(one.as_str());
        } else {
            out = one;
        }
        i += 1;
    }
    assert(episodes@.take(i as int) =~= episodes@);
    out
}

fn episode_suffix_text(e: &Option<EpisodeSpec>) -> (r: String)
    ensures
        r@ == episode_suffix(episode_view(*e)),
{
    match e {
        Some(EpisodeSpec::SeasonEpisode { season, episodes }) => {
            let mut s = owned(" S");
            s.append(padded_text(*season as u128, 2).as_str());
            s.append(episode_list_text(episodes).as_str());
            s
        },
        Some(EpisodeSpec::SeasonOnly { season }) => {
            let mut s = owned(" S");
            s.append(padded_text(*season as u128, 2).as_str());
            s
        },
        Some(EpisodeSpec::Absolute(n)) => {
            if n.len() > 0 {
                let mut s = owned(" #");
                s.append(dec_text(n[0] as u128).as_str());
                s
            } else {
                String::new()
            }
        },
        Some(EpisodeSpec::Date { year, month, day }) => {
            let mut s = owned(" ");
            s.append(dec_text(*year as u128).as_str());
            s.append("-");
            s.append(padded_text(*month as u128, 2).as_str());
            s.append("-");
            s.append(padded_text(*day as u128, 2).as_str());
            s
        },
        None => String::new(),
    }
}

/// What a label says of the year, after the title.
pub(crate) fn year_suffix_text(year: Option<u16>) -> (r: String)
    ensures
        r@ == year_suffix(year),
{
    match year {
        Some(y) => {
            let mut s = owned(" (");
            s.append(dec_text(y as u128).as_str());
            s.append(")");
            s
        },
        None => String::new(),
    }
}

/// The notes worth showing next to a file, in order.
pub open spec fn notes_of(f: Scanned) -> Seq<Seq<char>> {
    let mismatch = if f.extension_mismatch {
        seq![
            "extension says ."@ + (match f.extension {
                Some(e) => e,
                None => "?"@,
            }) + " but the bytes are "@ + f.container->0.shown(),
        ]
    } else {
        Seq::empty()
    };
    let unknown = if f.unidentified && f.kind != MediaKind::Subtitle {
        mismatch.push("no container signature matched; the player will still try it"@)
    } else {
        mismatch
    };
    let sample = if f.parsed.is_sample {
        unknown.push("looks like a sample clip"@)
    } else {
        unknown
    };
    let untitled = if f.parsed.title.len() == 0 {
        sample.push("no title could be parsed from the name"@)
    } else {
        sample
    };
    let small = if f.kind == MediaKind::Video && 0 < f.size < 1_000_000 {
        untitled.push("only "@ + dec((f.size / 1024) as nat) + " KiB — likely truncated or a stub"@)
    } else {
        untitled
    };
    if f.size == 0 {
        small.push("zero bytes"@)
    } else {
        small
    }
}

impl ScannedFile {
    /// The file's name; empty where the path names none.
    pub fn file_name(&self) -> (r: String)
        ensures
            r@ == self.content().file_name(),
    {
        match file_name(self.path.as_str()) {
            Some(n) => n,
            None => String::new(),
        }
    }

    /// Whether the file is played.
    pub fn is_playable(&self) -> (r: bool)
        ensures
            r == self.content().playable(),
    {
        self.kind == MediaKind::Video || self.kind == MediaKind::Audio
    }

    /// A short label: the parsed title, with episode numbering when present.
    pub fn label(&self) -> (r: String)
        ensures
            r@ == label_of(self.content()),
    {
        if self.parsed.title.as_str().is_empty() {
            return self.file_name();
        }
        let mut s = self.parsed.title.clone();
        s.append(year_suffix_text(self.parsed.year).as_str());
        s.append(episode_suffix_text(&self.parsed.episode).as_str());
        s
    }

    /// The notes worth showing next to this file.
    ///
    /// A mismatch is only ever recorded of a file whose container is known.
    pub fn notes(&self) -> (r: Vec<String>)
        requires
            self.content().wf(),
        ensures
            views(r@) == notes_of(self.content()),
    {
        let mut n: Vec<String> = Vec::new();
        let ghost mut seen: Seq<Seq<char>> = Seq::empty();
        if self.extension_mismatch {
            match self.container {
                Some(c) => {
                    let mut s = owned("extension says .");
                    match &self.extension {
                        Some(e) => s.append(e.as_str()),
                        None => s.append("?"),
                    }
                    s.append(" but the bytes are ");
                    s.append(c.name().as_str());
                    proof {
                        seen = seen.push(s@);
                    }
                    n.push(s);
                },
                None => {},
            }
        }
        assert(views(n@) =~= seen);
        if self.unidentified && self.kind != MediaKind::Subtitle {
            n.push(owned("no container signature matched; the player will still try it"));
            proof {
                seen = seen.push("no container signature matched; the player will still try it"@);
            }
        }
        assert(views(n@) =~= seen);
        if self.parsed.is_sample {
            n.push(owned("looks like a sample clip"));
            proof {
                seen = seen.push("looks like a sample clip"@);
            }
        }
        assert(views(n@) =~= seen);
        if self.parsed.title.as_str().is_empty() {
            n.push(owned("no title could be parsed from the name"));
            proof {
                seen = seen.push("no title could be parsed from the name"@);
            }
        }
        assert(views(n@) =~= seen);
        if self.kind == MediaKind::Video && self.size > 0 && self.size < 1_000_000 {
            let mut s = owned("only ");
            s.append(dec_text((self.size / 1024) as u128).as_str());
            s.append(" KiB — likely truncated or a stub");
            proof {
                seen = seen.push(s@);
            }
            n.push(s);
        }
        assert(views(n@) =~= seen);
        if self.size == 0 {
            n.push(owned("zero bytes"));
            proof {
                seen = seen.push("zero bytes"@);
            }
        }
        assert(views(n@) =~= seen);
        assert(seen =~= notes_of(self.content()));
        n
    }
}

/// The extensions of sidecar subtitles.
pub open spec fn is_subtitle_ext(e: Seq<char>) -> bool {
    e == "srt"@
        || e == "ass"@
        || e == "ssa"@
        || e == "sub"@
        || e == "idx"@
        || e == "vtt"@
        || e == "sup"@
        || e == "smi"@
}

fn subtitle_ext(e: &str) -> (r: bool)
    ensures
        r == is_subtitle_ext(e@),
{
    same(e, "srt")
        || same(e, "ass")
        || same(e, "ssa")
        || same(e, "sub")
        || same(e, "idx")
        || same(e, "vtt")
        || same(e, "sup")
        || same(e, "smi")
}

/// The extensions of audio-only files.
pub open spec fn is_audio_ext(e: Seq<char>) -> bool {
    e == "mp3"@
        || e == "flac"@
        || e == "wav"@
        || e == "m4a"@
        || e == "aac"@
        || e == "ogg"@
        || e == "opus"@
        || e == "wma"@
        || e == "alac"@
        || e == "aiff"@
        || e == "ape"@
        || e == "dsf"@
        || e == "wv"@
}

fn audio_ext(e: &str) -> (r: bool)
    ensures
        r == is_audio_ext(e@),
{
    same(e, "mp3")
        || same(e, "flac")
        || same(e, "wav")
        || same(e, "m4a")
        || same(e, "aac")
        || same(e, "ogg")
        || same(e, "opus")
        || same(e, "wma")
        || same(e, "alac")
        || same(e, "aiff")
        || same(e, "ape")
        || same(e, "dsf")
        || same(e, "wv")
}

/// The extensions worth opening even when the bytes are unrecognised: refusing them would deny the
/// player the chance to try.
pub open spec fn is_video_ext(e: Seq<char>) -> bool {
    e == "mkv"@
        || e == "mp4"@
        || e == "m4v"@
        || e == "avi"@
        || e == "mov"@
        || e == "wmv"@
        || e == "flv"@
        || e == "webm"@
        || e == "ts"@
        || e == "m2ts"@
        || e == "mts"@
        || e == "mpg"@
        || e == "mpeg"@
        || e == "vob"@
        || e == "ogv"@
        || e == "3gp"@
        || e == "divx"@
        || e == "rmvb"@
        || e == "asf"@
        || e == "m2v"@
        || e == "mxf"@
        || e == "iso"@
}

fn video_ext(e: &str) -> (r: bool)
    ensures
        r == is_video_ext(e@),
{
    same(e, "mkv")
        || same(e, "mp4")
        || same(e, "m4v")
        || same(e, "avi")
        || same(e, "mov")
        || same(e, "wmv")
        || same(e, "flv")
        || same(e, "webm")
        || same(e, "ts")
        || same(e, "m2ts")
        || same(e, "mts")
        || same(e, "mpg")
        || same(e, "mpeg")
        || same(e, "vob")
        || same(e, "ogv")
        || same(e, "3gp")
        || same(e, "divx")
        || same(e, "rmvb")
        || same(e, "asf")
        || same(e, "m2v")
        || same(e, "mxf")
        || same(e, "iso")
}

/// The directories never worth descending into, at any depth and in any letter case.
pub open spec fn is_junk_dir(name: Seq<char>) -> bool {
    lower(name) == lower(".git"@)
        || lower(name) == lower(".svn"@)
        || lower(name) == lower("node_modules"@)
        || lower(name) == lower("$RECYCLE.BIN"@)
        || lower(name) == lower("System Volume Information"@)
        || lower(name) == lower(".Trash"@)
        || lower(name) == lower(".Trashes"@)
        || lower(name) == lower("@eaDir"@)
        || lower(name) == lower("lost+found"@)
        || lower(name) == lower("target"@)
}

/// Whether a walk goes into the directory `name`: neither junk nor hidden.
pub open spec fn enters(name: Seq<char>) -> bool {
    !is_junk_dir(name) && !hidden(name)
}

/// Whether a name begins with a dot.
pub open spec fn hidden(name: Seq<char>) -> bool {
    name.len() > 0 && name[0] == '.'
}

fn is_hidden(name: &str) -> (r: bool)
    ensures
        r == hidden(name@),
{
    let chars = chars_of(name);
    chars.len() > 0 && chars[0] == '.'
}

/// Whether a walk goes into the directory `name`.
pub fn enters_dir(name: &str) -> (r: bool)
    ensures
        r == enters(name@),
{
    let low = lower_text(name);
    let junk = same(low.as_str(), lower_text(".git").as_str())
        || same(low.as_str(), lower_text(".svn").as_str())
        || same(low.as_str(), lower_text("node_modules").as_str())
        || same(low.as_str(), lower_text("$RECYCLE.BIN").as_str())
        || same(low.as_str(), lower_text("System Volume Information").as_str())
        || same(low.as_str(), lower_text(".Trash").as_str())
        || same(low.as_str(), lower_text(".Trashes").as_str())
        || same(low.as_str(), lower_text("@eaDir").as_str())
        || same(low.as_str(), lower_text("lost+found").as_str())
        || same(low.as_str(), lower_text("target").as_str());
    !junk && !is_hidden(name)
}

/// The container that an extension implies. Only unambiguous extensions are listed.
pub open spec fn implied_container(ext: Seq<char>) -> Option<Container> {
    if ext == "mkv"@ {
        Some(Container::Matroska)
    } else if ext == "webm"@ {
        Some(Container::WebM)
    } else if ext == "mp4"@ || ext == "m4v"@ || ext == "mov"@ {
        Some(Container::Mp4)
    } else if ext == "avi"@ {
        Some(Container::Avi)
    } else if ext == "wmv"@ || ext == "asf"@ {
        Some(Container::Asf)
    } else if ext == "flv"@ {
        Some(Container::Flv)
    } else if ext == "ogv"@ {
        Some(Container::Ogg)
    } else {
        None
    }
}

/// The container that an extension implies.
pub fn container_for_ext(ext: &str) -> (r: Option<Container>)
    ensures
        r == implied_container(ext@),
{
    if same(ext, "mkv") {
        Some(Container::Matroska)
    } else if same(ext, "webm") {
        Some(Container::WebM)
    } else if same(ext, "mp4") || same(ext, "m4v") || same(ext, "mov") {
        Some(Container::Mp4)
    } else if same(ext, "avi") {
        Some(Container::Avi)
    } else if same(ext, "wmv") || same(ext, "asf") {
        Some(Container::Asf)
    } else if same(ext, "flv") {
        Some(Container::Flv)
    } else if same(ext, "ogv") {
        Some(Container::Ogg)
    } else {
        None
    }
}

/// Whether one demuxer opens both containers: they are the same, both ISO media files, or both of
/// the Matroska family.
pub open spec fn one_family(a: Container, b: Container) -> bool {
    a == b || ((a == Container::Mp4 || a == Container::FragmentedMp4) && (b == Container::Mp4 || b
        == Container::FragmentedMp4)) || ((a == Container::Matroska || a == Container::WebM) && (b
        == Container::Matroska || b == Container::WebM))
}

/// Whether a sniffed container and an implied one describe the same file.
pub fn same_family(a: Container, b: Container) -> (r: bool)
    ensures
        r == one_family(a, b),
{
    a == b || ((a == Container::Mp4 || a == Container::FragmentedMp4) && (b == Container::Mp4 || b
        == Container::FragmentedMp4)) || ((a == Container::Matroska || a == Container::WebM) && (b
        == Container::Matroska || b == Container::WebM))
}

/// The index of the surest candidate that is more than a fallback, of equally sure ones the last;
/// -1 when there is none.
pub open spec fn surest(c: Seq<Candidate>) -> int
    decreases c.len(),
{
    if c.len() == 0 {
        -1
    } else {
        let rest = surest(c.drop_last());
        if c.last().confidence != Confidence::Weak && (rest < 0 || c.last().confidence.rank()
            >= c[rest].confidence.rank()) {
            c.len() - 1
        } else {
            rest
        }
    }
}

proof fn surest_bounds(c: Seq<Candidate>)
    ensures
        -1 <= surest(c) < c.len(),
        surest(c) >= 0 ==> c[surest(c)].confidence != Confidence::Weak,
    decreases c.len(),
{
    if c.len() > 0 {
        surest_bounds(c.drop_last());
    }
}

fn surest_of(c: &Vec<Candidate>) -> (r: Option<usize>)
    ensures
        match r {
            Some(i) => i == surest(c@) && i < c@.len(),
            None => surest(c@) == -1,
        },
{
    let mut best: Option<usize> = None;
    let mut i: usize = 0;
    assert(c@.take(0) =~= Seq::<Candidate>::empty());
    while i < c.len()
        invariant
            i <= c@.len(),
            match best {
                Some(b) => b == surest(c@.take(i as int)) && b < i,
                None => surest(c@.take(i as int)) == -1,
            },
        decreases c@.len() - i,
    {
        proof {
            let part = c@.take(i as int + 1);
            assert(part.drop_last() =~= c@.take(i as int));
            assert(part.last() == c@[i as int]);
            surest_bounds(c@.take(i as int));
        }
        let rank: u8 = c[i].confidence.ranked();
        if rank > 0 {
            match best {
                Some(b) => {
                    assert(c@.take(i as int)[b as int] == c@[b as int]);
                    if rank >= c[b].confidence.ranked() {
                        best = Some(i);
                    }
                },
                None => {
                    best = Some(i);
                },
            }
        }
        i += 1;
    }
    assert(c@.take(i as int) =~= c@);
    best
}

/// What a file is, from its path, size and parsed name and from the candidates that its first bytes
/// speak for. The bytes of a subtitle are not asked.
pub open spec fn classified(path: Seq<char>, size: u64, parsed: Name, seen: Seq<Candidate>) -> Scanned {
    let ext = match extension_of(path) {
        Some(e) => Some(lower(e)),
        None => None,
    };
    let subtitle = ext is Some && is_subtitle_ext(ext->0);
    let best = if subtitle {
        -1
    } else {
        surest(seen)
    };
    let container = if best >= 0 {
        Some(seen[best].container)
    } else {
        None
    };
    Scanned {
        path,
        size,
        extension: ext,
        kind: if subtitle {
            MediaKind::Subtitle
        } else if ext is Some && is_audio_ext(ext->0) {
            MediaKind::Audio
        } else if best >= 0 || (ext is Some && is_video_ext(ext->0)) {
            MediaKind::Video
        } else {
            MediaKind::Other
        },
        container,
        confidence: if best >= 0 {
            Some(seen[best].confidence)
        } else {
            None
        },
        evidence: if best >= 0 {
            Some(seen[best].evidence@)
        } else {
            None
        },
        extension_mismatch: best >= 0 && ext is Some && implied_container(ext->0) is Some
            && !one_family(seen[best].container, implied_container(ext->0)->0),
        unidentified: best < 0,
        parsed,
    }
}

/// The extension of a path in lower case.
pub fn lower_ext(path: &str) -> (r: Option<String>)
    ensures
        opt_view(r) == (match extension_of(path@) {
            Some(e) => Some(lower(e)),
            None => None::<Seq<char>>,
        }),
{
    match extension(path) {
        Some(e) => Some(lower_text(e.as_str())),
        None => None,
    }
}

/// Whether the first bytes of a file are worth reading: a subtitle has no container to recognise.
pub fn wants_sniffing(path: &str) -> (r: bool)
    ensures
        r == !(extension_of(path@) is Some && is_subtitle_ext(lower(extension_of(path@)->0))),
{
    match lower_ext(path) {
        Some(e) => !subtitle_ext(e.as_str()),
        None => true,
    }
}

/// What a file is.
pub fn classify(path: &str, size: u64, parsed: ParsedName, candidates: &Vec<Candidate>) -> (r:
    ScannedFile)
    ensures
        r.content() == classified(path@, size, parsed.content(), candidates@),
        r.content().wf(),
{
    let ext = lower_ext(path);
    let (is_subtitle, is_audio, is_video, claimed) = match &ext {
        Some(e) => (
            subtitle_ext(e.as_str()),
            audio_ext(e.as_str()),
            video_ext(e.as_str()),
            container_for_ext(e.as_str()),
        ),
        None => (false, false, false, None),
    };
    let best = if is_subtitle {
        None
    } else {
        surest_of(candidates)
    };
    let kind = if is_subtitle {
        MediaKind::Subtitle
    } else if is_audio {
        MediaKind::Audio
    } else if best.is_some() || is_video {
        MediaKind::Video
    } else {
        MediaKind::Other
    };
    match best {
        Some(b) => {
            let sniffed = candidates[b].container;
            let extension_mismatch = match claimed {
                Some(c) => !same_family(sniffed, c),
                None => false,
            };
            ScannedFile {
                path: owned(path),
                size,
                extension: ext,
                kind,
                container: Some(sniffed),
                confidence: Some(candidates[b].confidence),
                evidence: Some(candidates[b].evidence.clone()),
                extension_mismatch,
                unidentified: false,
                parsed,
            }
        },
        None => ScannedFile {
            path: owned(path),
            size,
            extension: ext,
            kind,
            container: None,
            confidence: None,
            evidence: None,
            extension_mismatch: false,
            unidentified: true,
            parsed,
        },
    }
}

/// Content decides: wherever the first bytes speak for a container, that container is recorded,
/// whatever the extension says, and a file so recognised is always media.
pub proof fn content_decides(path: Seq<char>, size: u64, parsed: Name, seen: Seq<Candidate>)
    requires
        surest(seen) >= 0,
        !(extension_of(path) is Some && is_subtitle_ext(lower(extension_of(path)->0))),
    ensures
        classified(path, size, parsed, seen).container == Some(seen[surest(seen)].container),
        classified(path, size, parsed, seen).playable(),
        !classified(path, size, parsed, seen).unidentified,
{
}

/// A fallback is no identification: what only fallbacks speak for is media by its extension alone.
pub proof fn fallback_identifies_nothing(path: Seq<char>, size: u64, parsed: Name, seen: Seq<Candidate>)
    requires
        forall|i: int| 0 <= i < seen.len() ==> (#[trigger] seen[i]).confidence == Confidence::Weak,
    ensures
        classified(path, size, parsed, seen).container is None,
        classified(path, size, parsed, seen).unidentified,
        classified(path, size, parsed, seen).kind == MediaKind::Other <==> !(extension_of(
            path,
        ) is Some && ({
            let e = lower(extension_of(path)->0);
            is_subtitle_ext(e) || is_audio_ext(e) || is_video_ext(e)
        })),
{
    only_fallbacks(seen);
}

proof fn only_fallbacks(seen: Seq<Candidate>)
    requires
        forall|i: int| 0 <= i < seen.len() ==> (#[trigger] seen[i]).confidence == Confidence::Weak,
    ensures
        surest(seen) == -1,
    decreases seen.len(),
{
    if seen.len() > 0 {
        let rest = seen.drop_last();
        assert forall|i: int| 0 <= i < rest.len() implies (#[trigger] rest[i]).confidence
            == Confidence::Weak by {
            assert(rest[i] == seen[i]);
        }
        only_fallbacks(rest);
        assert(seen[seen.len() - 1].confidence == Confidence::Weak);
    }
}

/// What a scan is asked to do.
#[derive(Debug, Clone)]
pub struct ScanOptions {
    /// Keep files that parse as sample clips.
    pub include_samples: bool,
    /// Stop after this many playable files. `None` for no limit.
    pub limit: Option<usize>,
    /// Maximum directory depth. `None` for unlimited.
    pub max_depth: Option<usize>,
}

impl Default for ScanOptions {
    fn default() -> (r: Self)
        ensures
            !r.include_samples,
            r.limit is None,
            r.max_depth is None,
    {
        ScanOptions { include_samples: false, limit: None, max_depth: None }
    }
}

/// What a scan found.
#[derive(Debug)]
pub struct Scan {
    pub files: Vec<ScannedFile>,
    /// Directories that could not be read, with the reason.
    pub unreadable: Vec<(String, String)>,
    pub skipped_samples: usize,
    /// True when the limit cut the scan short.
    pub truncated: bool,
}

impl Default for Scan {
    fn default() -> (r: Self)
        ensures
            r.content() == (Found {
                files: Seq::empty(),
                unreadable: Seq::empty(),
                skipped: 0,
                truncated: false,
            }),
    {
        let r = Scan {
            files: Vec::new(),
            unreadable: Vec::new(),
            skipped_samples: 0,
            truncated: false,
        };
        assert(contents(r.files@) =~= Seq::<Scanned>::empty());
        assert(pair_views(r.unreadable@) =~= Seq::<(Seq<char>, Seq<char>)>::empty());
        r
    }
}

/// What a scan found.
pub struct Found {
    pub files: Seq<Scanned>,
    pub unreadable: Seq<(Seq<char>, Seq<char>)>,
    pub skipped: nat,
    pub truncated: bool,
}

/// What is known of each file.
pub open spec fn contents(files: Seq<ScannedFile>) -> Seq<Scanned> {
    Seq::new(files.len(), |i: int| files[i].content())
}

impl Scan {
    /// What the scan found.
    pub open spec fn content(self) -> Found {
        Found {
            files: contents(self.files@),
            unreadable: pair_views(self.unreadable@),
            skipped: self.skipped_samples as nat,
            truncated: self.truncated,
        }
    }

    /// Every file's record is consistent.
    pub open spec fn wf(self) -> bool {
        all_wf(contents(self.files@))
    }
}

/// Every file's record is consistent.
pub open spec fn all_wf(files: Seq<Scanned>) -> bool {
    forall|i: int| 0 <= i < files.len() ==> (#[trigger] files[i]).wf()
}

/// One entry of a directory, as the file system reports it.
#[derive(Debug)]
pub enum Node {
    File { path: String, name: String, size: u64, parsed: ParsedName, candidates: Vec<Candidate> },
    /// A directory with its entries, or with the reason why it could not be read.
    Dir { path: String, name: String, entries: Vec<Node>, error: Option<String> },
    /// A symbolic link, or an entry whose type could not be told. Never followed.
    Passed,
}

/// One more, up to the greatest number that a `usize` holds.
pub open spec fn bump(n: nat) -> nat {
    if n < usize::MAX {
        n + 1
    } else {
        n
    }
}

/// What a scan holds after the first `n` of a directory's entries. `levels` is how many more
/// directories deep the walk may go.
pub open spec fn walked(
    acc: Found,
    entries: Seq<Node>,
    n: nat,
    levels: Option<nat>,
    samples: bool,
) -> Found
    decreases entries, n,
{
    if n == 0 || n > entries.len() {
        acc
    } else {
        let prior = walked(acc, entries, (n - 1) as nat, levels, samples);
        match entries[n - 1] {
            Node::Passed => prior,
            Node::Dir { path, name, entries: inner, error } => if !enters(name@) || levels == Some(
                0nat,
            ) {
                prior
            } else {
                match error {
                    Some(e) => Found { unreadable: prior.unreadable.push((path@, e@)), ..prior },
                    None => walked(
                        prior,
                        inner@,
                        inner@.len(),
                        match levels {
                            Some(k) => Some((k - 1) as nat),
                            None => None,
                        },
                        samples,
                    ),
                }
            },
            Node::File { path, name, size, parsed, candidates } => {
                let f = classified(path@, size, parsed.content(), candidates@);
                if hidden(name@) || f.kind == MediaKind::Other {
                    prior
                } else if f.parsed.is_sample && !samples {
                    Found { skipped: bump(prior.skipped), ..prior }
                } else {
                    Found { files: prior.files.push(f), ..prior }
                }
            },
        }
    }
}

/// How many more directories deep a walk may go.
pub open spec fn levels_view(levels: Option<usize>) -> Option<nat> {
    match levels {
        Some(k) => Some(k as nat),
        None => None,
    }
}

/// Adds what a directory's entries hold to a scan. An unreadable directory is recorded and stepped
/// over.
fn walk(entries: &Vec<Node>, levels: Option<usize>, samples: bool, out: &mut Scan)
    requires
        old(out).wf(),
    ensures
        final(out).wf(),
        final(out).content() == walked(
            old(out).content(),
            entries@,
            entries@.len(),
            levels_view(levels),
            samples,
        ),
    decreases entries,
{
    let ghost start = out.content();
    let mut i: usize = 0;
    while i < entries.len()
        invariant
            i <= entries@.len(),
            out.wf(),
            out.content() == walked(start, entries@, i as nat, levels_view(levels), samples),
        decreases entries@.len() - i,
    {
        let ghost prior = out.content();
        let node = &entries[i];
        assert(decreases_to!(entries => entries[i as int]));
        match node {
            Node::Passed => {},
            Node::Dir { path, name, entries: inner, error } => {
                let spent = match levels {
                    Some(k) => k == 0,
                    None => false,
                };
                if enters_dir(name.as_str()) && !spent {
                    match error {
                        Some(e) => {
                            out.unreadable.push((path.clone(), e.clone()));
                            assert(pair_views(out.unreadable@)
                                =~= prior.unreadable.push((path@, e@)));
                        },
                        None => {
                            let deeper = match levels {
                                Some(k) => Some((k - 1) as usize),
                                None => None,
                            };
                            walk(inner, deeper, samples, out);
                        },
                    }
                }
            },
            Node::File { path, name, size, parsed, candidates } => {
                if !is_hidden(name.as_str()) {
                    let f = classify(path.as_str(), *size, parsed.copy(), candidates);
                    if f.kind != MediaKind::Other {
                        if f.parsed.is_sample && !samples {
                            if out.skipped_samples < usize::MAX {
                                out.skipped_samples = out.skipped_samples + 1;
                            }
                        } else {
                            let ghost c = f.content();
                            out.files.push(f);
                            proof {
                                assert(contents(out.files@) =~= prior.files.push(c));
                                assert forall|k: int| 0 <= k < contents(out.files@).len() implies (
                                #[trigger] contents(out.files@)[k]).wf() by {
                                    if k < prior.files.len() {
                                        assert(prior.files[k].wf());
                                    }
                                }
                            }
                        }
                    }
                }
            },
        }
        assert(out.content() == walked(
            start,
            entries@,
            (i + 1) as nat,
            levels_view(levels),
            samples,
        ));
        i += 1;
    }
}

/// The first index at or after `i` whose file does not come before the path `x`.
pub open spec fn slot_from(s: Seq<Scanned>, x: Seq<char>, i: int) -> int
    decreases s.len() - i,
{
    if i < 0 || i >= s.len() {
        s.len() as int
    } else if path_lt(s[i].path, x) {
        slot_from(s, x, i + 1)
    } else {
        i
    }
}

/// The files in path order; files of one path keep their order.
pub open spec fn sorted(s: Seq<Scanned>) -> Seq<Scanned>
    decreases s.len(),
{
    if s.len() == 0 {
        Seq::empty()
    } else {
        let rest = sorted(s.skip(1));
        rest.insert(slot_from(rest, s[0].path, 0), s[0])
    }
}

proof fn slot_is_first(s: Seq<Scanned>, x: Seq<char>, i: int)
    requires
        0 <= i <= s.len(),
    ensures
        i <= slot_from(s, x, i) <= s.len(),
        forall|k: int| i <= k < slot_from(s, x, i) ==> path_lt((#[trigger] s[k]).path, x),
        slot_from(s, x, i) < s.len() ==> !path_lt(s[slot_from(s, x, i)].path, x),
    decreases s.len() - i,
{
    if i < s.len() && path_lt(s[i].path, x) {
        slot_is_first(s, x, i + 1);
    }
}

/// Sorting moves files about; it neither adds nor loses one.
pub proof fn sorting_permutes(s: Seq<Scanned>)
    ensures
        sorted(s).to_multiset() == s.to_multiset(),
        sorted(s).len() == s.len(),
    decreases s.len(),
{
    broadcast use vstd::seq_lib::group_to_multiset_ensures;

    if s.len() > 0 {
        let rest = s.skip(1);
        sorting_permutes(rest);
        slot_is_first(sorted(rest), s[0].path, 0);
        let p = slot_from(sorted(rest), s[0].path, 0);
        vstd::seq_lib::to_multiset_insert(sorted(rest), p, s[0]);
        assert(s =~= rest.insert(0, s[0]));
        vstd::seq_lib::to_multiset_insert(rest, 0, s[0]);
    } else {
        assert(sorted(s) =~= s);
    }
}

/// Whether no file comes before one that stands earlier.
pub open spec fn in_path_order(s: Seq<Scanned>) -> bool {
    forall|i: int, j: int|
        0 <= i < j < s.len() ==> !path_lt((#[trigger] s[j]).path, (#[trigger] s[i]).path)
}

/// Sorting puts files in path order, so two scans of one library list it alike.
pub proof fn sorting_orders(s: Seq<Scanned>)
    ensures
        in_path_order(sorted(s)),
    decreases s.len(),
{
    if s.len() > 0 {
        let rest = sorted(s.skip(1));
        let x = s[0];
        sorting_orders(s.skip(1));
        slot_is_first(rest, x.path, 0);
        let p = slot_from(rest, x.path, 0);
        let all = rest.insert(p, x);
        assert forall|i: int, j: int| 0 <= i < j < all.len() implies !path_lt(
            (#[trigger] all[j]).path,
            (#[trigger] all[i]).path,
        ) by {
            if j == p {
                assert(all[i] == rest[i]);
                path_lt_is_order(rest[i].path, x.path, x.path);
            } else if i == p {
                assert(all[j] == rest[j - 1]);
                path_order_is_weak(rest[j - 1].path, rest[p].path, x.path);
                if j - 1 > p {
                    assert(!path_lt(rest[j - 1].path, rest[p].path));
                }
            } else {
                let a = if i < p {
                    i
                } else {
                    i - 1
                };
                let b = if j < p {
                    j
                } else {
                    j - 1
                };
                assert(all[i] == rest[a] && all[j] == rest[b]);
            }
        }
    }
}

fn sort_files(given: Vec<ScannedFile>) -> (r: Vec<ScannedFile>)
    ensures
        contents(r@) == sorted(contents(given@)),
{
    let mut files = given;
    let ghost all = contents(given@);
    let mut out: Vec<ScannedFile> = Vec::new();
    assert(contents(files@) =~= all.take(files@.len() as int));
    assert(all.skip(all.len() as int) =~= Seq::<Scanned>::empty());
    assert(contents(out@) =~= Seq::<Scanned>::empty());
    while files.len() > 0
        invariant
            files@.len() <= all.len(),
            contents(files@) == all.take(files@.len() as int),
            contents(out@) == sorted(all.skip(files@.len() as int)),
        decreases files@.len(),
    {
        let ghost n = files@.len() as int;
        let ghost rest = contents(out@);
        let ghost before = files@;
        let f = match files.pop() {
            Some(f) => f,
            None => {
                return out;
            },
        };
        let ghost c = f.content();
        proof {
            assert(contents(before)[n - 1] == c);
            assert(all[n - 1] == c);
            assert(contents(files@) =~= all.take(n - 1));
            assert(all.skip(n - 1).skip(1) =~= all.skip(n));
        }
        let mut p: usize = 0;
        while p < out.len() && crate::paths::before(out[p].path.as_str(), f.path.as_str())
            invariant
                p <= out@.len(),
                contents(out@) == rest,
                c == f.content(),
                slot_from(rest, c.path, 0) == slot_from(rest, c.path, p as int),
            decreases out@.len() - p,
        {
            p += 1;
        }
        assert(slot_from(rest, c.path, 0) == p) by {
            if p < out@.len() {
                assert(rest[p as int] == out@[p as int].content());
            }
        }
        out.insert(p, f);
        assert(contents(out@) =~= rest.insert(p as int, c));
    }
    assert(all.skip(0) =~= all);
    out
}

/// The first `n` files with every playable one past the limit dropped, how many playable ones that
/// leaves, and whether any was dropped.
pub open spec fn limited(files: Seq<Scanned>, n: nat, limit: nat) -> (Seq<Scanned>, nat, bool)
    decreases n,
{
    if n == 0 || n > files.len() {
        (Seq::empty(), 0, false)
    } else {
        let (kept, count, cut) = limited(files, (n - 1) as nat, limit);
        let f = files[n - 1];
        if !f.playable() {
            (kept.push(f), count, cut)
        } else if count < limit {
            (kept.push(f), count + 1, cut)
        } else {
            (kept, count, true)
        }
    }
}

proof fn limited_bounds(files: Seq<Scanned>, n: nat, limit: nat)
    ensures
        limited(files, n, limit).0.len() <= n,
        limited(files, n, limit).1 <= n,
        limited(files, n, limit).1 <= limit,
        all_wf(files) ==> all_wf(limited(files, n, limit).0),
    decreases n,
{
    if n > 0 && n <= files.len() {
        limited_bounds(files, (n - 1) as nat, limit);
        let kept = limited(files, (n - 1) as nat, limit).0;
        if all_wf(files) {
            assert(files[n - 1].wf());
            assert forall|i: int| 0 <= i < limited(files, n, limit).0.len() implies (
            #[trigger] limited(files, n, limit).0[i]).wf() by {
                if i < kept.len() {
                    assert(kept[i].wf());
                }
            }
        }
    }
}

fn limit_files(given: Vec<ScannedFile>, limit: usize) -> (r: (Vec<ScannedFile>, bool))
    ensures
        ({
            let all = contents(given@);
            let (kept, count, cut) = limited(all, all.len(), limit as nat);
            contents(r.0@) == kept && r.1 == cut
        }),
{
    let ghost all = contents(given@);
    let mut files = given;
    let mut rev: Vec<ScannedFile> = Vec::new();
    assert(contents(files@) =~= all.take(files@.len() as int));
    while files.len() > 0
        invariant
            files@.len() + rev@.len() == all.len(),
            contents(files@) == all.take(files@.len() as int),
            forall|i: int|
                0 <= i < rev@.len() ==> (#[trigger] rev@[i]).content() == all[all.len() - 1 - i],
        decreases files@.len(),
    {
        let ghost n = files@.len() as int;
        let ghost before = files@;
        match files.pop() {
            Some(f) => {
                proof {
                    assert(contents(before)[n - 1] == f.content());
                    assert(contents(files@) =~= all.take(n - 1));
                }
                rev.push(f);
            },
            None => {},
        }
    }
    let mut out: Vec<ScannedFile> = Vec::new();
    let mut kept: usize = 0;
    let mut truncated = false;
    let ghost mut n: nat = 0;
    assert(contents(out@) =~= Seq::<Scanned>::empty());
    while rev.len() > 0
        invariant
            n + rev@.len() == all.len(),
            forall|i: int|
                0 <= i < rev@.len() ==> (#[trigger] rev@[i]).content() == all[all.len() - 1 - i],
            (contents(out@), kept as nat, truncated) == limited(all, n, limit as nat),
        decreases rev@.len(),
    {
        let ghost before = rev@;
        let ghost known = contents(out@);
        match rev.pop() {
            Some(f) => {
                let ghost c = f.content();
                assert(before[before.len() - 1].content() == all[n as int]);
                if !f.is_playable() {
                    out.push(f);
                    assert(contents(out@) =~= known.push(c));
                } else if kept < limit {
                    kept = kept + 1;
                    out.push(f);
                    assert(contents(out@) =~= known.push(c));
                } else {
                    truncated = true;
                }
                proof {
                    n = n + 1;
                }
            },
            None => {},
        }
    }
    (out, truncated)
}

/// A limit never lets more playable files through than it names, and says so when it cut any.
pub proof fn limit_is_kept(files: Seq<Scanned>, limit: nat)
    ensures
        playable_count(limited(files, files.len(), limit).0) <= limit,
        limited(files, files.len(), limit).2 <==> playable_count(files) > limit,
{
    limit_counts(files, files.len(), limit);
    assert(files.take(files.len() as int) =~= files);
}

/// How many of the files are played.
pub open spec fn playable_count(files: Seq<Scanned>) -> nat
    decreases files.len(),
{
    if files.len() == 0 {
        0
    } else {
        playable_count(files.drop_last()) + if files.last().playable() {
            1nat
        } else {
            0
        }
    }
}

proof fn limit_counts(files: Seq<Scanned>, n: nat, limit: nat)
    requires
        n <= files.len(),
    ensures
        ({
            let (kept, count, cut) = limited(files, n, limit);
            &&& playable_count(kept) == count
            &&& count <= limit
            &&& cut <==> playable_count(files.take(n as int)) > limit
            &&& !cut ==> count == playable_count(files.take(n as int))
            &&& cut ==> count == limit
        }),
    decreases n,
{
    if n > 0 {
        limit_counts(files, (n - 1) as nat, limit);
        let (kept, count, cut) = limited(files, (n - 1) as nat, limit);
        let f = files[n - 1];
        assert(files.take(n as int).drop_last() =~= files.take(n - 1));
        assert(kept.push(f).drop_last() =~= kept);
    } else {
        assert(files.take(0) =~= Seq::<Scanned>::empty());
    }
}

/// Something to scan: a file or a directory given by its path, or a path with nothing there.
#[derive(Debug)]
pub enum Root {
    File { path: String, size: u64, parsed: ParsedName, candidates: Vec<Candidate> },
    Dir { path: String, entries: Vec<Node>, error: Option<String> },
    Missing { path: String, reason: String },
}

/// What a scan holds after the first `n` roots. A file given directly is played whatever it looks
/// like.
pub open spec fn rooted(roots: Seq<Root>, n: nat, opts: ScanOptions) -> Found
    decreases n,
{
    if n == 0 || n > roots.len() {
        Found { files: Seq::empty(), unreadable: Seq::empty(), skipped: 0, truncated: false }
    } else {
        let prior = rooted(roots, (n - 1) as nat, opts);
        match roots[n - 1] {
            Root::File { path, size, parsed, candidates } => {
                let f = classified(path@, size, parsed.content(), candidates@);
                let kept = if f.kind == MediaKind::Other {
                    Scanned { kind: MediaKind::Video, ..f }
                } else {
                    f
                };
                Found { files: prior.files.push(kept), ..prior }
            },
            Root::Dir { path, entries, error } => match error {
                Some(e) => Found { unreadable: prior.unreadable.push((path@, e@)), ..prior },
                None => walked(
                    prior,
                    entries@,
                    entries@.len(),
                    levels_view(opts.max_depth),
                    opts.include_samples,
                ),
            },
            Root::Missing { path, reason } => Found {
                unreadable: prior.unreadable.push((path@, reason@)),
                ..prior
            },
        }
    }
}

/// What a whole scan finds: everything under the roots, in path order, cut at the limit.
pub open spec fn scanned(roots: Seq<Root>, opts: ScanOptions) -> Found {
    let all = rooted(roots, roots.len(), opts);
    let files = sorted(all.files);
    match opts.limit {
        Some(limit) => {
            let (kept, count, cut) = limited(files, files.len(), limit as nat);
            Found { files: kept, truncated: cut, ..all }
        },
        None => Found { files, ..all },
    }
}

proof fn sorted_keeps_wf(s: Seq<Scanned>)
    requires
        all_wf(s),
    ensures
        all_wf(sorted(s)),
    decreases s.len(),
{
    if s.len() > 0 {
        let rest = s.skip(1);
        assert forall|i: int| 0 <= i < rest.len() implies (#[trigger] rest[i]).wf() by {
            assert(s[i + 1].wf());
        }
        sorted_keeps_wf(rest);
        let t = sorted(rest);
        slot_is_first(t, s[0].path, 0);
        let p = slot_from(t, s[0].path, 0);
        assert(s[0].wf());
        assert forall|i: int| 0 <= i < sorted(s).len() implies (#[trigger] sorted(s)[i]).wf() by {
            if i < p {
                assert(t[i].wf());
            } else if i > p {
                assert(t[i - 1].wf());
            }
        }
    }
}

/// Walks the roots and classifies everything found.
pub fn scan(roots: &Vec<Root>, opts: &ScanOptions) -> (r: Scan)
    ensures
        r.content() == scanned(roots@, *opts),
        r.wf(),
{
    let mut out = Scan::default();
    let mut i: usize = 0;
    while i < roots.len()
        invariant
            i <= roots@.len(),
            out.wf(),
            out.content() == rooted(roots@, i as nat, *opts),
        decreases roots@.len() - i,
    {
        let ghost prior = out.content();
        match &roots[i] {
            Root::File { path, size, parsed, candidates } => {
                let mut f = classify(path.as_str(), *size, parsed.copy(), candidates);
                if f.kind == MediaKind::Other {
                    f.kind = MediaKind::Video;
                }
                let ghost c = f.content();
                out.files.push(f);
                proof {
                    assert(contents(out.files@) =~= prior.files.push(c));
                    assert forall|k: int| 0 <= k < contents(out.files@).len() implies (
                    #[trigger] contents(out.files@)[k]).wf() by {
                        if k < prior.files.len() {
                            assert(prior.files[k].wf());
                        }
                    }
                }
            },
            Root::Dir { path, entries, error } => match error {
                Some(e) => {
                    out.unreadable.push((path.clone(), e.clone()));
                    assert(pair_views(out.unreadable@) =~= prior.unreadable.push((path@, e@)));
                },
                None => {
                    walk(entries, opts.max_depth, opts.include_samples, &mut out);
                },
            },
            Root::Missing { path, reason } => {
                out.unreadable.push((path.clone(), reason.clone()));
                assert(pair_views(out.unreadable@) =~= prior.unreadable.push((path@, reason@)));
            },
        }
        i += 1;
    }
    let ghost all = out.content();
    let Scan { files, unreadable, skipped_samples, truncated } = out;
    let files = sort_files(files);
    proof {
        sorted_keeps_wf(all.files);
        limited_bounds(sorted(all.files), sorted(all.files).len(), match opts.limit {
            Some(l) => l as nat,
            None => 0,
        });
        rooted_is_not_truncated(roots@, roots@.len(), *opts);
    }
    match opts.limit {
        Some(limit) => {
            let (kept, cut) = limit_files(files, limit);
            Scan { files: kept, unreadable, skipped_samples, truncated: cut }
        },
        None => Scan { files, unreadable, skipped_samples, truncated },
    }
}

proof fn walked_keeps_truncated(
    acc: Found,
    entries: Seq<Node>,
    n: nat,
    levels: Option<nat>,
    samples: bool,
)
    ensures
        walked(acc, entries, n, levels, samples).truncated == acc.truncated,
    decreases entries, n,
{
    if n > 0 && n <= entries.len() {
        walked_keeps_truncated(acc, entries, (n - 1) as nat, levels, samples);
        let prior = walked(acc, entries, (n - 1) as nat, levels, samples);
        match entries[n - 1] {
            Node::Dir { path, name, entries: inner, error } => {
                if enters(name@) && levels != Some(0nat) && error is None {
                    walked_keeps_truncated(
                        prior,
                        inner@,
                        inner@.len(),
                        match levels {
                            Some(k) => Some((k - 1) as nat),
                            None => None,
                        },
                        samples,
                    );
                }
            },
            _ => {},
        }
    }
}

proof fn rooted_is_not_truncated(roots: Seq<Root>, n: nat, opts: ScanOptions)
    ensures
        !rooted(roots, n, opts).truncated,
    decreases n,
{
    if n > 0 && n <= roots.len() {
        rooted_is_not_truncated(roots, (n - 1) as nat, opts);
        let prior = rooted(roots, (n - 1) as nat, opts);
        match roots[n - 1] {
            Root::Dir { path, entries, error } => {
                walked_keeps_truncated(
                    prior,
                    entries@,
                    entries@.len(),
                    levels_view(opts.max_depth),
                    opts.include_samples,
                );
            },
            _ => {},
        }
    }
}

impl Scan {
    /// The files that are played, in order.
    pub fn playable(&self) -> (r: Vec<&ScannedFile>)
        ensures
            Seq::new(r@.len(), |i: int| r@[i].content()) == self.content().files.filter(
                |f: Scanned| f.playable(),
            ),
    {
        let mut out: Vec<&ScannedFile> = Vec::new();
        let mut i: usize = 0;
        let ghost all = contents(self.files@);
        let ghost keep = |f: Scanned| f.playable();
        assert(all.take(0).filter(keep) =~= Seq::<Scanned>::empty()) by {
            reveal(Seq::filter);
        }
        assert(Seq::new(out@.len(), |i: int| out@[i].content()) =~= Seq::<Scanned>::empty());
        while i < self.files.len()
            invariant
                i <= self.files@.len(),
                all == contents(self.files@),
                keep == (|f: Scanned| f.playable()),
                Seq::new(out@.len(), |i: int| out@[i].content()) == all.take(i as int).filter(keep),
            decreases self.files@.len() - i,
        {
            let ghost known = Seq::new(out@.len(), |i: int| out@[i].content());
            proof {
                let next = all.take(i as int + 1);
                assert(next.drop_last() =~= all.take(i as int));
                assert(next.last() == self.files@[i as int].content());
                reveal(Seq::filter);
            }
            if self.files[i].is_playable() {
                out.push(&self.files[i]);
                assert(Seq::new(out@.len(), |i: int| out@[i].content()) =~= known.push(
                    self.files@[i as int].content(),
                ));
            }
            i += 1;
        }
        assert(all.take(i as int) =~= all);
        out
    }

    /// The sidecar subtitles, in order.
    pub fn subtitles(&self) -> (r: Vec<&ScannedFile>)
        ensures
            Seq::new(r@.len(), |i: int| r@[i].content()) == self.content().files.filter(
                |f: Scanned| f.kind == MediaKind::Subtitle,
            ),
    {
        let mut out: Vec<&ScannedFile> = Vec::new();
        let mut i: usize = 0;
        let ghost all = contents(self.files@);
        let ghost keep = |f: Scanned| f.kind == MediaKind::Subtitle;
        assert(all.take(0).filter(keep) =~= Seq::<Scanned>::empty()) by {
            reveal(Seq::filter);
        }
        assert(Seq::new(out@.len(), |i: int| out@[i].content()) =~= Seq::<Scanned>::empty());
        while i < self.files.len()
            invariant
                i <= self.files@.len(),
                all == contents(self.files@),
                keep == (|f: Scanned| f.kind == MediaKind::Subtitle),
                Seq::new(out@.len(), |i: int| out@[i].content()) == all.take(i as int).filter(keep),
            decreases self.files@.len() - i,
        {
            let ghost known = Seq::new(out@.len(), |i: int| out@[i].content());
            proof {
                let next = all.take(i as int + 1);
                assert(next.drop_last() =~= all.take(i as int));
                assert(next.last() == self.files@[i as int].content());
                reveal(Seq::filter);
            }
            if self.files[i].kind == MediaKind::Subtitle {
                out.push(&self.files[i]);
                assert(Seq::new(out@.len(), |i: int| out@[i].content()) =~= known.push(
                    self.files@[i as int].content(),
                ));
            }
            i += 1;
        }
        assert(all.take(i as int) =~= all);
        out
    }
}

/// One logical item — a film, or one season of a show — with the files that make it up.
#[derive(Debug, Clone)]
pub struct Item {
    pub title: String,
    pub year: Option<u16>,
    pub season: Option<u16>,
    /// Indices into the scan's files.
    pub files: Vec<usize>,
}

/// What an item groups by.
pub struct Key {
    pub title: Seq<char>,
    pub year: Option<u16>,
    pub season: Option<u16>,
}

/// One logical item, with the key that its files share.
pub struct Group {
    pub key: Key,
    pub title: Seq<char>,
    pub files: Seq<int>,
}

/// The season that an episode belongs to.
pub open spec fn season_of(e: Option<Episode>) -> Option<u16> {
    match e {
        Some(Episode::SeasonEpisode { season, .. }) => Some(season),
        Some(Episode::SeasonOnly { season }) => Some(season),
        _ => None,
    }
}

/// The key of a file: its title in lower case and its season; a film has its year instead. An
/// episode's year is left out, so that a season stays together.
pub open spec fn key_of(f: Scanned) -> Key {
    let season = season_of(f.parsed.episode);
    Key {
        title: lower(f.title()),
        year: if season is Some {
            None
        } else {
            f.parsed.year
        },
        season,
    }
}

/// Whether `a` comes before `b`; nothing comes before something.
pub open spec fn opt_lt(a: Option<u16>, b: Option<u16>) -> bool {
    match (a, b) {
        (None, Some(_)) => true,
        (Some(x), Some(y)) => x < y,
        _ => false,
    }
}

/// The order of items: by title, then year, then season.
pub open spec fn key_lt(a: Key, b: Key) -> bool {
    if a.title != b.title {
        lex_lt(a.title, b.title)
    } else if a.year != b.year {
        opt_lt(a.year, b.year)
    } else {
        opt_lt(a.season, b.season)
    }
}

/// The first index at or after `i` whose group does not come before `key`.
pub open spec fn group_slot(g: Seq<Group>, key: Key, i: int) -> int
    decreases g.len() - i,
{
    if i < 0 || i >= g.len() {
        g.len() as int
    } else if key_lt(g[i].key, key) {
        group_slot(g, key, i + 1)
    } else {
        i
    }
}

/// The groups with a file added to the group of its key, or to a new group in its place.
pub open spec fn with_file(g: Seq<Group>, f: Scanned, index: int) -> Seq<Group> {
    let key = key_of(f);
    let p = group_slot(g, key, 0);
    if p < g.len() && g[p].key == key {
        g.update(p, Group { files: g[p].files.push(index), ..g[p] })
    } else {
        g.insert(p, Group { key, title: f.title(), files: seq![index] })
    }
}

/// The groups of the first `n` files.
pub open spec fn grouped(files: Seq<Scanned>, n: nat) -> Seq<Group>
    decreases n,
{
    if n == 0 || n > files.len() {
        Seq::empty()
    } else if files[n - 1].playable() {
        with_file(grouped(files, (n - 1) as nat), files[n - 1], n - 1)
    } else {
        grouped(files, (n - 1) as nat)
    }
}

/// Whether an item is a group.
pub open spec fn is_group(it: Item, g: Group) -> bool {
    it.title@ == g.title && it.year == g.key.year && it.season == g.key.season && it.files@.len()
        == g.files.len() && forall|i: int|
        0 <= i < it.files@.len() ==> #[trigger] it.files@[i] as int == g.files[i]
}

/// Whether items are groups, one by one.
pub open spec fn are_groups(items: Seq<Item>, g: Seq<Group>) -> bool {
    items.len() == g.len() && forall|i: int|
        0 <= i < items.len() ==> is_group(#[trigger] items[i], g[i])
}

fn opt_before(a: Option<u16>, b: Option<u16>) -> (r: bool)
    ensures
        r == opt_lt(a, b),
{
    match (a, b) {
        (None, Some(_)) => true,
        (Some(x), Some(y)) => x < y,
        _ => false,
    }
}

fn opt_same(a: Option<u16>, b: Option<u16>) -> (r: bool)
    ensures
        r == (a == b),
{
    match (a, b) {
        (None, None) => true,
        (Some(x), Some(y)) => x == y,
        _ => false,
    }
}

fn season_in(e: &Option<EpisodeSpec>) -> (r: Option<u16>)
    ensures
        r == season_of(episode_view(*e)),
{
    match e {
        Some(EpisodeSpec::SeasonEpisode { season, .. }) => Some(*season),
        Some(EpisodeSpec::SeasonOnly { season }) => Some(*season),
        _ => None,
    }
}

impl ScannedFile {
    /// The title that stands for the file.
    pub fn title(&self) -> (r: String)
        ensures
            r@ == self.content().title(),
    {
        if self.parsed.title.as_str().is_empty() {
            self.file_name()
        } else {
            self.parsed.title.clone()
        }
    }
}

/// Groups the playable files into logical items, in the order of their titles.
pub fn group(scan: &Scan) -> (r: Vec<Item>)
    ensures
        are_groups(r@, grouped(scan.content().files, scan.content().files.len())),
{
    let ghost files = contents(scan.files@);
    let mut items: Vec<Item> = Vec::new();
    let mut titles: Vec<String> = Vec::new();
    let mut n: usize = 0;
    while n < scan.files.len()
        invariant
            n <= scan.files@.len(),
            files == contents(scan.files@),
            are_groups(items@, grouped(files, n as nat)),
            titles@.len() == items@.len(),
            forall|i: int|
                0 <= i < titles@.len() ==> (#[trigger] titles@[i])@ == grouped(
                    files,
                    n as nat,
                )[i].key.title,
        decreases scan.files@.len() - n,
    {
        let f = &scan.files[n];
        let ghost g = grouped(files, n as nat);
        let ghost c = files[n as int];
        let ghost key = key_of(c);
        if f.is_playable() {
            let season = season_in(&f.parsed.episode);
            let title = f.title();
            let low = lower_text(title.as_str());
            let year = if season.is_some() {
                None
            } else {
                f.parsed.year
            };
            let mut p: usize = 0;
            let mut found = false;
            while p < items.len()
                invariant_except_break
                    !found,
                invariant
                    p <= items@.len(),
                    are_groups(items@, g),
                    titles@.len() == items@.len(),
                    forall|i: int|
                        0 <= i < titles@.len() ==> (#[trigger] titles@[i])@ == g[i].key.title,
                    low@ == key.title,
                    year == key.year,
                    season == key.season,
                    group_slot(g, key, 0) == group_slot(g, key, p as int),
                ensures
                    p <= items@.len(),
                    p == group_slot(g, key, 0),
                    found == (p < g.len() && g[p as int].key == key),
                decreases items@.len() - p,
            {
                assert(is_group(items@[p as int], g[p as int]));
                assert(titles@[p as int]@ == g[p as int].key.title);
                let it = &items[p];
                let level = same(titles[p].as_str(), low.as_str());
                let same_year = opt_same(it.year, year);
                if level && same_year && opt_same(it.season, season) {
                    found = true;
                    proof {
                        lex_lt_is_total_order(key.title, key.title, key.title);
                    }
                    break;
                }
                let earlier = if !level {
                    crate::text::before(titles[p].as_str(), low.as_str())
                } else if !same_year {
                    opt_before(it.year, year)
                } else {
                    opt_before(it.season, season)
                };
                assert(earlier == key_lt(g[p as int].key, key));
                if !earlier {
                    break;
                }
                p += 1;
            }
            let ghost was = items@;
            let ghost was_titles = titles@;
            if found {
                let mut it = items.remove(p);
                it.files.push(n);
                let ghost grown = it;
                items.insert(p, it);
                proof {
                    assert(items@ =~= was.update(p as int, grown));
                    assert(is_group(was[p as int], g[p as int]));
                    let after = with_file(g, c, n as int);
                    assert forall|i: int| 0 <= i < items@.len() implies is_group(
                        #[trigger] items@[i],
                        after[i],
                    ) by {
                        assert(is_group(was[i], g[i]));
                    }
                }
            } else {
                let fresh = Item { title, year, season, files: vec![n] };
                let ghost made = fresh;
                let ghost made_low = low;
                items.insert(p, fresh);
                titles.insert(p, low);
                proof {
                    let after = with_file(g, c, n as int);
                    assert(items@ =~= was.insert(p as int, made));
                    assert(titles@ =~= was_titles.insert(p as int, made_low));
                    assert forall|i: int| 0 <= i < items@.len() implies is_group(
                        #[trigger] items@[i],
                        after[i],
                    ) by {
                        if i < p {
                            assert(is_group(was[i], g[i]));
                        } else if i > p {
                            assert(is_group(was[i - 1], g[i - 1]));
                        }
                    }
                    assert forall|i: int| 0 <= i < titles@.len() implies (#[trigger] titles@[i])@
                        == after[i].key.title by {
                        if i < p {
                            assert(was_titles[i]@ == g[i].key.title);
                        } else if i > p {
                            assert(was_titles[i - 1]@ == g[i - 1].key.title);
                        }
                    }
                }
            }
        }
        n += 1;
    }
    items
}

proof fn key_lt_order(a: Key, b: Key, c: Key)
    ensures
        !key_lt(a, a),
        key_lt(a, b) ==> !key_lt(b, a),
        key_lt(a, b) && key_lt(b, c) ==> key_lt(a, c),
        key_lt(a, b) || key_lt(b, a) || a == b,
{
    lex_lt_is_total_order(a.title, b.title, c.title);
    lex_lt_is_total_order(b.title, c.title, a.title);
}

/// Whether groups come in the order of their keys, no key twice.
pub open spec fn in_key_order(g: Seq<Group>) -> bool {
    forall|i: int, j: int|
        0 <= i < j < g.len() ==> key_lt((#[trigger] g[i]).key, (#[trigger] g[j]).key)
}

/// Whether the groups hold exactly the playable ones of the first `n` files, each under its key.
pub open spec fn partitions(g: Seq<Group>, files: Seq<Scanned>, n: nat) -> bool {
    &&& forall|a: int, k: int|
        0 <= a < g.len() && 0 <= k < g[a].files.len() ==> {
            let i = #[trigger] g[a].files[k];
            0 <= i < n && files[i].playable() && key_of(files[i]) == g[a].key
        }
    &&& forall|i: int|
        0 <= i < n && (#[trigger] files[i]).playable() ==> exists|a: int|
            0 <= a < g.len() && (#[trigger] g[a]).files.contains(i)
}

/// Whether each position stands in one group only, and there once, and whether positions ascend
/// inside a group.
pub open spec fn each_once(g: Seq<Group>) -> bool {
    &&& forall|a: int, j: int, b: int, k: int|
        0 <= a < g.len() && 0 <= j < g[a].files.len() && 0 <= b < g.len() && 0 <= k
            < g[b].files.len() && #[trigger] g[a].files[j] == #[trigger] g[b].files[k] ==> a == b && j
            == k
    &&& forall|a: int, j: int, k: int|
        0 <= a < g.len() && 0 <= j < k < g[a].files.len() ==> #[trigger] g[a].files[j]
            < #[trigger] g[a].files[k]
}

/// Whether positions ascend inside a group.
spec fn ascending(g: Seq<Group>) -> bool {
    forall|a: int, j: int, k: int|
        0 <= a < g.len() && 0 <= j < k < g[a].files.len() ==> #[trigger] g[a].files[j]
            < #[trigger] g[a].files[k]
}

proof fn with_file_ascends(g: Seq<Group>, files: Seq<Scanned>, n: nat)
    requires
        n < files.len(),
        partitions(g, files, n),
        ascending(g),
    ensures
        ascending(with_file(g, files[n as int], n as int)),
{
    let key = key_of(files[n as int]);
    group_slot_is_first(g, key, 0);
    let p = group_slot(g, key, 0);
    let after = with_file(g, files[n as int], n as int);
    let joins = p < g.len() && g[p].key == key;
    assert forall|a: int, j: int, k: int|
        0 <= a < after.len() && 0 <= j < k < after[a].files.len() implies #[trigger] after[a].files[j]
        < #[trigger] after[a].files[k] by {
        let was = if joins || a < p {
            a
        } else {
            a - 1
        };
        if joins && a == p && k == g[p].files.len() {
            assert(after[a].files[j] == g[p].files[j]);
        } else if joins || a != p {
            assert(after[a].files[j] == g[was].files[j]);
            assert(after[a].files[k] == g[was].files[k]);
        }
    }
}

proof fn group_slot_is_first(g: Seq<Group>, key: Key, i: int)
    requires
        0 <= i <= g.len(),
    ensures
        i <= group_slot(g, key, i) <= g.len(),
        forall|k: int| i <= k < group_slot(g, key, i) ==> key_lt((#[trigger] g[k]).key, key),
        group_slot(g, key, i) < g.len() ==> !key_lt(g[group_slot(g, key, i)].key, key),
    decreases g.len() - i,
{
    if i < g.len() && key_lt(g[i].key, key) {
        group_slot_is_first(g, key, i + 1);
    }
}

proof fn with_file_keeps_order(g: Seq<Group>, f: Scanned, index: int)
    requires
        in_key_order(g),
    ensures
        in_key_order(with_file(g, f, index)),
{
    let key = key_of(f);
    group_slot_is_first(g, key, 0);
    let p = group_slot(g, key, 0);
    let after = with_file(g, f, index);
    if p < g.len() && g[p].key == key {
        assert forall|i: int, j: int| 0 <= i < j < after.len() implies key_lt(
            (#[trigger] after[i]).key,
            (#[trigger] after[j]).key,
        ) by {
            assert(after[i].key == g[i].key && after[j].key == g[j].key);
        }
    } else {
        assert forall|i: int, j: int| 0 <= i < j < after.len() implies key_lt(
            (#[trigger] after[i]).key,
            (#[trigger] after[j]).key,
        ) by {
            if j == p {
                assert(after[i] == g[i]);
            } else if i == p {
                assert(after[j] == g[j - 1]);
                key_lt_order(g[p].key, key, key);
                if j - 1 > p {
                    key_lt_order(key, g[p].key, g[j - 1].key);
                }
            } else {
                let a = if i < p {
                    i
                } else {
                    i - 1
                };
                let b = if j < p {
                    j
                } else {
                    j - 1
                };
                assert(after[i] == g[a] && after[j] == g[b]);
            }
        }
    }
}

proof fn with_file_partitions(g: Seq<Group>, files: Seq<Scanned>, n: nat)
    requires
        n < files.len(),
        files[n as int].playable(),
        partitions(g, files, n),
    ensures
        partitions(with_file(g, files[n as int], n as int), files, n + 1),
{
    let f = files[n as int];
    let key = key_of(f);
    group_slot_is_first(g, key, 0);
    let p = group_slot(g, key, 0);
    let after = with_file(g, f, n as int);
    let joins = p < g.len() && g[p].key == key;
    assert forall|a: int, k: int| 0 <= a < after.len() && 0 <= k < after[a].files.len() implies {
        let i = #[trigger] after[a].files[k];
        0 <= i < n + 1 && files[i].playable() && key_of(files[i]) == after[a].key
    } by {
        if joins {
            if a == p && k == g[p].files.len() {
            } else {
                assert(after[a].files[k] == g[a].files[k]);
            }
        } else if a < p {
            assert(after[a] == g[a]);
            assert(after[a].files[k] == g[a].files[k]);
        } else if a > p {
            assert(after[a] == g[a - 1]);
            assert(after[a].files[k] == g[a - 1].files[k]);
        }
    }
    assert forall|i: int| 0 <= i < n + 1 && (#[trigger] files[i]).playable() implies exists|a: int|
        0 <= a < after.len() && (#[trigger] after[a]).files.contains(i) by {
        if i == n {
            if joins {
                assert(after[p].files[g[p].files.len() as int] == i);
            } else {
                assert(after[p].files[0] == i);
            }
            assert(after[p].files.contains(i));
        } else {
            let a = choose|a: int| 0 <= a < g.len() && (#[trigger] g[a]).files.contains(i);
            let k = choose|k: int| 0 <= k < g[a].files.len() && g[a].files[k] == i;
            let at = if joins || a < p {
                a
            } else {
                a + 1
            };
            assert(after[at].files[k] == i);
            assert(after[at].files.contains(i));
        }
    }
}

/// Grouping loses nothing and mixes nothing: every playable file belongs to exactly one item, and is
/// there once; every file of an item has the item's title, year and season, and no two items share
/// all three. Hence a season is one item. Inside an item the files keep their order.
pub proof fn grouping_partitions(files: Seq<Scanned>, n: nat)
    requires
        n <= files.len(),
    ensures
        in_key_order(grouped(files, n)),
        partitions(grouped(files, n), files, n),
        each_once(grouped(files, n)),
{
    groups_grow(files, n);
    let g = grouped(files, n);
    assert forall|a: int, j: int, b: int, k: int|
        0 <= a < g.len() && 0 <= j < g[a].files.len() && 0 <= b < g.len() && 0 <= k
            < g[b].files.len() && #[trigger] g[a].files[j] == #[trigger] g[b].files[k] implies a == b
        && j == k by {
        key_lt_order(g[a].key, g[b].key, g[a].key);
        if a < b {
            assert(key_lt(g[a].key, g[b].key));
        } else if b < a {
            assert(key_lt(g[b].key, g[a].key));
        } else if j < k {
            assert(g[a].files[j] < g[a].files[k]);
        } else if k < j {
            assert(g[a].files[k] < g[a].files[j]);
        }
    }
}

proof fn groups_grow(files: Seq<Scanned>, n: nat)
    requires
        n <= files.len(),
    ensures
        in_key_order(grouped(files, n)),
        partitions(grouped(files, n), files, n),
        ascending(grouped(files, n)),
    decreases n,
{
    if n > 0 {
        groups_grow(files, (n - 1) as nat);
        let g = grouped(files, (n - 1) as nat);
        if files[n - 1].playable() {
            with_file_keeps_order(g, files[n - 1], n - 1);
            with_file_partitions(g, files, (n - 1) as nat);
            with_file_ascends(g, files, (n - 1) as nat);
        } else {
            assert forall|i: int| 0 <= i < n && (#[trigger] files[i]).playable() implies exists|
                a: int,
            | 0 <= a < g.len() && (#[trigger] g[a]).files.contains(i) by {
                assert(i < n - 1);
            }
            assert forall|a: int, k: int| 0 <= a < g.len() && 0 <= k < g[a].files.len() implies {
                let i = #[trigger] g[a].files[k];
                0 <= i < n && files[i].playable() && key_of(files[i]) == g[a].key
            } by {}
        }
    }
}

/// Where a file stands within its title: by season, then episode.
pub open spec fn episode_place(e: Option<Episode>) -> (int, int) {
    match e {
        Some(Episode::SeasonEpisode { season, episodes }) => (
            season as int,
            if episodes.len() > 0 {
                episodes[0] as int
            } else {
                0
            },
        ),
        Some(Episode::SeasonOnly { season }) => (season as int, -1),
        Some(Episode::Absolute(n)) => (
            0,
            if n.len() > 0 {
                n[0] as int
            } else {
                0
            },
        ),
        Some(Episode::Date { year, month, day }) => (year as int, month as int * 100 + day as int),
        None => (-1, -1),
    }
}

/// The part of a film in several parts; 0 where there is none.
pub open spec fn part_of(f: Scanned) -> int {
    match f.parsed.part {
        Some(p) => p as int,
        None => 0,
    }
}

/// Playing order: by title, then season, episode and part, then path.
pub open spec fn plays_before(a: Scanned, b: Scanned) -> bool {
    let ta = lower(a.parsed.title);
    let tb = lower(b.parsed.title);
    let (sa, ea) = episode_place(a.parsed.episode);
    let (sb, eb) = episode_place(b.parsed.episode);
    if ta != tb {
        lex_lt(ta, tb)
    } else if sa != sb {
        sa < sb
    } else if ea != eb {
        ea < eb
    } else if part_of(a) != part_of(b) {
        part_of(a) < part_of(b)
    } else {
        path_lt(a.path, b.path)
    }
}

fn place_in(e: &Option<EpisodeSpec>) -> (r: (i64, i64))
    ensures
        (r.0 as int, r.1 as int) == episode_place(episode_view(*e)),
{
    match e {
        Some(EpisodeSpec::SeasonEpisode { season, episodes }) => (
            *season as i64,
            if episodes.len() > 0 {
                episodes[0] as i64
            } else {
                0
            },
        ),
        Some(EpisodeSpec::SeasonOnly { season }) => (*season as i64, -1),
        Some(EpisodeSpec::Absolute(n)) => (
            0,
            if n.len() > 0 {
                n[0] as i64
            } else {
                0
            },
        ),
        Some(EpisodeSpec::Date { year, month, day }) => (
            *year as i64,
            *month as i64 * 100 + *day as i64,
        ),
        None => (-1, -1),
    }
}

fn played_before(a: &ScannedFile, b: &ScannedFile) -> (r: bool)
    ensures
        r == plays_before(a.content(), b.content()),
{
    let ta = lower_text(a.parsed.title.as_str());
    let tb = lower_text(b.parsed.title.as_str());
    if !same(ta.as_str(), tb.as_str()) {
        return crate::text::before(ta.as_str(), tb.as_str());
    }
    let (sa, ea): (i64, i64) = place_in(&a.parsed.episode);
    let (sb, eb): (i64, i64) = place_in(&b.parsed.episode);
    let pa: u32 = match a.parsed.part {
        Some(p) => p,
        None => 0,
    };
    let pb: u32 = match b.parsed.part {
        Some(p) => p,
        None => 0,
    };
    if sa != sb {
        sa < sb
    } else if ea != eb {
        ea < eb
    } else if pa != pb {
        pa < pb
    } else {
        crate::paths::before(a.path.as_str(), b.path.as_str())
    }
}

proof fn plays_before_order(a: Scanned, b: Scanned, c: Scanned)
    ensures
        !plays_before(a, a),
        plays_before(a, b) ==> !plays_before(b, a),
        !plays_before(a, b) && !plays_before(b, c) ==> !plays_before(a, c),
{
    let x = lower(a.parsed.title);
    let y = lower(b.parsed.title);
    let z = lower(c.parsed.title);
    lex_lt_is_total_order(x, y, z);
    lex_lt_is_total_order(y, x, z);
    lex_lt_is_total_order(y, z, x);
    lex_lt_is_total_order(x, z, y);
    path_lt_is_order(a.path, b.path, c.path);
    path_order_is_weak(a.path, b.path, c.path);
}

/// The first position at or after `i` whose file does not play before `x`.
pub open spec fn turn_from(files: Seq<Scanned>, order: Seq<int>, x: Scanned, i: int) -> int
    decreases order.len() - i,
{
    if i < 0 || i >= order.len() {
        order.len() as int
    } else if plays_before(files[order[i]], x) {
        turn_from(files, order, x, i + 1)
    } else {
        i
    }
}

/// The indices of the playable files from the `k`-th on, in playing order. Files that neither plays
/// before the other keep their order.
pub open spec fn order_from(files: Seq<Scanned>, k: int) -> Seq<int>
    decreases files.len() - k,
{
    if k < 0 || k >= files.len() {
        Seq::empty()
    } else {
        let rest = order_from(files, k + 1);
        if files[k].playable() {
            rest.insert(turn_from(files, rest, files[k], 0), k)
        } else {
            rest
        }
    }
}

/// The indices as numbers.
pub open spec fn index_view(v: Seq<usize>) -> Seq<int> {
    Seq::new(v.len(), |i: int| v[i] as int)
}

proof fn turn_is_first(files: Seq<Scanned>, order: Seq<int>, x: Scanned, i: int)
    requires
        0 <= i <= order.len(),
    ensures
        i <= turn_from(files, order, x, i) <= order.len(),
        forall|k: int|
            i <= k < turn_from(files, order, x, i) ==> plays_before(files[#[trigger] order[k]], x),
        turn_from(files, order, x, i) < order.len() ==> !plays_before(
            files[order[turn_from(files, order, x, i)]],
            x,
        ),
    decreases order.len() - i,
{
    if i < order.len() && plays_before(files[order[i]], x) {
        turn_is_first(files, order, x, i + 1);
    }
}

/// The indices of the playable files in playing order: series by season and episode, films by
/// title, parts in order.
pub fn playlist_order(scan: &Scan) -> (r: Vec<usize>)
    ensures
        index_view(r@) == order_from(scan.content().files, 0),
        forall|i: int| 0 <= i < r@.len() ==> #[trigger] r@[i] < scan.files@.len(),
{
    let ghost files = contents(scan.files@);
    let mut out: Vec<usize> = Vec::new();
    let mut k: usize = scan.files.len();
    assert(index_view(out@) =~= Seq::<int>::empty());
    while k > 0
        invariant
            k <= scan.files@.len(),
            files == contents(scan.files@),
            index_view(out@) == order_from(files, k as int),
            forall|i: int| 0 <= i < out@.len() ==> k <= #[trigger] out@[i] < scan.files@.len(),
        decreases k,
    {
        k -= 1;
        let f = &scan.files[k];
        let ghost rest = order_from(files, k + 1);
        if f.is_playable() {
            let mut p: usize = 0;
            while p < out.len() && played_before(&scan.files[out[p]], f)
                invariant
                    p <= out@.len(),
                    k < scan.files@.len(),
                    files == contents(scan.files@),
                    index_view(out@) == rest,
                    f.content() == files[k as int],
                    forall|i: int|
                        0 <= i < out@.len() ==> k < #[trigger] out@[i] < scan.files@.len(),
                    turn_from(files, rest, files[k as int], 0) == turn_from(
                        files,
                        rest,
                        files[k as int],
                        p as int,
                    ),
                decreases out@.len() - p,
            {
                assert(rest[p as int] == out@[p as int] as int);
                p += 1;
            }
            assert(turn_from(files, rest, files[k as int], 0) == p) by {
                if p < out@.len() {
                    assert(rest[p as int] == out@[p as int] as int);
                }
            }
            let ghost was = out@;
            out.insert(p, k);
            assert(index_view(out@) =~= rest.insert(p as int, k as int));
            assert forall|i: int| 0 <= i < out@.len() implies k <= #[trigger] out@[i]
                < scan.files@.len() by {
                if i < p {
                    assert(out@[i] == was[i]);
                } else if i > p {
                    assert(out@[i] == was[i - 1]);
                }
            }
        }
    }
    out
}

/// The playlist holds each playable file from the `k`-th on exactly once, and no file in it plays
/// before one that stands earlier.
pub proof fn playlist_is_ordered(files: Seq<Scanned>, k: int)
    requires
        0 <= k <= files.len(),
    ensures
        ({
            let r = order_from(files, k);
            &&& r.no_duplicates()
            &&& forall|i: int|
                #[trigger] r.contains(i) <==> k <= i < files.len() && files[i].playable()
            &&& forall|a: int, b: int|
                0 <= a < b < r.len() ==> !plays_before(
                    files[#[trigger] r[b]],
                    files[#[trigger] r[a]],
                )
        }),
    decreases files.len() - k,
{
    if k < files.len() {
        playlist_is_ordered(files, k + 1);
        let rest = order_from(files, k + 1);
        let r = order_from(files, k);
        if files[k].playable() {
            let x = files[k];
            turn_is_first(files, rest, x, 0);
            let p = turn_from(files, rest, x, 0);
            assert(r[p] == k);
            assert forall|i: int| #[trigger] r.contains(i) <==> k <= i < files.len()
                && files[i].playable() by {
                if r.contains(i) {
                    let j = choose|j: int| 0 <= j < r.len() && r[j] == i;
                    if j != p {
                        let m = if j < p {
                            j
                        } else {
                            j - 1
                        };
                        assert(rest[m] == i);
                        assert(rest.contains(i));
                    }
                }
                if rest.contains(i) {
                    let m = choose|m: int| 0 <= m < rest.len() && rest[m] == i;
                    assert(r[if m < p {
                        m
                    } else {
                        m + 1
                    }] == i);
                }
                if i == k {
                    assert(r.contains(k));
                }
            }
            assert(!rest.contains(k));
            assert forall|a: int, b: int| 0 <= a < b < r.len() implies r[a] != r[b] by {
                let ma = if a < p {
                    a
                } else {
                    a - 1
                };
                let mb = if b < p {
                    b
                } else {
                    b - 1
                };
                if a != p {
                    assert(r[a] == rest[ma]);
                    assert(rest.contains(r[a]));
                }
                if b != p {
                    assert(r[b] == rest[mb]);
                    assert(rest.contains(r[b]));
                }
            }
            assert forall|a: int, b: int| 0 <= a < b < r.len() implies !plays_before(
                files[#[trigger] r[b]],
                files[#[trigger] r[a]],
            ) by {
                if b == p {
                    assert(r[a] == rest[a]);
                    plays_before_order(files[rest[a]], x, x);
                } else if a == p {
                    assert(r[b] == rest[b - 1]);
                    plays_before_order(files[rest[b - 1]], files[rest[p]], x);
                    if b - 1 > p {
                        assert(!plays_before(files[rest[b - 1]], files[rest[p]]));
                    }
                } else {
                    let ma = if a < p {
                        a
                    } else {
                        a - 1
                    };
                    let mb = if b < p {
                        b
                    } else {
                        b - 1
                    };
                    assert(r[a] == rest[ma] && r[b] == rest[mb]);
                }
            }
        } else {
            assert forall|i: int| #[trigger] r.contains(i) <==> k <= i < files.len()
                && files[i].playable() by {
                assert(rest.contains(i) <==> k + 1 <= i < files.len() && files[i].playable());
            }
        }
    }
}

/// Whether one index comes before another in a list.
pub open spec fn comes_before(order: Seq<int>, a: int, b: int) -> bool {
    exists|i: int, j: int|
        0 <= i < j < order.len() && #[trigger] order[i] == a && #[trigger] order[j] == b
}

proof fn what_plays_before_comes_before(files: Seq<Scanned>, a: int, b: int)
    requires
        0 <= a < files.len(),
        0 <= b < files.len(),
        files[a].playable(),
        files[b].playable(),
        plays_before(files[a], files[b]),
    ensures
        comes_before(order_from(files, 0), a, b),
{
    let r = order_from(files, 0);
    playlist_is_ordered(files, 0);
    plays_before_order(files[a], files[b], files[a]);
    assert(r.contains(a) && r.contains(b));
    let i = choose|i: int| 0 <= i < r.len() && r[i] == a;
    let j = choose|j: int| 0 <= j < r.len() && r[j] == b;
    if j < i {
        assert(!plays_before(files[r[i]], files[r[j]]));
    }
    assert(r[i] == a && r[j] == b);
}

/// A season is played through before the next, whatever the episodes, and within a season the
/// episode that comes first by number plays first.
pub proof fn seasons_play_in_turn(
    files: Seq<Scanned>,
    a: int,
    b: int,
    sa: u16,
    ea: Seq<u16>,
    sb: u16,
    eb: Seq<u16>,
)
    requires
        0 <= a < files.len(),
        0 <= b < files.len(),
        files[a].playable(),
        files[b].playable(),
        lower(files[a].parsed.title) == lower(files[b].parsed.title),
        files[a].parsed.episode == Some(Episode::SeasonEpisode { season: sa, episodes: ea }),
        files[b].parsed.episode == Some(Episode::SeasonEpisode { season: sb, episodes: eb }),
        sa < sb || (sa == sb && ea.len() > 0 && eb.len() > 0 && ea[0] < eb[0]),
    ensures
        comes_before(order_from(files, 0), a, b),
{
    what_plays_before_comes_before(files, a, b);
}

/// What stands for a whole season plays before the season's episodes, and after all earlier ones.
pub proof fn a_season_comes_before_its_episodes(
    files: Seq<Scanned>,
    a: int,
    b: int,
    sa: u16,
    sb: u16,
    eb: Seq<u16>,
)
    requires
        0 <= a < files.len(),
        0 <= b < files.len(),
        files[a].playable(),
        files[b].playable(),
        lower(files[a].parsed.title) == lower(files[b].parsed.title),
        files[a].parsed.episode == Some(Episode::SeasonOnly { season: sa }),
        files[b].parsed.episode == Some(Episode::SeasonEpisode { season: sb, episodes: eb }),
    ensures
        sa <= sb ==> comes_before(order_from(files, 0), a, b),
        sb < sa ==> comes_before(order_from(files, 0), b, a),
{
    if sa <= sb {
        what_plays_before_comes_before(files, a, b);
    } else {
        what_plays_before_comes_before(files, b, a);
    }
}

/// Episodes numbered through play by number, and dated ones by date.
pub proof fn episodes_play_by_number_or_date(files: Seq<Scanned>, a: int, b: int)
    requires
        0 <= a < files.len(),
        0 <= b < files.len(),
        files[a].playable(),
        files[b].playable(),
        lower(files[a].parsed.title) == lower(files[b].parsed.title),
    ensures
        match (files[a].parsed.episode, files[b].parsed.episode) {
            (Some(Episode::Absolute(x)), Some(Episode::Absolute(y))) => x.len() > 0 && y.len() > 0
                && x[0] < y[0] ==> comes_before(order_from(files, 0), a, b),
            (
                Some(Episode::Date { year: ya, month: ma, day: da }),
                Some(Episode::Date { year: yb, month: mb, day: db }),
            ) => da < 100 && db < 100 && (ya < yb || (ya == yb && (ma < mb || (ma == mb && da < db))))
                ==> comes_before(order_from(files, 0), a, b),
            _ => true,
        },
{
    match (files[a].parsed.episode, files[b].parsed.episode) {
        (Some(Episode::Absolute(x)), Some(Episode::Absolute(y))) => if x.len() > 0 && y.len() > 0
            && x[0] < y[0] {
            what_plays_before_comes_before(files, a, b);
        },
        (
            Some(Episode::Date { year: ya, month: ma, day: da }),
            Some(Episode::Date { year: yb, month: mb, day: db }),
        ) => if da < 100 && db < 100 && (ya < yb || (ya == yb && (ma < mb || (ma == mb && da < db)))) {
            what_plays_before_comes_before(files, a, b);
        },
        _ => {},
    }
}

/// Parts of one film, or of one episode, play by number, and files that nothing else tells apart play
/// by path.
pub proof fn parts_play_in_turn(files: Seq<Scanned>, a: int, b: int, pa: u32, pb: u32)
    requires
        0 <= a < files.len(),
        0 <= b < files.len(),
        files[a].playable(),
        files[b].playable(),
        lower(files[a].parsed.title) == lower(files[b].parsed.title),
        files[a].parsed.episode == files[b].parsed.episode,
        files[a].parsed.part == Some(pa),
        files[b].parsed.part == Some(pb),
    ensures
        pa < pb ==> comes_before(order_from(files, 0), a, b),
        pa == pb && path_lt(files[a].path, files[b].path) ==> comes_before(
            order_from(files, 0),
            a,
            b,
        ),
{
    if pa < pb || (pa == pb && path_lt(files[a].path, files[b].path)) {
        what_plays_before_comes_before(files, a, b);
    }
}

/// Titles play in the order of their characters, letter case aside: the one that is smaller where the
/// two first differ, or that ends there, plays first, whatever its season, episode or part.
pub proof fn titles_play_in_turn(files: Seq<Scanned>, a: int, b: int, k: int)
    requires
        0 <= a < files.len(),
        0 <= b < files.len(),
        files[a].playable(),
        files[b].playable(),
        ({
            let x = lower(files[a].parsed.title);
            let y = lower(files[b].parsed.title);
            &&& 0 <= k <= x.len()
            &&& k < y.len()
            &&& x.take(k) == y.take(k)
            &&& k == x.len() || x[k] < y[k]
        }),
    ensures
        comes_before(order_from(files, 0), a, b),
{
    let x = lower(files[a].parsed.title);
    let y = lower(files[b].parsed.title);
    texts_are_ordered_where_they_differ(x, y, k);
    what_plays_before_comes_before(files, a, b);
}

/// Of the candidates that are more than fallbacks the surest is chosen, whatever their order: a certain
/// one if there is any, else a probable one. Of equally sure ones it is the last. None is chosen exactly
/// where there are only fallbacks.
pub proof fn the_surest_candidate_is_chosen(c: Seq<Candidate>)
    ensures
        -1 <= surest(c) < c.len(),
        surest(c) < 0 <==> forall|i: int|
            0 <= i < c.len() ==> (#[trigger] c[i]).confidence == Confidence::Weak,
        surest(c) >= 0 ==> c[surest(c)].confidence != Confidence::Weak,
        (exists|i: int| 0 <= i < c.len() && (#[trigger] c[i]).confidence == Confidence::Certain)
            ==> surest(c) >= 0 && c[surest(c)].confidence == Confidence::Certain,
        surest(c) >= 0 ==> forall|i: int|
            surest(c) < i < c.len() ==> (#[trigger] c[i]).confidence != c[surest(c)].confidence,
    decreases c.len(),
{
    if c.len() > 0 {
        let front = c.drop_last();
        let n = c.len() - 1;
        the_surest_candidate_is_chosen(front);
        surest_bounds(front);
        let was = surest(front);
        let now = surest(c);
        assert(c[n] == c.last());
        assert forall|i: int| 0 <= i < n implies #[trigger] front[i] == c[i] by {}
        if forall|i: int| 0 <= i < c.len() ==> (#[trigger] c[i]).confidence == Confidence::Weak {
            assert forall|i: int| 0 <= i < front.len() implies (#[trigger] front[i]).confidence
                == Confidence::Weak by {
                assert(front[i] == c[i]);
            }
        }
        if now < 0 {
            assert forall|i: int| 0 <= i < c.len() implies (#[trigger] c[i]).confidence
                == Confidence::Weak by {
                if i < n {
                    assert(front[i] == c[i]);
                }
            }
        }
        if exists|i: int| 0 <= i < c.len() && (#[trigger] c[i]).confidence == Confidence::Certain {
            let i = choose|i: int|
                0 <= i < c.len() && (#[trigger] c[i]).confidence == Confidence::Certain;
            if i < n {
                assert(front[i] == c[i]);
                assert(front[was].confidence == Confidence::Certain);
                assert(front[was] == c[was]);
            }
        }
        if now >= 0 {
            assert forall|i: int| now < i < c.len() implies (#[trigger] c[i]).confidence
                != c[now].confidence by {
                if i < n {
                    assert(front[i] == c[i]);
                    assert(front[now] == c[now]);
                }
            }
        }
    }
}

/// Containers that one demuxer opens make up families: a container is of its own family, and whatever
/// is of one family with two others puts these in one family too.
pub proof fn families_are_families(a: Container, b: Container, c: Container)
    ensures
        one_family(a, a),
        one_family(a, b) ==> one_family(b, a),
        one_family(a, b) && one_family(b, c) ==> one_family(a, c),
        one_family(Container::Mp4, Container::FragmentedMp4),
        one_family(Container::Matroska, Container::WebM),
        !one_family(Container::Mp4, Container::Matroska),
        !one_family(Container::Avi, a) || a == Container::Avi,
{
}

/// The kinds of extension exclude each other, and an extension that implies a container is one of
/// those that are tried as video.
pub proof fn extensions_speak_for_one_kind(e: Seq<char>)
    ensures
        !(is_subtitle_ext(e) && is_audio_ext(e)),
        !(is_subtitle_ext(e) && is_video_ext(e)),
        !(is_audio_ext(e) && is_video_ext(e)),
        implied_container(e) is Some ==> is_video_ext(e),
        is_subtitle_ext(e) || is_audio_ext(e) || is_video_ext(e) ==> 2 <= e.len() <= 4,
{
    reveal_strlit("srt");
    reveal_strlit("ass");
    reveal_strlit("ssa");
    reveal_strlit("sub");
    reveal_strlit("idx");
    reveal_strlit("vtt");
    reveal_strlit("sup");
    reveal_strlit("smi");
    reveal_strlit("mp3");
    reveal_strlit("flac");
    reveal_strlit("wav");
    reveal_strlit("m4a");
    reveal_strlit("aac");
    reveal_strlit("ogg");
    reveal_strlit("opus");
    reveal_strlit("wma");
    reveal_strlit("alac");
    reveal_strlit("aiff");
    reveal_strlit("ape");
    reveal_strlit("dsf");
    reveal_strlit("wv");
    reveal_strlit("mkv");
    reveal_strlit("mp4");
    reveal_strlit("m4v");
    reveal_strlit("avi");
    reveal_strlit("mov");
    reveal_strlit("wmv");
    reveal_strlit("flv");
    reveal_strlit("webm");
    reveal_strlit("ts");
    reveal_strlit("m2ts");
    reveal_strlit("mts");
    reveal_strlit("mpg");
    reveal_strlit("mpeg");
    reveal_strlit("vob");
    reveal_strlit("ogv");
    reveal_strlit("3gp");
    reveal_strlit("divx");
    reveal_strlit("rmvb");
    reveal_strlit("asf");
    reveal_strlit("m2v");
    reveal_strlit("mxf");
    reveal_strlit("iso");
    assert("srt"@.len() == 3 && "srt"@[0] == 's' && "srt"@[1] == 'r' && "srt"@[2] == 't');
    assert("ass"@.len() == 3 && "ass"@[0] == 'a' && "ass"@[1] == 's' && "ass"@[2] == 's');
    assert("ssa"@.len() == 3 && "ssa"@[0] == 's' && "ssa"@[1] == 's' && "ssa"@[2] == 'a');
    assert("sub"@.len() == 3 && "sub"@[0] == 's' && "sub"@[1] == 'u' && "sub"@[2] == 'b');
    assert("idx"@.len() == 3 && "idx"@[0] == 'i' && "idx"@[1] == 'd' && "idx"@[2] == 'x');
    assert("vtt"@.len() == 3 && "vtt"@[0] == 'v' && "vtt"@[1] == 't' && "vtt"@[2] == 't');
    assert("sup"@.len() == 3 && "sup"@[0] == 's' && "sup"@[1] == 'u' && "sup"@[2] == 'p');
    assert("smi"@.len() == 3 && "smi"@[0] == 's' && "smi"@[1] == 'm' && "smi"@[2] == 'i');
    assert("mp3"@.len() == 3 && "mp3"@[0] == 'm' && "mp3"@[1] == 'p' && "mp3"@[2] == '3');
    assert("flac"@.len() == 4 && "flac"@[0] == 'f' && "flac"@[1] == 'l' && "flac"@[2] == 'a'
        && "flac"@[3] == 'c');
    assert("wav"@.len() == 3 && "wav"@[0] == 'w' && "wav"@[1] == 'a' && "wav"@[2] == 'v');
    assert("m4a"@.len() == 3 && "m4a"@[0] == 'm' && "m4a"@[1] == '4' && "m4a"@[2] == 'a');
    assert("aac"@.len() == 3 && "aac"@[0] == 'a' && "aac"@[1] == 'a' && "aac"@[2] == 'c');
    assert("ogg"@.len() == 3 && "ogg"@[0] == 'o' && "ogg"@[1] == 'g' && "ogg"@[2] == 'g');
    assert("opus"@.len() == 4 && "opus"@[0] == 'o' && "opus"@[1] == 'p' && "opus"@[2] == 'u'
        && "opus"@[3] == 's');
    assert("wma"@.len() == 3 && "wma"@[0] == 'w' && "wma"@[1] == 'm' && "wma"@[2] == 'a');
    assert("alac"@.len() == 4 && "alac"@[0] == 'a' && "alac"@[1] == 'l' && "alac"@[2] == 'a'
        && "alac"@[3] == 'c');
    assert("aiff"@.len() == 4 && "aiff"@[0] == 'a' && "aiff"@[1] == 'i' && "aiff"@[2] == 'f'
        && "aiff"@[3] == 'f');
    assert("ape"@.len() == 3 && "ape"@[0] == 'a' && "ape"@[1] == 'p' && "ape"@[2] == 'e');
    assert("dsf"@.len() == 3 && "dsf"@[0] == 'd' && "dsf"@[1] == 's' && "dsf"@[2] == 'f');
    assert("wv"@.len() == 2 && "wv"@[0] == 'w' && "wv"@[1] == 'v');
    assert("mkv"@.len() == 3 && "mkv"@[0] == 'm' && "mkv"@[1] == 'k' && "mkv"@[2] == 'v');
    assert("mp4"@.len() == 3 && "mp4"@[0] == 'm' && "mp4"@[1] == 'p' && "mp4"@[2] == '4');
    assert("m4v"@.len() == 3 && "m4v"@[0] == 'm' && "m4v"@[1] == '4' && "m4v"@[2] == 'v');
    assert("avi"@.len() == 3 && "avi"@[0] == 'a' && "avi"@[1] == 'v' && "avi"@[2] == 'i');
    assert("mov"@.len() == 3 && "mov"@[0] == 'm' && "mov"@[1] == 'o' && "mov"@[2] == 'v');
    assert("wmv"@.len() == 3 && "wmv"@[0] == 'w' && "wmv"@[1] == 'm' && "wmv"@[2] == 'v');
    assert("flv"@.len() == 3 && "flv"@[0] == 'f' && "flv"@[1] == 'l' && "flv"@[2] == 'v');
    assert("webm"@.len() == 4 && "webm"@[0] == 'w' && "webm"@[1] == 'e' && "webm"@[2] == 'b'
        && "webm"@[3] == 'm');
    assert("ts"@.len() == 2 && "ts"@[0] == 't' && "ts"@[1] == 's');
    assert("m2ts"@.len() == 4 && "m2ts"@[0] == 'm' && "m2ts"@[1] == '2' && "m2ts"@[2] == 't'
        && "m2ts"@[3] == 's');
    assert("mts"@.len() == 3 && "mts"@[0] == 'm' && "mts"@[1] == 't' && "mts"@[2] == 's');
    assert("mpg"@.len() == 3 && "mpg"@[0] == 'm' && "mpg"@[1] == 'p' && "mpg"@[2] == 'g');
    assert("mpeg"@.len() == 4 && "mpeg"@[0] == 'm' && "mpeg"@[1] == 'p' && "mpeg"@[2] == 'e'
        && "mpeg"@[3] == 'g');
    assert("vob"@.len() == 3 && "vob"@[0] == 'v' && "vob"@[1] == 'o' && "vob"@[2] == 'b');
    assert("ogv"@.len() == 3 && "ogv"@[0] == 'o' && "ogv"@[1] == 'g' && "ogv"@[2] == 'v');
    assert("3gp"@.len() == 3 && "3gp"@[0] == '3' && "3gp"@[1] == 'g' && "3gp"@[2] == 'p');
    assert("divx"@.len() == 4 && "divx"@[0] == 'd' && "divx"@[1] == 'i' && "divx"@[2] == 'v'
        && "divx"@[3] == 'x');
    assert("rmvb"@.len() == 4 && "rmvb"@[0] == 'r' && "rmvb"@[1] == 'm' && "rmvb"@[2] == 'v'
        && "rmvb"@[3] == 'b');
    assert("asf"@.len() == 3 && "asf"@[0] == 'a' && "asf"@[1] == 's' && "asf"@[2] == 'f');
    assert("m2v"@.len() == 3 && "m2v"@[0] == 'm' && "m2v"@[1] == '2' && "m2v"@[2] == 'v');
    assert("mxf"@.len() == 3 && "mxf"@[0] == 'm' && "mxf"@[1] == 'x' && "mxf"@[2] == 'f');
    assert("iso"@.len() == 3 && "iso"@[0] == 'i' && "iso"@[1] == 's' && "iso"@[2] == 'o');
}

/// A file is what its bytes say, and what its extension says where they say nothing: letter case is
/// nothing to go by, a file that is recognised is not unidentified, an extension is only wrong about a
/// container that was recognised and is of another family, and a subtitle's bytes have no say.
pub proof fn files_are_what_their_bytes_say(
    path: Seq<char>,
    ext: Seq<char>,
    size: u64,
    parsed: Name,
    seen: Seq<Candidate>,
)
    requires
        extension_of(path) is Some,
        lower(extension_of(path)->0) == ext,
    ensures
        ({
            let f = classified(path, size, parsed, seen);
            &&& f.path == path && f.size == size && f.parsed == parsed
            &&& f.extension == Some(ext)
            &&& f.unidentified <==> f.container is None
            &&& f.container is None <==> f.confidence is None
            &&& f.kind == MediaKind::Subtitle <==> is_subtitle_ext(ext)
            &&& f.kind == MediaKind::Audio <==> is_audio_ext(ext)
            &&& is_video_ext(ext) ==> f.kind == MediaKind::Video
            &&& is_subtitle_ext(ext) ==> f.container is None
            &&& f.extension_mismatch ==> f.container is Some && implied_container(ext) is Some
                && f.container != implied_container(ext)
            &&& f.container is Some && f.container == implied_container(ext) ==> !f.extension_mismatch
            &&& f.container == Some(Container::Avi) && implied_container(ext) == Some(
                Container::Matroska,
            ) ==> f.extension_mismatch
        }),
{
    extensions_speak_for_one_kind(ext);
    the_surest_candidate_is_chosen(seen);
}

proof fn padded_numeral(n: nat) -> (r: Seq<char>)
    ensures
        r == pad0(dec(n), 2),
        digits_value(r) == n,
        r.len() >= 2,
{
    crate::json_writer::dec_value(n);
    crate::number::padding_keeps_the_value(dec(n), 2);
    pad0(dec(n), 2)
}

/// A label names the season before the episode, both to be read back as the numbers that they are.
pub proof fn labels_name_the_episode(f: Scanned, season: u16, episode: u16)
    requires
        f.parsed.title.len() > 0,
        f.parsed.episode == Some(Episode::SeasonEpisode { season, episodes: seq![episode] }),
    ensures
        exists|p: Seq<char>, a: Seq<char>, b: Seq<char>|
            label_of(f) == #[trigger] p.add(" S"@).add(a).add("E"@).add(b) && digits_value(a)
                == season && digits_value(b) == episode && a.len() >= 2 && b.len() >= 2,
{
    let a = padded_numeral(season as nat);
    let b = padded_numeral(episode as nat);
    let p = f.parsed.title + year_suffix(f.parsed.year);
    let one = seq![episode];
    assert(one.last() == episode);
    assert(episode_list(one) == "E"@ + b);
    assert(label_of(f) =~= p.add(" S"@).add(a).add("E"@).add(b));
}

/// A label of a whole season names the season.
pub proof fn labels_name_the_season(f: Scanned, season: u16)
    requires
        f.parsed.title.len() > 0,
        f.parsed.episode == Some(Episode::SeasonOnly { season }),
    ensures
        exists|p: Seq<char>, a: Seq<char>|
            label_of(f) == #[trigger] p.add(" S"@).add(a) && digits_value(a) == season && a.len()
                >= 2,
{
    let a = padded_numeral(season as nat);
    let p = f.parsed.title + year_suffix(f.parsed.year);
    assert(label_of(f) =~= p.add(" S"@).add(a));
}

/// A label begins with the title; that of a film has its year in brackets after it, and nothing else.
pub proof fn labels_begin_with_the_title(f: Scanned, year: u16)
    requires
        f.parsed.title.len() > 0,
    ensures
        f.parsed.title.is_prefix_of(label_of(f)),
        f.parsed.episode is None && f.parsed.year is None ==> label_of(f) == f.parsed.title,
        f.parsed.episode is None && f.parsed.year == Some(year) ==> exists|a: Seq<char>|
            label_of(f) == #[trigger] f.parsed.title.add(" ("@).add(a).add(")"@) && digits_value(a)
                == year,
{
    let title = f.parsed.title;
    let label = label_of(f);
    assert(label.subrange(0, title.len() as int) =~= title);
    if f.parsed.episode is None {
        if f.parsed.year == Some(year) {
            crate::json_writer::dec_value(year as nat);
            assert(label =~= title.add(" ("@).add(dec(year as nat)).add(")"@));
        } else if f.parsed.year is None {
            assert(label =~= title);
        }
    }
}

/// An episode that goes by its date is labelled with the year, the month and the day, in this order.
pub proof fn labels_name_the_date(f: Scanned, year: u16, month: u8, day: u8)
    requires
        f.parsed.title.len() > 0,
        f.parsed.episode == Some(Episode::Date { year, month, day }),
    ensures
        exists|p: Seq<char>, a: Seq<char>, b: Seq<char>, c: Seq<char>|
            label_of(f) == #[trigger] p.add(" "@).add(a).add("-"@).add(b).add("-"@).add(c)
                && digits_value(a) == year && digits_value(b) == month && digits_value(c) == day,
{
    let p = f.parsed.title + year_suffix(f.parsed.year);
    let a = dec(year as nat);
    let b = padded_numeral(month as nat);
    let c = padded_numeral(day as nat);
    crate::json_writer::dec_value(year as nat);
    assert(label_of(f) =~= p.add(" "@).add(a).add("-"@).add(b).add("-"@).add(c));
}

/// An episode that goes by a number of its own is labelled with that number. A file without a title
/// goes by its name.
pub proof fn labels_name_the_number(f: Scanned, n: u32)
    ensures
        f.parsed.title.len() > 0 && f.parsed.episode == Some(Episode::Absolute(seq![n]))
            ==> exists|p: Seq<char>, a: Seq<char>|
            label_of(f) == #[trigger] p.add(" #"@).add(a) && digits_value(a) == n,
        f.parsed.title.len() == 0 && name_of(f.path) is Some ==> label_of(f) == name_of(f.path)->0,
{
    let p = f.parsed.title + year_suffix(f.parsed.year);
    crate::json_writer::dec_value(n as nat);
    if f.parsed.title.len() > 0 && f.parsed.episode == Some(Episode::Absolute(seq![n])) {
        assert(label_of(f) =~= p.add(" #"@).add(dec(n as nat)));
    }
}

/// Nothing is noted of a file exactly where there is nothing odd about it: its extension agrees with
/// its bytes, its container was recognised (or it is a subtitle), it is no sample, it has a title, and
/// it is neither empty nor, as a video, below a million bytes.
pub proof fn only_oddities_are_noted(f: Scanned)
    ensures
        notes_of(f).len() == 0 <==> !f.extension_mismatch && (!f.unidentified || f.kind
            == MediaKind::Subtitle) && !f.parsed.is_sample && f.parsed.title.len() > 0 && f.size > 0
            && (f.kind != MediaKind::Video || f.size >= 1_000_000),
        notes_of(f).contains("zero bytes"@) <==> f.size == 0,
        f.parsed.is_sample ==> notes_of(f).contains("looks like a sample clip"@),
        f.parsed.title.len() == 0 ==> notes_of(f).contains(
            "no title could be parsed from the name"@,
        ),
{
    let n = notes_of(f);
    reveal_strlit("extension says .");
    reveal_strlit("no container signature matched; the player will still try it");
    reveal_strlit("looks like a sample clip");
    reveal_strlit("no title could be parsed from the name");
    reveal_strlit("only ");
    reveal_strlit("zero bytes");
    let z = "zero bytes"@;
    assert(z[0] == 'z');
    let k1 = if f.extension_mismatch {
        1int
    } else {
        0
    };
    let k2 = if f.unidentified && f.kind != MediaKind::Subtitle {
        k1 + 1
    } else {
        k1
    };
    let k3 = if f.parsed.is_sample {
        k2 + 1
    } else {
        k2
    };
    let k4 = if f.parsed.title.len() == 0 {
        k3 + 1
    } else {
        k3
    };
    let k5 = if f.kind == MediaKind::Video && 0 < f.size < 1_000_000 {
        k4 + 1
    } else {
        k4
    };
    if f.parsed.is_sample {
        assert(n[k2] == "looks like a sample clip"@);
    }
    if f.parsed.title.len() == 0 {
        assert(n[k3] == "no title could be parsed from the name"@);
    }
    if f.size == 0 {
        assert(n[k5] == z);
    } else {
        assert(n.len() == k5);
        assert forall|i: int| 0 <= i < n.len() implies #[trigger] n[i] != z by {
            if i < k1 {
                assert(n[i][0] == 'e');
            } else if i < k2 {
                assert(n[i][0] == 'n');
            } else if i < k3 {
                assert(n[i][0] == 'l');
            } else if i < k4 {
                assert(n[i][0] == 'n');
            } else {
                assert(n[i][0] == 'o');
            }
        }
    }
}

/// Whether a walk goes into a directory does not depend on letter case, and it never goes into one
/// whose name begins with a dot.
pub proof fn case_does_not_open_directories(a: Seq<char>, b: Seq<char>)
    requires
        lower(a) == lower(b),
    ensures
        enters(a) == enters(b),
        a.len() > 0 && a[0] == '.' ==> !enters(a),
{
    crate::text::lower_case_folds_letters(a);
    crate::text::lower_case_folds_letters(b);
    if a.len() > 0 {
        assert(lower(b).len() == b.len());
        assert(lower(a)[0] as u32 == lower(b)[0] as u32);
        assert('.' as u32 == 46);
        assert(a[0] == '.' <==> lower(a)[0] as u32 == 46);
        assert(b[0] == '.' <==> lower(b)[0] as u32 == 46);
    }
}

/// Whether a file that a walk came to is kept: media, and no sample unless these are asked for.
pub open spec fn is_kept(f: Scanned, samples: bool) -> bool {
    f.kind != MediaKind::Other && (samples || !f.parsed.is_sample)
}

/// A walk adds to what was found before, and changes none of it: the files and the unreadable
/// directories that were known come first, and what follows does not depend on them. Everything that
/// is added is media, and no sample is unless samples are asked for.
pub proof fn walks_add_up(
    acc: Found,
    entries: Seq<Node>,
    n: nat,
    levels: Option<nat>,
    samples: bool,
)
    requires
        n <= entries.len(),
    ensures
        ({
            let none = Found {
                files: Seq::empty(),
                unreadable: Seq::empty(),
                skipped: 0,
                truncated: false,
            };
            let r = walked(acc, entries, n, levels, samples);
            let alone = walked(none, entries, n, levels, samples);
            &&& r.files == acc.files + alone.files
            &&& r.unreadable == acc.unreadable + alone.unreadable
            &&& forall|i: int|
                0 <= i < alone.files.len() ==> is_kept(#[trigger] alone.files[i], samples)
            &&& samples ==> r.skipped == acc.skipped
        }),
    decreases entries, n,
{
    let none = Found { files: Seq::empty(), unreadable: Seq::empty(), skipped: 0, truncated: false };
    let r = walked(acc, entries, n, levels, samples);
    let alone = walked(none, entries, n, levels, samples);
    if n == 0 {
        assert(acc.files + Seq::<Scanned>::empty() =~= acc.files);
        assert(acc.unreadable + Seq::<(Seq<char>, Seq<char>)>::empty() =~= acc.unreadable);
    } else {
        let before = (n - 1) as nat;
        walks_add_up(acc, entries, before, levels, samples);
        let had = walked(acc, entries, before, levels, samples);
        let first = walked(none, entries, before, levels, samples);
        match entries[n - 1] {
            Node::Passed => {},
            Node::Dir { path, name, entries: inner, error } => {
                if enters(name@) && levels != Some(0nat) {
                    match error {
                        Some(e) => {
                            assert(acc.unreadable + first.unreadable.push((path@, e@)) =~= (
                            acc.unreadable + first.unreadable).push((path@, e@)));
                        },
                        None => {
                            let down = match levels {
                                Some(k) => Some((k - 1) as nat),
                                None => None,
                            };
                            walks_add_up(had, inner@, inner@.len(), down, samples);
                            walks_add_up(first, inner@, inner@.len(), down, samples);
                            let more = walked(none, inner@, inner@.len(), down, samples);
                            assert((acc.files + first.files) + more.files =~= acc.files + (
                            first.files + more.files));
                            assert((acc.unreadable + first.unreadable) + more.unreadable
                                =~= acc.unreadable + (first.unreadable + more.unreadable));
                            assert forall|i: int| 0 <= i < alone.files.len() implies is_kept(
                                #[trigger] alone.files[i],
                                samples,
                            ) by {
                                if i < first.files.len() {
                                    assert(alone.files[i] == first.files[i]);
                                } else {
                                    assert(alone.files[i] == more.files[i - first.files.len()]);
                                }
                            }
                        },
                    }
                }
            },
            Node::File { path, name, size, parsed, candidates } => {
                let f = classified(path@, size, parsed.content(), candidates@);
                assert(acc.files + first.files.push(f) =~= (acc.files + first.files).push(f));
                assert forall|i: int| 0 <= i < alone.files.len() implies is_kept(
                    #[trigger] alone.files[i],
                    samples,
                ) by {
                    if i < first.files.len() {
                        assert(alone.files[i] == first.files[i]);
                    }
                }
            },
        }
    }
}

/// What a walk through a directory's entries finds that has found nothing before.
pub open spec fn found_in(entries: Seq<Node>, levels: Option<nat>, samples: bool) -> Found {
    walked(
        Found { files: Seq::empty(), unreadable: Seq::empty(), skipped: 0, truncated: false },
        entries,
        entries.len(),
        levels,
        samples,
    )
}

/// One level less to go.
pub open spec fn one_less(levels: Option<nat>) -> Option<nat> {
    match levels {
        Some(k) => Some((k - 1) as nat),
        None => None,
    }
}

/// Whether everything that was found is among what is known.
pub open spec fn knows_all(known: Found, found: Found) -> bool {
    &&& forall|i: int|
        0 <= i < found.files.len() ==> known.files.contains(#[trigger] found.files[i])
    &&& forall|i: int|
        0 <= i < found.unreadable.len() ==> known.unreadable.contains(
            #[trigger] found.unreadable[i],
        )
}

/// Whether an entry has had its due: a media file that is not hidden is known, unless it is a sample and
/// these are not asked for; and so is whatever a directory holds that is gone into, or that it could
/// not be read.
pub open spec fn had_its_due(
    known: Found,
    entry: Node,
    levels: Option<nat>,
    samples: bool,
) -> bool {
    match entry {
        Node::File { path, name, size, parsed, candidates } => {
            let f = classified(path@, size, parsed.content(), candidates@);
            !hidden(name@) && is_kept(f, samples) ==> known.files.contains(f)
        },
        Node::Dir { path, name, entries, error } => enters(name@) && levels != Some(0nat) ==> (
        match error {
            Some(e) => known.unreadable.contains((path@, e@)),
            None => knows_all(known, found_in(entries@, one_less(levels), samples)),
        }),
        Node::Passed => true,
    }
}

/// A walk loses nothing: after it every entry of the directory has had its due.
pub proof fn walks_lose_nothing(
    acc: Found,
    entries: Seq<Node>,
    n: nat,
    k: int,
    levels: Option<nat>,
    samples: bool,
)
    requires
        n <= entries.len(),
        0 <= k < n,
    ensures
        had_its_due(walked(acc, entries, n, levels, samples), entries[k], levels, samples),
    decreases n,
{
    let before = (n - 1) as nat;
    let had = walked(acc, entries, before, levels, samples);
    let r = walked(acc, entries, n, levels, samples);
    match entries[n - 1] {
        Node::Dir { path, name, entries: inner, error: None } => {
            if enters(name@) && levels != Some(0nat) {
                walks_add_up(had, inner@, inner@.len(), one_less(levels), samples);
            }
        },
        _ => {},
    }
    assert forall|x: Scanned| #[trigger] had.files.contains(x) implies r.files.contains(x) by {
        let i = choose|i: int| 0 <= i < had.files.len() && had.files[i] == x;
        assert(r.files[i] == x);
    }
    assert forall|x: (Seq<char>, Seq<char>)| #[trigger]
        had.unreadable.contains(x) implies r.unreadable.contains(x) by {
        let i = choose|i: int| 0 <= i < had.unreadable.len() && had.unreadable[i] == x;
        assert(r.unreadable[i] == x);
    }
    if k < n - 1 {
        walks_lose_nothing(acc, entries, before, k, levels, samples);
    } else {
        match entries[k] {
            Node::File { path, name, size, parsed, candidates } => {
                let f = classified(path@, size, parsed.content(), candidates@);
                if !hidden(name@) && is_kept(f, samples) {
                    assert(r.files[had.files.len() as int] == f);
                }
            },
            Node::Dir { path, name, entries: inner, error } => {
                if enters(name@) && levels != Some(0nat) {
                    match error {
                        Some(e) => {
                            assert(r.unreadable[had.unreadable.len() as int] == (path@, e@));
                        },
                        None => {
                            let below = found_in(inner@, one_less(levels), samples);
                            assert forall|i: int| 0 <= i < below.files.len() implies r.files.contains(
                                #[trigger] below.files[i],
                            ) by {
                                assert(r.files[had.files.len() + i] == below.files[i]);
                            }
                            assert forall|i: int|
                                0 <= i < below.unreadable.len() implies r.unreadable.contains(
                                #[trigger] below.unreadable[i],
                            ) by {
                                assert(r.unreadable[had.unreadable.len() + i]
                                    == below.unreadable[i]);
                            }
                        },
                    }
                }
            },
            Node::Passed => {},
        }
    }
}

/// A limit keeps the first playable files, as many as it names, and drops no other file.
pub proof fn the_first_files_are_kept(files: Seq<Scanned>, n: nat, limit: nat)
    requires
        n <= files.len(),
    ensures
        ({
            let (kept, count, cut) = limited(files, n, limit);
            let all = files.take(n as int).filter(|f: Scanned| f.playable());
            &&& kept.filter(|f: Scanned| f.playable()) == all.take(
                if all.len() < limit {
                    all.len() as int
                } else {
                    limit as int
                },
            )
            &&& kept.filter(|f: Scanned| !f.playable()) == files.take(n as int).filter(
                |f: Scanned| !f.playable(),
            )
            &&& count == kept.filter(|f: Scanned| f.playable()).len()
        }),
    decreases n,
{
    reveal(Seq::filter);
    let plays = |f: Scanned| f.playable();
    let rests = |f: Scanned| !f.playable();
    if n == 0 {
        assert(files.take(0) =~= Seq::<Scanned>::empty());
        assert(Seq::<Scanned>::empty().filter(plays) =~= Seq::empty());
        assert(Seq::<Scanned>::empty().take(0) =~= Seq::empty());
    } else {
        let before = (n - 1) as nat;
        the_first_files_are_kept(files, before, limit);
        let (kept, count, cut) = limited(files, before, limit);
        let f = files[n - 1];
        let had = files.take(before as int).filter(plays);
        let all = files.take(n as int).filter(plays);
        assert(files.take(n as int).drop_last() =~= files.take(before as int));
        assert(kept.push(f).drop_last() =~= kept);
        assert(kept.push(f).last() == f);
        if f.playable() {
            assert(all == had.push(f));
            if count < limit {
                assert(had.len() < limit);
                assert(had.take(had.len() as int) =~= had);
                assert(all.take(all.len() as int) =~= all);
            } else {
                assert(all.take(limit as int) =~= had.take(limit as int));
            }
        }
    }
}

/// Two playable files belong to one item exactly where they share the title, letter case aside, and the
/// season; of files without a season the year decides too. So a season stays together whatever years
/// its episodes name, and two films of one title and different years stay apart.
pub proof fn seasons_stay_together(a: Scanned, b: Scanned)
    ensures
        key_of(a) == key_of(b) <==> lower(a.title()) == lower(b.title()) && season_of(
            a.parsed.episode,
        ) == season_of(b.parsed.episode) && (season_of(a.parsed.episode) is Some || a.parsed.year
            == b.parsed.year),
        match (a.parsed.episode, b.parsed.episode) {
            (
                Some(Episode::SeasonEpisode { season: s, .. }),
                Some(Episode::SeasonEpisode { season: t, .. }),
            ) => lower(a.title()) == lower(b.title()) ==> (key_of(a) == key_of(b) <==> s == t),
            _ => true,
        },
        a.parsed.title.len() > 0 ==> a.title() == a.parsed.title,
        a.parsed.title.len() == 0 && name_of(a.path) is Some ==> a.title() == name_of(a.path)->0,
{
}

/// A scan loses none of its roots. A file that is given directly is among the files and is played,
/// whatever its name; of a directory everything that belongs there is; one that cannot be read is
/// reported with the reason.
pub proof fn roots_lose_nothing(roots: Seq<Root>, n: nat, k: int, opts: ScanOptions)
    requires
        0 <= k < n <= roots.len(),
    ensures
        ({
            let all = rooted(roots, n, opts);
            match roots[k] {
                Root::File { path, size, parsed, candidates } => exists|i: int|
                    0 <= i < all.files.len() && (#[trigger] all.files[i]).path == path@
                        && all.files[i].size == size && all.files[i].kind != MediaKind::Other
                        && all.files[i].parsed == parsed.content(),
                Root::Dir { path, entries, error } => match error {
                    Some(e) => all.unreadable.contains((path@, e@)),
                    None => knows_all(
                        all,
                        found_in(entries@, levels_view(opts.max_depth), opts.include_samples),
                    ),
                },
                Root::Missing { path, reason } => all.unreadable.contains((path@, reason@)),
            }
        }),
    decreases n,
{
    let before = (n - 1) as nat;
    let had = rooted(roots, before, opts);
    let all = rooted(roots, n, opts);
    match roots[n - 1] {
        Root::Dir { path, entries, error: None } => {
            walks_add_up(
                had,
                entries@,
                entries@.len(),
                levels_view(opts.max_depth),
                opts.include_samples,
            );
        },
        _ => {},
    }
    assert(forall|i: int| 0 <= i < had.files.len() ==> all.files[i] == #[trigger] had.files[i]);
    assert(had.files.len() <= all.files.len());
    assert forall|x: Scanned| #[trigger] had.files.contains(x) implies all.files.contains(x) by {
        let i = choose|i: int| 0 <= i < had.files.len() && had.files[i] == x;
        assert(all.files[i] == x);
    }
    assert forall|x: (Seq<char>, Seq<char>)| #[trigger]
        had.unreadable.contains(x) implies all.unreadable.contains(x) by {
        let i = choose|i: int| 0 <= i < had.unreadable.len() && had.unreadable[i] == x;
        assert(all.unreadable[i] == x);
    }
    if k < before {
        roots_lose_nothing(roots, before, k, opts);
        match roots[k] {
            Root::File { path, size, parsed, candidates } => {
                let i = choose|i: int|
                    0 <= i < had.files.len() && (#[trigger] had.files[i]).path == path@
                        && had.files[i].size == size && had.files[i].kind != MediaKind::Other
                        && had.files[i].parsed == parsed.content();
                assert(all.files[i] == had.files[i]);
            },
            _ => {},
        }
    } else {
        match roots[k] {
            Root::File { path, size, parsed, candidates } => {
                let last = all.files[all.files.len() - 1];
                assert(last.path == path@ && last.size == size && last.kind != MediaKind::Other);
                assert(last.parsed == parsed.content());
            },
            Root::Dir { path, entries, error } => match error {
                Some(e) => {
                    assert(all.unreadable[all.unreadable.len() - 1] == (path@, e@));
                },
                None => {
                    let found = found_in(
                        entries@,
                        levels_view(opts.max_depth),
                        opts.include_samples,
                    );
                    assert forall|i: int| 0 <= i < found.files.len() implies all.files.contains(
                        #[trigger] found.files[i],
                    ) by {
                        assert(all.files[had.files.len() + i] == found.files[i]);
                    }
                    assert forall|i: int|
                        0 <= i < found.unreadable.len() implies all.unreadable.contains(
                        #[trigger] found.unreadable[i],
                    ) by {
                        assert(all.unreadable[had.unreadable.len() + i] == found.unreadable[i]);
                    }
                },
            },
            Root::Missing { path, reason } => {
                assert(all.unreadable[all.unreadable.len() - 1] == (path@, reason@));
            },
        }
    }
}

/// Without a limit a scan lists every file that its roots hold, each as often as it is there, in path
/// order; a limit takes playable files away and nothing else, and the scan says whether it did.
pub proof fn scans_list_what_the_roots_hold(roots: Seq<Root>, opts: ScanOptions)
    ensures
        ({
            let all = rooted(roots, roots.len(), opts);
            let found = scanned(roots, opts);
            &&& found.unreadable == all.unreadable
            &&& found.skipped == all.skipped
            &&& opts.limit is None ==> found.files.to_multiset() == all.files.to_multiset()
            &&& opts.limit is None ==> in_path_order(found.files)
            &&& opts.limit is Some ==> playable_count(found.files) <= opts.limit->0
            &&& opts.limit is Some ==> (found.truncated <==> playable_count(sorted(all.files))
                > opts.limit->0)
        }),
{
    let all = rooted(roots, roots.len(), opts);
    sorting_permutes(all.files);
    sorting_orders(all.files);
    if let Some(l) = opts.limit {
        limit_is_kept(sorted(all.files), l as nat);
    }
}

/// Items stand in the order of their titles; of two with one title the one without a year comes first,
/// then the earlier year; of two that share the year too the one without a season, then the earlier
/// season.
pub proof fn items_stand_by_title_year_and_season(files: Seq<Scanned>, n: nat, i: int, j: int)
    requires
        n <= files.len(),
        0 <= i < j < grouped(files, n).len(),
    ensures
        ({
            let a = grouped(files, n)[i].key;
            let b = grouped(files, n)[j].key;
            &&& a.title != b.title ==> lex_lt(a.title, b.title)
            &&& a.title == b.title && a.year is None ==> b.year is Some || b.season is Some
            &&& a.title == b.title && a.year is Some ==> b.year is Some && a.year->0 <= b.year->0
            &&& a.title == b.title && a.year == b.year ==> b.season is Some && (a.season is None
                || a.season->0 < b.season->0)
        }),
{
    grouping_partitions(files, n);
    let g = grouped(files, n);
    assert(key_lt(g[i].key, g[j].key));
}

/// What is tried as video, taken for sound or taken for a subtitle goes by these extensions and no
/// others.
pub proof fn extensions_are_known(e: Seq<char>)
    ensures
        is_video_ext(e) <==> seq![
                "mkv"@,
                "mp4"@,
                "m4v"@,
                "avi"@,
                "mov"@,
                "wmv"@,
                "flv"@,
                "webm"@,
                "ts"@,
                "m2ts"@,
                "mts"@,
                "mpg"@,
                "mpeg"@,
                "vob"@,
                "ogv"@,
                "3gp"@,
                "divx"@,
                "rmvb"@,
                "asf"@,
                "m2v"@,
                "mxf"@,
                "iso"@,
        ].contains(e),
        is_audio_ext(e) <==> seq![
                "mp3"@,
                "flac"@,
                "wav"@,
                "m4a"@,
                "aac"@,
                "ogg"@,
                "opus"@,
                "wma"@,
                "alac"@,
                "aiff"@,
                "ape"@,
                "dsf"@,
                "wv"@,
        ].contains(e),
        is_subtitle_ext(e) <==> seq![
                "srt"@,
                "ass"@,
                "ssa"@,
                "sub"@,
                "idx"@,
                "vtt"@,
                "sup"@,
                "smi"@,
        ].contains(e),
{
    let video: Seq<Seq<char>> = seq![
        "mkv"@,
        "mp4"@,
        "m4v"@,
        "avi"@,
        "mov"@,
        "wmv"@,
        "flv"@,
        "webm"@,
        "ts"@,
        "m2ts"@,
        "mts"@,
        "mpg"@,
        "mpeg"@,
        "vob"@,
        "ogv"@,
        "3gp"@,
        "divx"@,
        "rmvb"@,
        "asf"@,
        "m2v"@,
        "mxf"@,
        "iso"@,
    ];
    assert(video[0] == "mkv"@);
    assert(video[1] == "mp4"@);
    assert(video[2] == "m4v"@);
    assert(video[3] == "avi"@);
    assert(video[4] == "mov"@);
    assert(video[5] == "wmv"@);
    assert(video[6] == "flv"@);
    assert(video[7] == "webm"@);
    assert(video[8] == "ts"@);
    assert(video[9] == "m2ts"@);
    assert(video[10] == "mts"@);
    assert(video[11] == "mpg"@);
    assert(video[12] == "mpeg"@);
    assert(video[13] == "vob"@);
    assert(video[14] == "ogv"@);
    assert(video[15] == "3gp"@);
    assert(video[16] == "divx"@);
    assert(video[17] == "rmvb"@);
    assert(video[18] == "asf"@);
    assert(video[19] == "m2v"@);
    assert(video[20] == "mxf"@);
    assert(video[21] == "iso"@);
    let audio: Seq<Seq<char>> = seq![
        "mp3"@,
        "flac"@,
        "wav"@,
        "m4a"@,
        "aac"@,
        "ogg"@,
        "opus"@,
        "wma"@,
        "alac"@,
        "aiff"@,
        "ape"@,
        "dsf"@,
        "wv"@,
    ];
    assert(audio[0] == "mp3"@);
    assert(audio[1] == "flac"@);
    assert(audio[2] == "wav"@);
    assert(audio[3] == "m4a"@);
    assert(audio[4] == "aac"@);
    assert(audio[5] == "ogg"@);
    assert(audio[6] == "opus"@);
    assert(audio[7] == "wma"@);
    assert(audio[8] == "alac"@);
    assert(audio[9] == "aiff"@);
    assert(audio[10] == "ape"@);
    assert(audio[11] == "dsf"@);
    assert(audio[12] == "wv"@);
    let subti: Seq<Seq<char>> = seq![
        "srt"@,
        "ass"@,
        "ssa"@,
        "sub"@,
        "idx"@,
        "vtt"@,
        "sup"@,
        "smi"@,
    ];
    assert(subti[0] == "srt"@);
    assert(subti[1] == "ass"@);
    assert(subti[2] == "ssa"@);
    assert(subti[3] == "sub"@);
    assert(subti[4] == "idx"@);
    assert(subti[5] == "vtt"@);
    assert(subti[6] == "sup"@);
    assert(subti[7] == "smi"@);
}

/// An extension implies the container that it is short for, and no other.
pub proof fn extensions_imply_their_container(e: Seq<char>)
    ensures
        implied_container(e) == Some(Container::Matroska) <==> e == "mkv"@,
        implied_container(e) == Some(Container::WebM) <==> e == "webm"@,
        implied_container(e) == Some(Container::Mp4) <==> e == "mp4"@ || e == "m4v"@ || e == "mov"@,
        implied_container(e) == Some(Container::Avi) <==> e == "avi"@,
        implied_container(e) == Some(Container::Asf) <==> e == "wmv"@ || e == "asf"@,
        implied_container(e) == Some(Container::Flv) <==> e == "flv"@,
        implied_container(e) == Some(Container::Ogg) <==> e == "ogv"@,
{
    reveal_strlit("mkv");
    reveal_strlit("webm");
    reveal_strlit("mp4");
    reveal_strlit("m4v");
    reveal_strlit("mov");
    reveal_strlit("avi");
    reveal_strlit("wmv");
    reveal_strlit("asf");
    reveal_strlit("flv");
    reveal_strlit("ogv");
    assert("mkv"@.len() == 3 && "mkv"@[0] == 'm' && "mkv"@[1] == 'k' && "mkv"@[2] == 'v');
    assert("webm"@.len() == 4 && "webm"@[0] == 'w' && "webm"@[1] == 'e' && "webm"@[2] == 'b'
        && "webm"@[3] == 'm');
    assert("mp4"@.len() == 3 && "mp4"@[0] == 'm' && "mp4"@[1] == 'p' && "mp4"@[2] == '4');
    assert("m4v"@.len() == 3 && "m4v"@[0] == 'm' && "m4v"@[1] == '4' && "m4v"@[2] == 'v');
    assert("mov"@.len() == 3 && "mov"@[0] == 'm' && "mov"@[1] == 'o' && "mov"@[2] == 'v');
    assert("avi"@.len() == 3 && "avi"@[0] == 'a' && "avi"@[1] == 'v' && "avi"@[2] == 'i');
    assert("wmv"@.len() == 3 && "wmv"@[0] == 'w' && "wmv"@[1] == 'm' && "wmv"@[2] == 'v');
    assert("asf"@.len() == 3 && "asf"@[0] == 'a' && "asf"@[1] == 's' && "asf"@[2] == 'f');
    assert("flv"@.len() == 3 && "flv"@[0] == 'f' && "flv"@[1] == 'l' && "flv"@[2] == 'v');
    assert("ogv"@.len() == 3 && "ogv"@[0] == 'o' && "ogv"@[1] == 'g' && "ogv"@[2] == 'v');
}

/// Besides what is hidden a walk passes over these directories and no other.
pub proof fn only_these_are_passed_over(name: Seq<char>)
    requires
        name.len() == 0 || name[0] != '.',
    ensures
        enters(name) <==> !seq![
            lower(".git"@),
            lower(".svn"@),
            lower("node_modules"@),
            lower("$RECYCLE.BIN"@),
            lower("System Volume Information"@),
            lower(".Trash"@),
            lower(".Trashes"@),
            lower("@eaDir"@),
            lower("lost+found"@),
            lower("target"@),
        ].contains(lower(name)),
{
    let list = seq![
        lower(".git"@),
        lower(".svn"@),
        lower("node_modules"@),
        lower("$RECYCLE.BIN"@),
        lower("System Volume Information"@),
        lower(".Trash"@),
        lower(".Trashes"@),
        lower("@eaDir"@),
        lower("lost+found"@),
        lower("target"@),
    ];
    assert(list[0] == lower(".git"@) && list[1] == lower(".svn"@));
    assert(list[2] == lower("node_modules"@) && list[3] == lower("$RECYCLE.BIN"@));
    assert(list[4] == lower("System Volume Information"@) && list[5] == lower(".Trash"@));
    assert(list[6] == lower(".Trashes"@) && list[7] == lower("@eaDir"@));
    assert(list[8] == lower("lost+found"@) && list[9] == lower("target"@));
}

/// A further episode in a file is named behind the ones before it.
pub proof fn labels_name_every_episode(f: Scanned, g: Scanned, season: u16, episodes: Seq<u16>, e: u16)
    requires
        episodes.len() > 0,
        f.parsed.title.len() > 0,
        f.parsed.episode == Some(Episode::SeasonEpisode { season, episodes }),
        g.parsed == (Name {
            episode: Some(Episode::SeasonEpisode { season, episodes: episodes.push(e) }),
            ..f.parsed
        }),
    ensures
        exists|b: Seq<char>|
            label_of(g) == #[trigger] label_of(f).add("-E"@).add(b) && digits_value(b) == e && b.len()
                >= 2,
{
    let b = padded_numeral(e as nat);
    reveal_strlit("-");
    reveal_strlit("E");
    reveal_strlit("-E");
    assert("-"@ + "E"@ =~= "-E"@);
    assert(episodes.push(e).drop_last() =~= episodes);
    assert(label_of(g) =~= label_of(f).add("-E"@).add(b));
}

} // verus!
