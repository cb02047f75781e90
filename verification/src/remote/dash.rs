//! DASH: the names of a presentation's parts.
use vstd::prelude::*;
use vstd::string::*;

use crate::paths::{join, joined};
use crate::remote::delivery::is_digits;
use crate::text::{
    after_prefix,
    before_suffix,
    is_digit,
    rsplit_once,
    same,
    split_at_last,
    strip_prefix,
    strip_suffix,
};

verus! {

/// A part of a presentation.
#[derive(Debug, Clone, Copy, PartialEq, Eq, Structural)]
pub enum Artifact {
    Manifest,
    Init,
    Chunk,
}

/// Whether `s` is nothing but ASCII digits.
pub open spec fn digits(s: Seq<char>) -> bool {
    forall|i: int| 0 <= i < s.len() ==> is_digit(#[trigger] s[i])
}

/// Whether a name is that of an initialisation segment: `init-`, digits, `.m4s`.
pub open spec fn is_init(name: Seq<char>) -> bool {
    match after_prefix(name, "init-"@) {
        Some(rest) => match before_suffix(rest, ".m4s"@) {
            Some(d) => d.len() > 0 && digits(d),
            None => false,
        },
        None => false,
    }
}

/// Whether a name is that of a chunk: `chunk-`, digits, a hyphen, five digits, `.m4s`.
pub open spec fn is_chunk(name: Seq<char>) -> bool {
    match after_prefix(name, "chunk-"@) {
        Some(rest) => match split_at_last(rest, '-') {
            Some((id, tail)) => match before_suffix(tail, ".m4s"@) {
                Some(number) => id.len() > 0 && digits(id) && number.len() == 5 && digits(number),
                None => false,
            },
            None => false,
        },
        None => false,
    }
}

/// The part that a name stands for.
pub open spec fn artifact_of(name: Seq<char>) -> Option<Artifact> {
    if name == "manifest.mpd"@ {
        Some(Artifact::Manifest)
    } else if is_init(name) {
        Some(Artifact::Init)
    } else if is_chunk(name) {
        Some(Artifact::Chunk)
    } else {
        None
    }
}

fn init_name(name: &str) -> (r: bool)
    ensures
        r == is_init(name@),
{
    match strip_prefix(name, "init-") {
        Some(rest) => match strip_suffix(rest.as_str(), ".m4s") {
            Some(d) => !d.as_str().is_empty() && is_digits(d.as_str()),
            None => false,
        },
        None => false,
    }
}

fn chunk_name(name: &str) -> (r: bool)
    ensures
        r == is_chunk(name@),
{
    match strip_prefix(name, "chunk-") {
        Some(rest) => match rsplit_once(rest.as_str(), '-') {
            Some((id, tail)) => match strip_suffix(tail.as_str(), ".m4s") {
                Some(number) => !id.as_str().is_empty() && is_digits(id.as_str())
                    && number.as_str().unicode_len() == 5 && is_digits(number.as_str()),
                None => false,
            },
            None => false,
        },
        None => false,
    }
}

/// The part that a name stands for. Checked before any path is built from the name.
pub fn parse_artifact(name: &str) -> (r: Option<Artifact>)
    ensures
        r == artifact_of(name@),
{
    if same(name, "manifest.mpd") {
        Some(Artifact::Manifest)
    } else if init_name(name) {
        Some(Artifact::Init)
    } else if chunk_name(name) {
        Some(Artifact::Chunk)
    } else {
        None
    }
}

/// A name made of a prefix, a middle and the segment suffix holds a slash only if the middle does.
proof fn no_slash(name: Seq<char>, prefix: Seq<char>, middle: Seq<char>)
    requires
        name == prefix + middle + ".m4s"@,
        forall|i: int| 0 <= i < prefix.len() ==> prefix[i] != '/',
        forall|i: int| 0 <= i < middle.len() ==> middle[i] != '/',
    ensures
        !name.contains('/'),
{
    reveal_strlit(".m4s");
    let n = (prefix + middle).len();
    assert forall|i: int| 0 <= i < name.len() implies name[i] != '/' by {
        if i < prefix.len() {
            assert(name[i] == prefix[i]);
        } else if i < n {
            assert(name[i] == middle[i - prefix.len()]);
        } else {
            assert(name[i] == ".m4s"@[i - n]);
        }
    }
}

/// No part's name leads out of its directory: none holds a slash.
pub proof fn artifact_names_stay_inside(name: Seq<char>)
    requires
        artifact_of(name) is Some,
    ensures
        !name.contains('/'),
{
    reveal_strlit("manifest.mpd");
    reveal_strlit("init-");
    reveal_strlit("chunk-");
    reveal_strlit(".m4s");
    let suffix = ".m4s"@;
    if is_init(name) {
        let p = "init-"@;
        let rest = name.skip(p.len() as int);
        let d = rest.take(rest.len() - suffix.len());
        assert(after_prefix(name, p) == Some(rest));
        assert(rest =~= d + suffix);
        assert(name =~= p + d + suffix);
        assert forall|i: int| 0 <= i < d.len() implies d[i] != '/' by {
            assert(is_digit(d[i]));
        }
        no_slash(name, p, d);
    } else if is_chunk(name) {
        let p = "chunk-"@;
        let rest = name.skip(p.len() as int);
        assert(after_prefix(name, p) == Some(rest));
        crate::text::rfind_before_is_last(rest, '-', rest.len() as int);
        let k = crate::text::rfind(rest, '-');
        let id = rest.take(k);
        let tail = rest.skip(k + 1);
        let number = tail.take(tail.len() - suffix.len());
        assert(tail =~= number + suffix);
        let middle = id + seq!['-'] + number;
        assert(name =~= p + middle + suffix);
        assert forall|i: int| 0 <= i < middle.len() implies middle[i] != '/' by {
            if i < id.len() {
                assert(is_digit(id[i]));
            } else if i > id.len() {
                assert(middle[i] == number[i - id.len() - 1]);
                assert(is_digit(number[i - id.len() - 1]));
            }
        }
        no_slash(name, p, middle);
    }
}

/// The media type of a part.
pub open spec fn artifact_type(a: Artifact) -> Seq<char> {
    match a {
        Artifact::Manifest => "application/dash+xml"@,
        _ => "video/mp4"@,
    }
}

/// The media type of a part.
pub fn content_type(a: Artifact) -> (r: &'static str)
    ensures
        r@ == artifact_type(a),
{
    match a {
        Artifact::Manifest => "application/dash+xml",
        _ => "video/mp4",
    }
}

/// Where generated presentations are kept, below this user's configuration directory: apart from
/// those of the other format.
pub fn default_cache_root(config_dir: &str) -> (r: String)
    ensures
        r@ == joined(joined(config_dir@, "lumen"@), "dash-cache"@),
{
    join(join(config_dir, "lumen").as_str(), "dash-cache")
}

/// The two formats never share a cache directory.
pub proof fn cache_roots_differ(config_dir: Seq<char>)
    ensures
        joined(joined(config_dir, "lumen"@), "dash-cache"@) != joined(
            joined(config_dir, "lumen"@),
            "hls-cache"@,
        ),
{
    reveal_strlit("dash-cache");
    reveal_strlit("hls-cache");
    reveal_strlit("lumen");
    let base = joined(config_dir, "lumen"@);
    let a = joined(base, "dash-cache"@);
    let b = joined(base, "hls-cache"@);
    assert("dash-cache"@.len() == 10 && "hls-cache"@.len() == 9);
    assert("dash-cache"@[0] == 'd' && "hls-cache"@[0] == 'h');
    assert(a.len() == b.len() + 1);
}

/// Every initialisation segment and every chunk goes by its own name, and neither is taken for the
/// other or for the manifest.
pub proof fn parts_go_by_their_names(id: Seq<char>, number: Seq<char>)
    requires
        digits(id),
        id.len() > 0,
        digits(number),
        number.len() == 5,
    ensures
        artifact_of("init-"@ + (id + ".m4s"@)) == Some(Artifact::Init),
        artifact_of("chunk-"@ + (id.push('-') + (number + ".m4s"@))) == Some(Artifact::Chunk),
        artifact_of("manifest.mpd"@) == Some(Artifact::Manifest),
{
    let init = "init-"@ + (id + ".m4s"@);
    let tail = number + ".m4s"@;
    let rest = id.push('-') + tail;
    let chunk = "chunk-"@ + rest;
    reveal_strlit("manifest.mpd");
    reveal_strlit("init-");
    reveal_strlit("chunk-");
    reveal_strlit(".m4s");
    crate::text::what_is_added_comes_off(id + ".m4s"@, "init-"@);
    crate::text::what_is_added_comes_off(id, ".m4s"@);
    crate::text::what_is_added_comes_off(rest, "chunk-"@);
    crate::text::what_is_added_comes_off(number, ".m4s"@);
    assert("manifest.mpd"@[0] == 'm' && init[0] == 'i' && chunk[0] == 'c');
    assert(!tail.contains('-')) by {
        if tail.contains('-') {
            let i = choose|i: int| 0 <= i < tail.len() && tail[i] == '-';
            if i < 5 {
                assert(is_digit(number[i]));
            } else {
                assert(".m4s"@[i - 5] == '-');
            }
        }
    }
    crate::text::splits_at_the_last(id, tail, '-');
    assert(!"init-"@.is_prefix_of(chunk)) by {
        if "init-"@.is_prefix_of(chunk) {
            assert(chunk.subrange(0, 5)[0] == 'i');
        }
    }
}

/// Only the manifest is a manifest; whatever else there is of a presentation is video.
pub proof fn parts_have_their_types(a: Artifact)
    ensures
        a is Manifest ==> artifact_type(a) == "application/dash+xml"@,
        !(a is Manifest) ==> artifact_type(a) == "video/mp4"@,
{
}

} // verus!
