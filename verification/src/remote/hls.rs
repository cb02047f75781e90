//! HLS: the names of a presentation's parts, and the check of a generated playlist.
use vstd::prelude::*;
use vstd::string::*;

use crate::number::{read_number, reading};
use crate::paths::{file_name, join, joined, name_of};
use crate::remote::delivery::{is_digits, GenError};
use crate::text::{
    after_prefix,
    before_suffix,
    chars_of,
    find_from_is_first,
    is_digit,
    lines,
    lines_of,
    pair_views,
    same,
    split,
    split_text,
    strip_prefix,
    strip_suffix,
    trim,
    trim_text,
    views,
};

verus! {

/// A part of a presentation.
#[derive(Debug, Clone, Copy, PartialEq, Eq, Structural)]
pub enum Artifact {
    Playlist,
    Init,
    Segment,
}

/// Whether a name is that of a segment: `seg_`, five digits, `.m4s`.
pub open spec fn is_segment(name: Seq<char>) -> bool {
    match after_prefix(name, "seg_"@) {
        Some(rest) => match before_suffix(rest, ".m4s"@) {
            Some(d) => d.len() == 5 && forall|i: int| 0 <= i < d.len() ==> is_digit(#[trigger] d[i]),
            None => false,
        },
        None => false,
    }
}

/// The part that a name stands for.
pub open spec fn artifact_of(name: Seq<char>) -> Option<Artifact> {
    if name == "playlist.m3u8"@ {
        Some(Artifact::Playlist)
    } else if name == "init.mp4"@ {
        Some(Artifact::Init)
    } else if is_segment(name) {
        Some(Artifact::Segment)
    } else {
        None
    }
}

/// The part that a name stands for. Checked before any path is built from the name.
pub fn parse_artifact(name: &str) -> (r: Option<Artifact>)
    ensures
        r == artifact_of(name@),
{
    if same(name, "playlist.m3u8") {
        return Some(Artifact::Playlist);
    }
    if same(name, "init.mp4") {
        return Some(Artifact::Init);
    }
    let rest = match strip_prefix(name, "seg_") {
        Some(rest) => rest,
        None => {
            return None;
        },
    };
    let digits = match strip_suffix(rest.as_str(), ".m4s") {
        Some(d) => d,
        None => {
            return None;
        },
    };
    if digits.as_str().unicode_len() == 5 && is_digits(digits.as_str()) {
        Some(Artifact::Segment)
    } else {
        None
    }
}

/// No part's name leads out of its directory: none holds a slash.
pub proof fn artifact_names_stay_inside(name: Seq<char>)
    requires
        artifact_of(name) is Some,
    ensures
        !name.contains('/'),
{
    reveal_strlit("playlist.m3u8");
    reveal_strlit("init.mp4");
    reveal_strlit("seg_");
    reveal_strlit(".m4s");
    if is_segment(name) {
        let p = "seg_"@;
        let q = ".m4s"@;
        let rest = name.skip(4);
        assert(after_prefix(name, p) == Some(rest));
        let d = rest.take(rest.len() - 4);
        assert forall|i: int| 0 <= i < name.len() implies name[i] != '/' by {
            if i < 4 {
                assert(name.subrange(0, 4)[i] == p[i]);
            } else if i < 4 + d.len() {
                assert(d[i - 4] == name[i]);
                assert(is_digit(d[i - 4]));
            } else {
                let k = i - 4 - d.len();
                assert(rest.subrange(rest.len() - 4, rest.len() as int)[k] == q[k]);
            }
        }
    }
}

/// The media type of a part.
pub open spec fn artifact_type(a: Artifact) -> Seq<char> {
    match a {
        Artifact::Playlist => "application/vnd.apple.mpegurl"@,
        _ => "video/mp4"@,
    }
}

/// The media type of a part.
pub fn content_type(a: Artifact) -> (r: &'static str)
    ensures
        r@ == artifact_type(a),
{
    match a {
        Artifact::Playlist => "application/vnd.apple.mpegurl",
        _ => "video/mp4",
    }
}

/// Where generated presentations are kept, below this user's configuration directory.
pub fn default_cache_root(config_dir: &str) -> (r: String)
    ensures
        r@ == joined(joined(config_dir@, "lumen"@), "hls-cache"@),
{
    join(join(config_dir, "lumen").as_str(), "hls-cache")
}

/// The durations and addresses that the lines of a playlist from the `i`-th on list. A duration is
/// kept as written. A line that is malformed, or that no address follows, is passed over.
pub open spec fn extinf_from(rows: Seq<Seq<char>>, i: int) -> Seq<(Seq<char>, Seq<char>)>
    decreases rows.len() - i,
{
    if i < 0 || i >= rows.len() {
        Seq::empty()
    } else {
        match after_prefix(rows[i], "#EXTINF:"@) {
            None => extinf_from(rows, i + 1),
            Some(rest) => {
                let duration = trim(split(rest, ',')[0]);
                if reading(duration) is None {
                    extinf_from(rows, i + 1)
                } else if i + 1 >= rows.len() {
                    Seq::empty()
                } else {
                    let uri = trim(rows[i + 1]);
                    if uri.len() == 0 || uri[0] == '#' {
                        extinf_from(rows, i + 2)
                    } else {
                        seq![(duration, uri)] + extinf_from(rows, i + 2)
                    }
                }
            },
        }
    }
}

/// The durations and addresses that a playlist lists, in order.
pub fn parse_extinf_pairs(text: &str) -> (r: Vec<(String, String)>)
    ensures
        pair_views(r@) == extinf_from(lines(text@), 0),
{
    let rows = lines_of(text);
    let ghost all = lines(text@);
    let n: usize = rows.len();
    let mut out: Vec<(String, String)> = Vec::new();
    let mut i: usize = 0;
    assert(pair_views(out@) + extinf_from(all, 0) =~= extinf_from(all, 0));
    while i < n
        invariant
            i <= n,
            n == rows@.len(),
            views(rows@) == all,
            all == lines(text@),
            pair_views(out@) + extinf_from(all, i as int) == extinf_from(all, 0),
        decreases n - i,
    {
        let ghost known = pair_views(out@);
        assert(all[i as int] == rows@[i as int]@);
        assert(all.len() == n);
        match strip_prefix(rows[i].as_str(), "#EXTINF:") {
            None => {
                i += 1;
            },
            Some(rest) => {
                let pieces = split_text(rest.as_str(), ',');
                assert(views(pieces@)[0] == pieces@[0]@);
                let duration = trim_text(pieces[0].as_str());
                if read_number(duration.as_str()).is_none() {
                    i += 1;
                } else if n - i <= 1 {
                    assert(pair_views(out@) + extinf_from(all, i as int) =~= pair_views(out@));
                    return out;
                } else {
                    assert(all[i + 1] == rows@[i + 1]@);
                    let uri = trim_text(rows[i + 1].as_str());
                    let first = chars_of(uri.as_str());
                    if first.len() == 0 || first[0] == '#' {
                        i += 2;
                    } else {
                        let ghost d = duration@;
                        let ghost u = uri@;
                        out.push((duration, uri));
                        proof {
                            assert(pair_views(out@) =~= known.push((d, u)));
                            assert(pair_views(out@) + extinf_from(all, i + 2) =~= known + (seq![
                                (d, u),
                            ] + extinf_from(all, i + 2)));
                        }
                        i += 2;
                    }
                }
            },
        }
    }
    assert(pair_views(out@) + extinf_from(all, i as int) =~= pair_views(out@));
    out
}

/// The size of a file in the directory that was built in; `None` when it is missing. The sizes are
/// listed by name.
pub open spec fn size_of(files: Seq<(Seq<char>, u64)>, name: Seq<char>) -> Option<u64>
    decreases files.len(),
{
    if files.len() == 0 {
        None
    } else if files.last().0 == name {
        Some(files.last().1)
    } else {
        size_of(files.drop_last(), name)
    }
}

/// The names and sizes of files.
pub open spec fn sizes_view(files: Seq<(String, u64)>) -> Seq<(Seq<char>, u64)> {
    Seq::new(files.len(), |i: int| (files[i].0@, files[i].1))
}

/// Whether a file is there and not empty.
pub open spec fn has_content(files: Seq<(Seq<char>, u64)>, name: Seq<char>) -> bool {
    match size_of(files, name) {
        Some(n) => n > 0,
        None => false,
    }
}

fn is_filled(files: &Vec<(String, u64)>, name: &str) -> (r: bool)
    ensures
        r == has_content(sizes_view(files@), name@),
{
    let ghost all = sizes_view(files@);
    let mut i: usize = files.len();
    assert(all.take(i as int) =~= all);
    while i > 0
        invariant
            i <= files@.len(),
            all == sizes_view(files@),
            size_of(all, name@) == size_of(all.take(i as int), name@),
        decreases i,
    {
        proof {
            assert(all.take(i as int).drop_last() =~= all.take(i - 1));
            assert(all.take(i as int).last() == all[i - 1]);
        }
        if same(files[i - 1].0.as_str(), name) {
            return files[i - 1].1 > 0;
        }
        i -= 1;
    }
    false
}

/// The segments of the playlist that is served, from the first `n` pairs of the generated one: each
/// with its duration and its bare file name. A segment that has no usable name, is missing or is
/// empty spoils the whole.
pub open spec fn segments_of(
    pairs: Seq<(Seq<char>, Seq<char>)>,
    n: nat,
    files: Seq<(Seq<char>, u64)>,
) -> Result<Seq<(Seq<char>, Seq<char>)>, Seq<char>>
    decreases n,
{
    if n == 0 || n > pairs.len() {
        Ok(Seq::empty())
    } else {
        match segments_of(pairs, (n - 1) as nat, files) {
            Err(e) => Err(e),
            Ok(done) => match name_of(pairs[n - 1].1) {
                None => Err("a playlist entry had no usable file name"@),
                Some(name) => if has_content(files, name) {
                    Ok(done.push((pairs[n - 1].0, name)))
                } else {
                    Err("a segment the playlist references is missing or empty"@)
                },
            },
        }
    }
}

/// The segments of the playlist that is served, or why what was generated cannot be.
pub open spec fn rebuilt(
    text: Seq<char>,
    segment_count: nat,
    files: Seq<(Seq<char>, u64)>,
) -> Result<Seq<(Seq<char>, Seq<char>)>, Seq<char>> {
    let pairs = extinf_from(lines(text), 0);
    if pairs.len() != segment_count {
        Err("the playlist's own EXTINF count did not match ffmpeg's reported segment count"@)
    } else {
        match segments_of(pairs, pairs.len(), files) {
            Err(e) => Err(e),
            Ok(segments) => if has_content(files, "init.mp4"@) {
                Ok(segments)
            } else {
                Err("init.mp4 is missing or empty"@)
            },
        }
    }
}

/// Checks a generated playlist against what was generated: every segment that it names is there and
/// not empty, and there are as many as were reported. Gives the duration and the bare file name of
/// each segment, whatever directory the generator wrote into its addresses.
pub fn rebuild_playlist(text: &str, segment_count: usize, files: &Vec<(String, u64)>) -> (r: Result<
    Vec<(String, String)>,
    GenError,
>)
    ensures
        match r {
            Ok(segments) => rebuilt(text@, segment_count as nat, sizes_view(files@)) == Ok::<
                Seq<(Seq<char>, Seq<char>)>,
                Seq<char>,
            >(pair_views(segments@)),
            Err(GenError::VerifyMismatch(why)) => rebuilt(
                text@,
                segment_count as nat,
                sizes_view(files@),
            ) == Err::<Seq<(Seq<char>, Seq<char>)>, Seq<char>>(why@),
            Err(_) => false,
        },
{
    let pairs = parse_extinf_pairs(text);
    let ghost all = extinf_from(lines(text@), 0);
    assert(all.len() == pairs@.len());
    if pairs.len() != segment_count {
        return Err(
            GenError::VerifyMismatch(
                "the playlist's own EXTINF count did not match ffmpeg's reported segment count",
            ),
        );
    }
    let ghost sizes = sizes_view(files@);
    let mut out: Vec<(String, String)> = Vec::new();
    let mut i: usize = 0;
    assert(pair_views(out@) =~= Seq::<(Seq<char>, Seq<char>)>::empty());
    while i < pairs.len()
        invariant
            i <= pairs@.len(),
            pair_views(pairs@) == all,
            all == extinf_from(lines(text@), 0),
            all.len() == segment_count,
            sizes == sizes_view(files@),
            segments_of(all, i as nat, sizes) == Ok::<Seq<(Seq<char>, Seq<char>)>, Seq<char>>(
                pair_views(out@),
            ),
        decreases pairs@.len() - i,
    {
        let ghost known = pair_views(out@);
        assert(all[i as int] == (pairs@[i as int].0@, pairs@[i as int].1@));
        let name = match file_name(pairs[i].1.as_str()) {
            Some(name) => name,
            None => {
                proof {
                    bad_segments_stay_bad(all, i as nat + 1, sizes);
                }
                return Err(GenError::VerifyMismatch("a playlist entry had no usable file name"));
            },
        };
        if !is_filled(files, name.as_str()) {
            proof {
                bad_segments_stay_bad(all, i as nat + 1, sizes);
            }
            return Err(
                GenError::VerifyMismatch("a segment the playlist references is missing or empty"),
            );
        }
        let ghost n = name@;
        out.push((pairs[i].0.clone(), name));
        assert(pair_views(out@) =~= known.push((pairs@[i as int].0@, n)));
        i += 1;
    }
    if !is_filled(files, "init.mp4") {
        return Err(GenError::VerifyMismatch("init.mp4 is missing or empty"));
    }
    Ok(out)
}

/// What is spoilt by its first `n` segments is spoilt in the same way as a whole.
proof fn bad_segments_stay_bad(
    pairs: Seq<(Seq<char>, Seq<char>)>,
    n: nat,
    files: Seq<(Seq<char>, u64)>,
)
    requires
        n <= pairs.len(),
        segments_of(pairs, n, files) is Err,
    ensures
        segments_of(pairs, pairs.len(), files) == segments_of(pairs, n, files),
    decreases pairs.len() - n,
{
    if n < pairs.len() {
        assert(segments_of(pairs, n + 1, files) == segments_of(pairs, n, files));
        bad_segments_stay_bad(pairs, n + 1, files);
    }
}

/// A list of durations and addresses as the lines of a playlist write it: the lines that stand before
/// it, and then for each pair the line of its duration and the line of its address.
pub open spec fn is_written(
    rows: Seq<Seq<char>>,
    head: nat,
    pairs: Seq<(Seq<char>, Seq<char>)>,
) -> bool {
    &&& rows.len() == head + 2 * pairs.len()
    &&& forall|i: int|
        0 <= i < head ==> !"#EXTINF:"@.is_prefix_of(#[trigger] rows[i])
    &&& forall|k: int|
        #![trigger pairs[k]]
        0 <= k < pairs.len() ==> {
            &&& rows[head + 2 * k] == "#EXTINF:"@ + pairs[k].0 + ","@
            &&& rows[head + 2 * k + 1] == pairs[k].1
            &&& reading(pairs[k].0) is Some
            &&& !pairs[k].0.contains(',')
            &&& trim(pairs[k].0) == pairs[k].0
            &&& trim(pairs[k].1) == pairs[k].1
            &&& pairs[k].1.len() > 0
            &&& pairs[k].1[0] != '#'
        }
}

proof fn pairs_read_back_from(
    rows: Seq<Seq<char>>,
    head: nat,
    pairs: Seq<(Seq<char>, Seq<char>)>,
    k: int,
)
    requires
        is_written(rows, head, pairs),
        0 <= k <= pairs.len(),
    ensures
        extinf_from(rows, head + 2 * k) == pairs.skip(k),
    decreases pairs.len() - k,
{
    if k < pairs.len() {
        pairs_read_back_from(rows, head, pairs, k + 1);
        let i = head + 2 * k;
        let tag = "#EXTINF:"@;
        let d = pairs[k].0;
        let rest = d + ","@;
        assert(rows[i] =~= tag + rest);
        assert(rows[i].subrange(0, tag.len() as int) =~= tag);
        assert(rows[i].skip(tag.len() as int) =~= rest);
        assert(after_prefix(rows[i], tag) == Some(rest));
        reveal_strlit(",");
        assert(rest =~= d.push(','));
        first_piece(d);
        assert(pairs.skip(k) =~= seq![pairs[k]] + pairs.skip(k + 1));
        assert(i + 2 == head + 2 * (k + 1));
    } else {
        assert(pairs.skip(k) =~= Seq::<(Seq<char>, Seq<char>)>::empty());
    }
}

proof fn head_is_passed_over(
    rows: Seq<Seq<char>>,
    head: nat,
    pairs: Seq<(Seq<char>, Seq<char>)>,
    i: int,
)
    requires
        is_written(rows, head, pairs),
        0 <= i <= head,
    ensures
        extinf_from(rows, i) == pairs,
    decreases head - i,
{
    if i < head {
        head_is_passed_over(rows, head, pairs, i + 1);
        assert(!"#EXTINF:"@.is_prefix_of(rows[i]));
    } else {
        pairs_read_back_from(rows, head, pairs, 0);
        assert(pairs.skip(0) =~= pairs);
    }
}

/// A playlist's durations and addresses are read back as they were written, all of them and in the
/// order in which they play.
pub proof fn pairs_read_back(
    rows: Seq<Seq<char>>,
    head: nat,
    pairs: Seq<(Seq<char>, Seq<char>)>,
)
    requires
        is_written(rows, head, pairs),
    ensures
        extinf_from(rows, 0) == pairs,
{
    head_is_passed_over(rows, head, pairs, 0);
}

proof fn size_is_listed(files: Seq<(Seq<char>, u64)>, name: Seq<char>)
    ensures
        match size_of(files, name) {
            Some(n) => files.contains((name, n)),
            None => forall|i: int| 0 <= i < files.len() ==> (#[trigger] files[i]).0 != name,
        },
    decreases files.len(),
{
    if files.len() > 0 {
        if files.last().0 == name {
            assert(files[files.len() - 1] == (name, files.last().1));
        } else {
            let front = files.drop_last();
            size_is_listed(front, name);
            match size_of(front, name) {
                Some(n) => {
                    let i = choose|i: int| 0 <= i < front.len() && front[i] == (name, n);
                    assert(files[i] == (name, n));
                },
                None => {
                    assert forall|i: int| 0 <= i < files.len() implies (#[trigger] files[i]).0
                        != name by {
                        if i < front.len() {
                            assert(front[i] == files[i]);
                        }
                    }
                },
            }
        }
    }
}

/// Whether a file of a name is there with something in it.
pub open spec fn is_there(files: Seq<(Seq<char>, u64)>, name: Seq<char>) -> bool {
    exists|n: u64| n > 0 && #[trigger] files.contains((name, n))
}

proof fn segments_keep_their_places(
    pairs: Seq<(Seq<char>, Seq<char>)>,
    n: nat,
    files: Seq<(Seq<char>, u64)>,
)
    requires
        n <= pairs.len(),
    ensures
        match segments_of(pairs, n, files) {
            Ok(s) => s.len() == n && forall|i: int|
                0 <= i < n ==> {
                    &&& (#[trigger] s[i]).0 == pairs[i].0
                    &&& name_of(pairs[i].1) == Some(s[i].1)
                    &&& is_there(files, s[i].1)
                },
            Err(_) => exists|i: int|
                0 <= i < n && match name_of((#[trigger] pairs[i]).1) {
                    Some(name) => !has_content(files, name),
                    None => true,
                },
        },
    decreases n,
{
    if n > 0 {
        segments_keep_their_places(pairs, (n - 1) as nat, files);
        match (segments_of(pairs, (n - 1) as nat, files), name_of(pairs[n - 1].1)) {
            (Ok(done), Some(name)) => {
                size_is_listed(files, name);
                if has_content(files, name) {
                    let size = size_of(files, name)->0;
                    assert(size > 0 && files.contains((name, size)));
                } else {
                    assert(match name_of(pairs[n - 1].1) {
                        Some(x) => !has_content(files, x),
                        None => true,
                    });
                }
            },
            (Ok(done), None) => {
                assert(match name_of(pairs[n - 1].1) {
                    Some(x) => !has_content(files, x),
                    None => true,
                });
            },
            _ => {},
        }
    }
}

/// A playlist that is served has a segment for each pair that was generated, in the same order: with
/// the pair's duration, and under the last name of the pair's address, which leads nowhere else. Every
/// segment and the start of the presentation are there and not empty, and there are as many segments
/// as were reported. What was generated is refused only where one of these fails.
pub proof fn segments_play_in_order(
    text: Seq<char>,
    segment_count: nat,
    files: Seq<(Seq<char>, u64)>,
)
    ensures
        ({
            let pairs = extinf_from(lines(text), 0);
            match rebuilt(text, segment_count, files) {
                Ok(s) => {
                    &&& s.len() == pairs.len()
                    &&& s.len() == segment_count
                    &&& is_there(files, "init.mp4"@)
                    &&& forall|i: int|
                        0 <= i < s.len() ==> {
                            &&& (#[trigger] s[i]).0 == pairs[i].0
                            &&& name_of(pairs[i].1) == Some(s[i].1)
                            &&& is_there(files, s[i].1)
                        }
                },
                Err(_) => {
                    ||| pairs.len() != segment_count
                    ||| !has_content(files, "init.mp4"@)
                    ||| exists|i: int|
                        0 <= i < pairs.len() && match name_of((#[trigger] pairs[i]).1) {
                            Some(name) => !has_content(files, name),
                            None => true,
                        }
                },
            }
        }),
{
    let pairs = extinf_from(lines(text), 0);
    segments_keep_their_places(pairs, pairs.len(), files);
    size_is_listed(files, "init.mp4"@);
    if has_content(files, "init.mp4"@) {
        let size = size_of(files, "init.mp4"@)->0;
        assert(size > 0 && files.contains(("init.mp4"@, size)));
    }
}

proof fn first_piece(d: Seq<char>)
    requires
        !d.contains(','),
    ensures
        split(d.push(','), ',')[0] == d,
{
    let whole = d.push(',');
    find_from_is_first(whole, ',', 0);
    let i = crate::text::find(whole, ',');
    assert(whole[d.len() as int] == ',');
    if i < d.len() {
        assert(d[i] == ',');
    }
    assert(whole.take(i) =~= d);
}

/// Every segment goes by its own number, and neither the playlist nor the initialisation segment is
/// taken for one.
pub proof fn parts_go_by_their_names(number: Seq<char>)
    requires
        number.len() == 5,
        forall|i: int| 0 <= i < number.len() ==> is_digit(#[trigger] number[i]),
    ensures
        artifact_of("seg_"@ + (number + ".m4s"@)) == Some(Artifact::Segment),
        artifact_of("playlist.m3u8"@) == Some(Artifact::Playlist),
        artifact_of("init.mp4"@) == Some(Artifact::Init),
{
    let name = "seg_"@ + (number + ".m4s"@);
    reveal_strlit("seg_");
    reveal_strlit(".m4s");
    reveal_strlit("playlist.m3u8");
    reveal_strlit("init.mp4");
    assert(name[0] == 's' && "playlist.m3u8"@[0] == 'p' && "init.mp4"@[0] == 'i');
    crate::text::what_is_added_comes_off(number + ".m4s"@, "seg_"@);
    crate::text::what_is_added_comes_off(number, ".m4s"@);
}

/// Only the playlist is a playlist; whatever else there is of a presentation is video.
pub proof fn parts_have_their_types(a: Artifact)
    ensures
        a is Playlist ==> artifact_type(a) == "application/vnd.apple.mpegurl"@,
        !(a is Playlist) ==> artifact_type(a) == "video/mp4"@,
{
}

} // verus!
