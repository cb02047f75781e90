//! Walking a library: what counts as media, what is noted about it, and in which order it plays.
use lumen_play::media::Container;
use lumen_play::paths::{components_of, extension, file_name, join, starts_with};
use lumen_play::scan::{
    classify, container_for_ext, enters_dir, group, playlist_order, same_family, scan,
    wants_sniffing, Candidate, Confidence, EpisodeSpec, MediaKind, Node, ParsedName, Root, Scan,
    ScanOptions, ScannedFile,
};

const BIG: u64 = 2_000_004;

fn titled(title: &str) -> ParsedName {
    ParsedName { title: title.to_string(), year: None, episode: None, part: None, is_sample: false }
}

fn episode(title: &str, season: u16, number: u16) -> ParsedName {
    ParsedName {
        episode: Some(EpisodeSpec::SeasonEpisode { season, episodes: vec![number] }),
        ..titled(title)
    }
}

fn sniffed(container: Container) -> Vec<Candidate> {
    vec![Candidate {
        container,
        confidence: Confidence::Certain,
        evidence: "signature".to_string(),
    }]
}

fn fallback() -> Vec<Candidate> {
    vec![Candidate {
        container: Container::Other,
        confidence: Confidence::Weak,
        evidence: "fallback".to_string(),
    }]
}

fn file(dir: &str, name: &str, size: u64, parsed: ParsedName, candidates: Vec<Candidate>) -> Node {
    Node::File { path: format!("{dir}/{name}"), name: name.to_string(), size, parsed, candidates }
}

fn mkv(dir: &str, name: &str, parsed: ParsedName) -> Node {
    file(dir, name, BIG, parsed, sniffed(Container::Matroska))
}

fn dir(parent: &str, name: &str, entries: Vec<Node>) -> Node {
    Node::Dir { path: format!("{parent}/{name}"), name: name.to_string(), entries, error: None }
}

fn tree(entries: Vec<Node>) -> Vec<Root> {
    vec![Root::Dir { path: "/lib".to_string(), entries, error: None }]
}

fn walked(entries: Vec<Node>) -> Scan {
    scan(&tree(entries), &ScanOptions::default())
}

#[test]
fn a_library_tree_is_walked_and_classified() {
    let s = walked(vec![
        dir(
            "/lib",
            "Movies",
            vec![
                mkv(
                    "/lib/Movies",
                    "Arrival (2016) 2160p BluRay x265.mkv",
                    ParsedName { year: Some(2016), ..titled("Arrival") },
                ),
                file("/lib/Movies", "notes.txt", 9, titled("notes"), fallback()),
            ],
        ),
        dir(
            "/lib",
            "Shows",
            vec![dir(
                "/lib/Shows",
                "Chernobyl",
                vec![
                    mkv(
                        "/lib/Shows/Chernobyl",
                        "Chernobyl.S01E03.1080p.mkv",
                        episode("Chernobyl", 1, 3),
                    ),
                    file(
                        "/lib/Shows/Chernobyl",
                        "Chernobyl.S01E03.eng.srt",
                        22,
                        episode("Chernobyl", 1, 3),
                        fallback(),
                    ),
                ],
            )],
        ),
    ]);
    assert_eq!(s.playable().len(), 2, "{:?}", s.files);
    assert_eq!(s.subtitles().len(), 1);
    assert!(!s.files.iter().any(|f| f.file_name() == "notes.txt"), "a .txt is not media");
    let arrival = s.files.iter().find(|f| f.parsed.title.contains("Arrival")).unwrap();
    assert_eq!(arrival.parsed.year, Some(2016));
    assert_eq!(arrival.container, Some(Container::Matroska));
    assert_eq!(arrival.kind, MediaKind::Video);
}

#[test]
fn content_decides_when_the_extension_disagrees() {
    let s = walked(vec![file("/lib", "Film.mkv", BIG, titled("Film"), sniffed(Container::Mp4))]);
    let f = &s.files[0];
    assert_eq!(f.container, Some(Container::Mp4));
    assert!(f.extension_mismatch);
    assert!(f.notes().iter().any(|n| n.contains("extension says")), "{:?}", f.notes());
    assert_eq!(f.notes()[0], "extension says .mkv but the bytes are Mp4");
}

#[test]
fn related_container_families_are_not_reported_as_mismatches() {
    assert!(same_family(Container::Mp4, Container::FragmentedMp4));
    assert!(same_family(Container::Matroska, Container::WebM));
    assert!(!same_family(Container::Matroska, Container::Mp4));
    assert!(!same_family(Container::Avi, Container::Mp4));
}

#[test]
fn an_unidentifiable_file_with_a_media_extension_is_still_offered() {
    let s = walked(vec![file("/lib", "recovered-stream.mkv", 4096, titled("x"), fallback())]);
    let f = &s.files[0];
    assert!(f.unidentified, "nothing should have matched these bytes");
    assert_eq!(f.kind, MediaKind::Video, "a media extension is enough to try");
    assert!(f.notes().iter().any(|n| n.contains("will still try")), "{:?}", f.notes());
}

#[test]
fn a_transport_stream_is_recognised_from_its_sync_bytes() {
    let s = walked(vec![file("/lib", "capture.ts", 2256, titled("c"), sniffed(Container::MpegTs))]);
    assert_eq!(s.files[0].container, Some(Container::MpegTs), "{:?}", s.files[0]);
    assert!(!s.files[0].extension_mismatch);
}

#[test]
fn a_text_file_is_not_media_even_though_the_demuxer_would_try_it() {
    let s = walked(vec![
        file("/lib", "notes.txt", 16, titled("notes"), fallback()),
        file("/lib", "readme", 14, titled("readme"), fallback()),
    ]);
    assert_eq!(s.playable().len(), 0, "{:?}", s.files);
}

#[test]
fn hidden_and_junk_directories_are_skipped() {
    let one = |d: &str| {
        let path = format!("/lib/{d}");
        dir("/lib", d, vec![mkv(&path, "Film.mkv", titled("Film"))])
    };
    let s = walked(vec![one(".hidden"), one("node_modules"), one("@eaDir"), one("Real")]);
    assert_eq!(s.playable().len(), 1, "{:?}", s.files);
    assert!(!enters_dir(".git") && enters_dir("Season 01"));
}

#[test]
fn samples_are_skipped_by_default_and_counted() {
    let nodes = || {
        vec![
            mkv("/lib", "Film-sample.mkv", ParsedName { is_sample: true, ..titled("Film") }),
            mkv("/lib", "Film.mkv", titled("Film")),
        ]
    };
    let s = walked(nodes());
    assert_eq!(s.playable().len(), 1);
    assert_eq!(s.skipped_samples, 1);
    let with =
        scan(&tree(nodes()), &ScanOptions { include_samples: true, ..ScanOptions::default() });
    assert_eq!(with.playable().len(), 2);
}

#[test]
fn an_explicit_file_argument_is_played_whatever_it_looks_like() {
    let root = Root::File {
        path: "/x/no-extension-at-all".to_string(),
        size: BIG,
        parsed: titled("no-extension-at-all"),
        candidates: fallback(),
    };
    let s = scan(&vec![root], &ScanOptions::default());
    assert_eq!(s.playable().len(), 1);
}

#[test]
fn an_unreadable_root_is_recorded_rather_than_fatal() {
    let root = Root::Missing {
        path: "/definitely/not/here".to_string(),
        reason: "No such file or directory".to_string(),
    };
    let s = scan(&vec![root], &ScanOptions::default());
    assert!(s.files.is_empty());
    assert_eq!(s.unreadable.len(), 1);
}

#[test]
fn scanning_twice_produces_the_same_order() {
    let walk = |names: &[&str]| {
        walked(names.iter().map(|n| mkv("/lib", n, titled(n))).collect())
    };
    let first = walk(&["c.mkv", "a.mkv", "b.mkv"]);
    let second = walk(&["b.mkv", "c.mkv", "a.mkv"]);
    let paths = |s: &Scan| s.files.iter().map(|f| f.path.clone()).collect::<Vec<_>>();
    assert_eq!(paths(&first), paths(&second));
    assert_eq!(paths(&first), vec!["/lib/a.mkv", "/lib/b.mkv", "/lib/c.mkv"]);
}

#[test]
fn a_limit_truncates_and_says_so() {
    let nodes = ["a.mkv", "b.mkv", "c.mkv"].iter().map(|n| mkv("/lib", n, titled(n))).collect();
    let s = scan(&tree(nodes), &ScanOptions { limit: Some(2), ..ScanOptions::default() });
    assert_eq!(s.playable().len(), 2);
    assert!(s.truncated, "a truncated scan must not read as the whole library");
}

#[test]
fn a_season_groups_as_one_item() {
    let mut nodes: Vec<Node> = (1..=3)
        .map(|e| mkv("/lib", &format!("Show.S02E{e:02}.1080p.mkv"), episode("Show", 2, e)))
        .collect();
    nodes.push(mkv(
        "/lib",
        "Some Film (1999) 1080p.mkv",
        ParsedName { year: Some(1999), ..titled("Some Film") },
    ));
    let s = walked(nodes);
    let items = group(&s);
    assert_eq!(items.len(), 2, "{items:?}");
    let season = items.iter().find(|i| i.season == Some(2)).expect("the season");
    assert_eq!(season.files.len(), 3);
    assert!(season.files.windows(2).all(|w| w[0] < w[1]), "the files keep their order");
    let mut all: Vec<usize> = items.iter().flat_map(|i| i.files.clone()).collect();
    all.sort();
    assert_eq!(all, vec![0, 1, 2, 3], "each file is in one item, and once");
}

#[test]
fn episodes_play_in_order_rather_than_alphabetically() {
    let s = walked(
        [10u16, 2, 1]
            .iter()
            .map(|&e| mkv("/lib", &format!("Show.S01E{e:02}.mkv"), episode("Show", 1, e)))
            .collect(),
    );
    let order = playlist_order(&s);
    let eps: Vec<String> = order.iter().map(|&i| s.files[i].file_name()).collect();
    assert_eq!(eps, vec!["Show.S01E01.mkv", "Show.S01E02.mkv", "Show.S01E10.mkv"], "{eps:?}");
}

#[test]
fn multi_part_films_play_in_part_order() {
    let part = |n: u32| ParsedName { year: Some(1962), part: Some(n), ..titled("Long Film") };
    let s = walked(vec![
        mkv("/lib", "Long Film (1962) cd2.mkv", part(2)),
        mkv("/lib", "Long Film (1962) cd1.mkv", part(1)),
    ]);
    let order = playlist_order(&s);
    let names: Vec<String> = order.iter().map(|&i| s.files[i].file_name()).collect();
    assert!(names[0].contains("cd1"), "{names:?}");
}

#[test]
fn a_zero_byte_file_is_noted_and_still_listed() {
    let s = walked(vec![file("/lib", "Broken.mkv", 0, titled("Broken"), vec![])]);
    let f = &s.files[0];
    assert!(f.notes().iter().any(|n| n.contains("zero bytes")), "{:?}", f.notes());
    assert_eq!(f.kind, MediaKind::Video, "still offered; the player reports the real error");
}

#[test]
fn labels_read_the_way_a_person_would_write_them() {
    let s = walked(vec![
        mkv("/lib", "Chernobyl.S01E03.1080p.mkv", episode("Chernobyl", 1, 3)),
        mkv("/lib", "Arrival (2016) 2160p.mkv", ParsedName { year: Some(2016), ..titled("Arrival") }),
    ]);
    let labels: Vec<String> = s.files.iter().map(ScannedFile::label).collect();
    assert!(labels.iter().any(|l| l.contains("S01E03")), "{labels:?}");
    assert!(labels.iter().any(|l| l.contains("(2016)")), "{labels:?}");
}

#[test]
fn a_small_video_is_noted_with_its_size() {
    let f = classify("/m/stub.mkv", 20_480, titled("stub"), &sniffed(Container::Matroska));
    assert!(f.notes().iter().any(|n| n.starts_with("only 20 KiB")), "{:?}", f.notes());
    let untitled = classify("/m/x.mkv", BIG, titled(""), &sniffed(Container::Matroska));
    assert_eq!(untitled.notes(), vec!["no title could be parsed from the name"]);
    assert_eq!(untitled.label(), "x.mkv");
}

#[test]
fn depth_ends_the_walk() {
    let deep = vec![dir(
        "/lib",
        "a",
        vec![dir("/lib/a", "b", vec![mkv("/lib/a/b", "Film.mkv", titled("Film"))])],
    )];
    let s = scan(&tree(deep), &ScanOptions { max_depth: Some(0), ..ScanOptions::default() });
    assert_eq!(s.playable().len(), 0);
}

#[test]
fn extensions_claim_containers_whatever_their_case() {
    assert_eq!(container_for_ext("mkv"), Some(Container::Matroska));
    assert_eq!(container_for_ext("txt"), None);
    assert!(wants_sniffing("/m/film.MKV"));
    assert!(!wants_sniffing("/m/film.srt"));
}

#[test]
fn paths_are_taken_apart_by_their_components() {
    assert_eq!(components_of("/a//b/./c"), vec!["/", "a", "b", "c"]);
    assert_eq!(file_name("/a/b.tar.gz"), Some("b.tar.gz".to_string()));
    assert_eq!(extension("/a/b.tar.gz"), Some("gz".to_string()));
    assert_eq!(extension("/a/.hidden"), None);
    assert_eq!(join("/a", "b"), "/a/b");
    assert_eq!(join("/a/", "b"), "/a/b");
    assert_eq!(join("/a", "/b"), "/b");
    assert!(starts_with("/lib/films/a.mkv", "/lib/films"));
    assert!(!starts_with("/lib/films-old/a.mkv", "/lib/films"));
}
