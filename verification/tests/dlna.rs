//! The media server: the tree of a library, browsing and searching it, and its HTTP side.
use lumen_play::dlna::{
    announcements, collect_file_indices_recursive, fault_head, handle_browse, handle_connection_manager_control,
    handle_content_directory_control, handle_search, invalid_action, object_class_for, random_uuid,
    route, serve_stream, source_mime_types, stream_headers, uuid_text, BrowseFlag, BrowseRequest,
    DirectoryAction, LibraryTree, Listing, ManagerAction, ObjectClass, Route, SearchCriteria,
    SearchRequest, Snapshot, INITIAL_SYSTEM_UPDATE_ID,
};
use lumen_play::http::{
    content_type_for, find_header_end, parse_range, percent_decode, serve_file, HttpRequest,
};
use lumen_play::media::Container;
use lumen_play::scan::{
    scan, Candidate, Confidence, EpisodeSpec, Node, ParsedName, Root, Scan, ScanOptions,
};

const ROOT: &str = "/lib";
const BASE: &str = "http://host:8200";

fn named(stem: &str) -> ParsedName {
    let plain = |title: &str| ParsedName {
        title: title.to_string(),
        year: None,
        episode: None,
        part: None,
        is_sample: false,
    };
    match stem.find("S01E0") {
        Some(at) => ParsedName {
            episode: Some(EpisodeSpec::SeasonEpisode {
                season: 1,
                episodes: vec![stem[at + 5..at + 6].parse().unwrap()],
            }),
            ..plain(stem[..at].trim_end_matches('.'))
        },
        None => plain(stem),
    }
}

fn insert(nodes: &mut Vec<Node>, base: &str, comps: &[&str]) {
    let path = format!("{base}/{}", comps[0]);
    if comps.len() == 1 {
        let stem = comps[0].trim_end_matches(".mkv");
        nodes.push(Node::File {
            path,
            name: comps[0].to_string(),
            size: 3,
            parsed: named(stem),
            candidates: vec![Candidate {
                container: Container::Matroska,
                confidence: Confidence::Certain,
                evidence: "EBML".to_string(),
            }],
        });
        return;
    }
    for n in nodes.iter_mut() {
        if let Node::Dir { name, entries, path: p, .. } = n {
            if name == comps[0] {
                let p = p.clone();
                insert(entries, &p, &comps[1..]);
                return;
            }
        }
    }
    let mut entries = Vec::new();
    insert(&mut entries, &path, &comps[1..]);
    nodes.push(Node::Dir { path, name: comps[0].to_string(), entries, error: None });
}

fn library(files: &[&str], empty: &[&str]) -> Scan {
    let mut entries = Vec::new();
    for f in files {
        let comps: Vec<&str> = f.split('/').collect();
        insert(&mut entries, ROOT, &comps);
    }
    for e in empty {
        entries.push(Node::Dir {
            path: format!("{ROOT}/{e}"),
            name: e.to_string(),
            entries: Vec::new(),
            error: None,
        });
    }
    scan(&vec![Root::Dir { path: ROOT.to_string(), entries, error: None }], &ScanOptions::default())
}

fn shown(files: &[&str]) -> Snapshot {
    Snapshot::first(library(files, &[]), ROOT)
}

fn browse(
    s: &Snapshot,
    id: &str,
    flag: BrowseFlag,
    starting_index: u32,
    requested_count: u32,
) -> Result<Listing, u32> {
    let req = BrowseRequest { object_id: id.to_string(), flag, starting_index, requested_count };
    handle_browse(&s, Some(&req), BASE).map_err(|f| f.code)
}

fn search(
    s: &Snapshot,
    id: &str,
    criteria: SearchCriteria,
    starting_index: u32,
    requested_count: u32,
) -> Result<Listing, u32> {
    let req =
        SearchRequest { container_id: id.to_string(), criteria, starting_index, requested_count };
    handle_search(&s, Some(&req), BASE).map_err(|f| f.code)
}

fn ids(l: &Listing) -> Vec<&str> {
    l.objects.iter().map(|o| o.id.as_str()).collect()
}

#[test]
fn library_tree_builds_nested_directories_and_never_lists_an_empty_one() {
    let scan = library(
        &[
            "Movies/Show/Season 01/S01E01.mkv",
            "Movies/Show/Season 01/S01E02.mkv",
            "Movies/OtherShow/Season 01/S01E01.mkv",
            "Root.mkv",
        ],
        &["Empty"],
    );
    let tree = LibraryTree::build(&scan, ROOT, None);
    let root_node = &tree.dirs[tree.dir_by_id("0").unwrap()];
    assert_eq!(root_node.child_files.len(), 1, "Root.mkv attaches directly to the root");
    assert_eq!(root_node.child_dirs.len(), 1, "only Movies sits directly under the root");
    let movies = &tree.dirs[root_node.child_dirs[0]];
    assert_eq!(movies.name, "Movies");
    assert_eq!(movies.parent_id, "0");
    assert!(movies.child_files.is_empty(), "Movies itself holds no files directly");
    let names: Vec<&str> = movies.child_dirs.iter().map(|&i| tree.dirs[i].name.as_str()).collect();
    assert!(names.contains(&"Show"), "{names:?}");
    assert!(names.contains(&"OtherShow"), "{names:?}");
    assert!(!names.contains(&"Empty"), "{names:?}");
    assert_eq!(movies.child_dirs.len(), 2, "Show and OtherShow, never Empty: {names:?}");
    let show_idx = *movies.child_dirs.iter().find(|&&i| tree.dirs[i].name == "Show").unwrap();
    let show = &tree.dirs[show_idx];
    assert_eq!(show.child_dirs.len(), 1, "one Season 01 node, not two");
    let season = &tree.dirs[show.child_dirs[0]];
    assert_eq!(season.name, "Season 01");
    assert_eq!(season.parent_id, show.id);
    assert_eq!(season.child_files.len(), 2);
    assert_eq!(tree.dirs.len(), 6, "root + Movies + Show + OtherShow + two distinct Season 01s");
}

#[test]
fn root_direct_children_lists_directories_before_files_with_correct_ids() {
    let s = shown(&[
        "Movies/Interstellar.mkv",
        "Shows/Show/Season 01/S01E01.mkv",
        "Shows/Show/Season 01/S01E02.mkv",
        "RootFile.mkv",
    ]);
    let l = browse(&s, "0", BrowseFlag::DirectChildren, 0, 0).unwrap();
    assert_eq!(l.objects.len(), 3);
    assert_eq!(l.total, 3);
    assert_eq!(ids(&l), vec!["d0", "d1", "f1"], "every folder before every file");
    assert!(l.objects.iter().all(|o| o.parent_id == "0"));
    assert_eq!(l.objects[0].class, ObjectClass::StorageFolder);
    assert_eq!(l.objects[2].class, ObjectClass::VideoItem);
    let res = l.objects[2].resource.as_ref().unwrap();
    assert_eq!(res.url, "http://host:8200/dlna/stream/f1");
    assert_eq!(res.mime_type, "video/x-matroska");
    assert_eq!(res.size_bytes, Some(3));
}

#[test]
fn a_directorys_direct_children_returns_only_its_own_children() {
    let s = shown(&["Movies/Interstellar.mkv", "Shows/Show/Season 01/S01E01.mkv", "RootFile.mkv"]);
    let l = browse(&s, "d1", BrowseFlag::DirectChildren, 0, 0).unwrap();
    assert_eq!(ids(&l), vec!["d2"]);
    assert_eq!(l.objects[0].parent_id, "d1");
}

#[test]
fn metadata_resolves_the_root_a_directory_and_a_file_and_rejects_every_unknown_shape() {
    let s = shown(&["Movies/Interstellar.mkv", "RootFile.mkv"]);
    let root = browse(&s, "0", BrowseFlag::Metadata, 0, 0).unwrap();
    assert_eq!((root.objects[0].id.as_str(), root.objects[0].parent_id.as_str()), ("0", "-1"));
    assert_eq!(root.objects[0].title, "lumen");
    let dir = browse(&s, "d0", BrowseFlag::Metadata, 0, 0).unwrap();
    assert_eq!((dir.objects[0].id.as_str(), dir.objects[0].parent_id.as_str()), ("d0", "0"));
    assert_eq!(dir.objects[0].title, "Movies");
    let file = browse(&s, "f0", BrowseFlag::Metadata, 0, 0).unwrap();
    assert_eq!((file.objects[0].id.as_str(), file.objects[0].parent_id.as_str()), ("f0", "d0"));
    for unknown in ["d99", "f99", "3", "not-an-id"] {
        assert_eq!(browse(&s, unknown, BrowseFlag::Metadata, 0, 0), Err(701), "{unknown}");
    }
}

#[test]
fn the_bare_integer_id_collision_stage_1_had_is_fixed() {
    let s = shown(&["OnlyFile.mkv"]);
    let root = browse(&s, "0", BrowseFlag::Metadata, 0, 0).unwrap();
    assert_eq!(root.objects[0].title, "lumen");
    assert_eq!(root.objects[0].class, ObjectClass::StorageFolder);
    let file = browse(&s, "f0", BrowseFlag::Metadata, 0, 0).unwrap();
    assert_eq!((file.objects[0].id.as_str(), file.objects[0].parent_id.as_str()), ("f0", "0"));
    assert_ne!(file.objects[0].class, ObjectClass::StorageFolder);
}

#[test]
fn a_refresh_after_a_file_is_added_on_disk_makes_browse_list_it_and_advances_system_update_id() {
    let mut s = shown(&["Movies/Interstellar.mkv"]);
    assert_eq!(s.system_update_id, INITIAL_SYSTEM_UPDATE_ID);
    let before = browse(&s, "d0", BrowseFlag::DirectChildren, 0, 0).unwrap();
    assert_eq!(before.objects.len(), 1);
    assert_eq!(before.objects[0].title, "Interstellar");
    let (file_count, id) =
        s.refresh_library(library(&["Movies/Interstellar.mkv", "Movies/Tenet.mkv"], &[]), ROOT);
    assert_eq!(file_count, 2, "the re-walk must see both files");
    assert_eq!(id, INITIAL_SYSTEM_UPDATE_ID + 1, "one completed refresh, one increment");
    assert_eq!(s.system_update_id, id);
    let after = browse(&s, "d0", BrowseFlag::DirectChildren, 0, 0).unwrap();
    let titles: Vec<&str> = after.objects.iter().map(|o| o.title.as_str()).collect();
    assert_eq!(titles, vec!["Interstellar", "Tenet"]);
}

#[test]
fn a_refresh_keeps_every_surviving_objects_id_and_only_a_new_path_draws_a_fresh_one() {
    let mut s = shown(&["Shows/Zebra.mkv", "Shows/Yak.mkv"]);
    let f0 = browse(&s, "f0", BrowseFlag::Metadata, 0, 0).unwrap();
    assert_eq!(f0.objects[0].parent_id, "d0");
    assert_eq!(f0.objects[0].title, "Yak");
    s.refresh_library(
        library(&["Shows/Zebra.mkv", "Shows/Yak.mkv", "Aardvark.mkv", "Anthology/Ant.mkv"], &[]),
        ROOT,
    );
    let f0 = browse(&s, "f0", BrowseFlag::Metadata, 0, 0).unwrap();
    assert_eq!(f0.objects[0].title, "Yak", "f0 is still Yak");
    assert_eq!(f0.objects[0].parent_id, "d0", "still the Shows node, still d0");
    let f1 = browse(&s, "f1", BrowseFlag::Metadata, 0, 0).unwrap();
    assert_eq!(f1.objects[0].title, "Zebra");
    let shows = browse(&s, "d0", BrowseFlag::DirectChildren, 0, 0).unwrap();
    let titles: Vec<&str> = shows.objects.iter().map(|o| o.title.as_str()).collect();
    assert_eq!(titles, vec!["Yak", "Zebra"]);
    let root = browse(&s, "0", BrowseFlag::DirectChildren, 0, 0).unwrap();
    let d1 = root.objects.iter().find(|o| o.id == "d1").unwrap();
    assert_eq!(d1.title, "Anthology");
    let f2 = root.objects.iter().find(|o| o.id == "f2").unwrap();
    assert_eq!(f2.title, "Aardvark");
    let anthology = browse(&s, "d1", BrowseFlag::DirectChildren, 0, 0).unwrap();
    assert_eq!(ids(&anthology), vec!["f3"]);
    assert_eq!(anthology.objects[0].title, "Ant");
    assert_eq!(anthology.objects[0].parent_id, "d1");
}

#[test]
fn a_retired_id_is_never_reissued_and_a_path_that_comes_back_is_a_new_object() {
    let mut s = shown(&["Yak.mkv", "Zebra.mkv"]);
    assert_eq!(
        serve_stream(&s, "f0"),
        Some(("/lib/Yak.mkv".to_string(), "video/x-matroska"))
    );
    s.refresh_library(library(&["Zebra.mkv"], &[]), ROOT);
    assert_eq!(serve_stream(&s, "f0"), None);
    assert_eq!(browse(&s, "f0", BrowseFlag::Metadata, 0, 0), Err(701));
    assert_eq!(serve_stream(&s, "f1").unwrap().0, "/lib/Zebra.mkv");
    s.refresh_library(library(&["Yak.mkv", "Zebra.mkv"], &[]), ROOT);
    assert_eq!(serve_stream(&s, "f0"), None, "the retired id stays retired");
    let root = browse(&s, "0", BrowseFlag::DirectChildren, 0, 0).unwrap();
    let mut listed = ids(&root);
    listed.sort_unstable();
    assert_eq!(listed, vec!["f1", "f2"]);
    assert_eq!(serve_stream(&s, "f2").unwrap().0, "/lib/Yak.mkv");
}

#[test]
fn a_stream_url_handed_out_before_a_refresh_still_serves_the_same_file_after_it() {
    let mut s = shown(&["Shows/Zebra.mkv", "Shows/Yak.mkv"]);
    let shows = browse(&s, "d0", BrowseFlag::DirectChildren, 0, 0).unwrap();
    let id_of = |title: &str| shows.objects.iter().find(|o| o.title == title).unwrap().id.clone();
    let (yak, zebra) = (id_of("Yak"), id_of("Zebra"));
    s.refresh_library(library(&["Shows/Zebra.mkv", "Shows/Yak.mkv", "Aardvark.mkv"], &[]), ROOT);
    let (path, content_type) = serve_stream(&s, &yak).unwrap();
    assert_eq!(path, "/lib/Shows/Yak.mkv");
    let answer = serve_file(3, content_type, stream_headers(), Some("bytes=1-"), "GET");
    assert!(answer.head.starts_with("HTTP/1.1 206"), "{}", answer.head);
    assert_eq!(answer.body, Some((1, 2)), "the bytes from the second on");
    s.refresh_library(library(&["Shows/Yak.mkv", "Aardvark.mkv"], &[]), ROOT);
    assert_eq!(serve_stream(&s, &zebra), None, "Zebra is gone");
    assert_eq!(serve_stream(&s, &yak).unwrap().0, "/lib/Shows/Yak.mkv");
}

#[test]
fn every_browse_and_search_response_reports_the_contexts_current_system_update_id() {
    let files = ["Movies/Interstellar.mkv"];
    let mut s = shown(&files);
    for _ in 0..3 {
        s.refresh_library(library(&files, &[]), ROOT);
    }
    assert_eq!(s.system_update_id, INITIAL_SYSTEM_UPDATE_ID + 3);
    let current = s.system_update_id;
    for flag in [BrowseFlag::DirectChildren, BrowseFlag::Metadata] {
        assert_eq!(browse(&s, "0", flag, 0, 0).unwrap().update_id, current);
    }
    assert_eq!(browse(&s, "f0", BrowseFlag::Metadata, 0, 0).unwrap().update_id, current);
    assert_eq!(search(&s, "0", SearchCriteria::MatchAll, 0, 0).unwrap().update_id, current);
    let titled = SearchCriteria::TitleContains("inter".to_string());
    assert_eq!(search(&s, "0", titled, 0, 0).unwrap().update_id, current);
}

#[test]
fn get_system_update_id_answers_over_the_control_endpoint_and_tracks_every_refresh() {
    let header = "\"urn:schemas-upnp-org:service:ContentDirectory:1#GetSystemUpdateID\"";
    assert_eq!(
        handle_content_directory_control(Some(header)),
        DirectoryAction::GetSystemUpdateId
    );
    let mut s = shown(&["A.mkv"]);
    assert_eq!(s.system_update_id, INITIAL_SYSTEM_UPDATE_ID);
    let (_, after_first) = s.refresh_library(library(&["A.mkv"], &[]), ROOT);
    assert_eq!(s.system_update_id, after_first);
    let (_, after_second) = s.refresh_library(library(&["A.mkv"], &[]), ROOT);
    assert_eq!(s.system_update_id, after_second);
    assert_eq!(after_second, after_first + 1);
    let browse_now = browse(&s, "0", BrowseFlag::DirectChildren, 0, 0).unwrap();
    assert_eq!(browse_now.update_id, after_second);
}

#[test]
fn the_id_of_a_listed_file_leads_to_that_file() {
    let mut s = shown(&["B.mkv", "A/C.mkv"]);
    s.refresh_library(library(&["A.mkv", "A/C.mkv", "B.mkv"], &[]), ROOT);
    let all = search(&s, "0", SearchCriteria::MatchAll, 0, 0).unwrap();
    assert_eq!(all.objects.len(), 3);
    for o in &all.objects {
        let (path, _) = serve_stream(&s, &o.id).unwrap();
        assert!(path.ends_with(&format!("/{}.mkv", o.title)), "{path} is not {}", o.title);
    }
}

#[test]
fn an_undeclared_content_directory_action_is_still_a_401_fault() {
    let header = "\"urn:schemas-upnp-org:service:ContentDirectory:1#GetSearchCapabilities\"";
    assert_eq!(handle_content_directory_control(Some(header)), DirectoryAction::Invalid);
    assert_eq!(handle_content_directory_control(None), DirectoryAction::Invalid);
    assert_eq!(invalid_action().code, 401);
    assert_eq!(
        handle_content_directory_control(Some("\"urn:x#Browse\"")),
        DirectoryAction::Browse
    );
    assert_eq!(
        handle_content_directory_control(Some("\"urn:x#Search\"")),
        DirectoryAction::Search
    );
    assert_eq!(
        handle_content_directory_control(Some("\"urn:x#GetSystemUpdateID\"")),
        DirectoryAction::GetSystemUpdateId
    );
    assert_eq!(
        handle_connection_manager_control(Some("\"urn:x#GetProtocolInfo\"")),
        ManagerAction::GetProtocolInfo
    );
    assert_eq!(
        handle_connection_manager_control(Some("\"urn:x#GetCurrentConnectionIDs\"")),
        ManagerAction::GetCurrentConnectionIds
    );
    assert_eq!(handle_connection_manager_control(Some("\"urn:x#Other\"")), ManagerAction::Invalid);
}

#[test]
fn pagination_applies_over_the_combined_directories_then_files_sequence() {
    let s = shown(&["Movies/Interstellar.mkv", "Shows/Show/Season 01/S01E01.mkv", "RootFile.mkv"]);
    let l = browse(&s, "0", BrowseFlag::DirectChildren, 1, 1).unwrap();
    assert_eq!(l.objects.len(), 1);
    assert_eq!(l.total, 3, "the combined count, not just files");
    assert_eq!(ids(&l), vec!["d1"], "starting_index=1 must land on the second entry");
}

#[test]
fn search_match_all_finds_every_file_recursively_not_just_direct_children() {
    let s = shown(&[
        "Movies/Interstellar.mkv",
        "Shows/Show/Season 01/S01E01.mkv",
        "Shows/Show/Season 01/S01E02.mkv",
        "RootFile.mkv",
    ]);
    let l = search(&s, "0", SearchCriteria::MatchAll, 0, 0).unwrap();
    assert_eq!(l.objects.len(), 4);
    assert_eq!(l.total, 4);
    for expected in ["Interstellar", "S01E01", "S01E02"] {
        assert!(l.objects.iter().any(|o| o.title.contains(expected)), "{expected} missing: {l:?}");
    }
    assert!(l.objects.iter().all(|o| o.class != ObjectClass::StorageFolder), "items only: {l:?}");
    let deep = l.objects.iter().find(|o| o.title.contains("S01E01")).unwrap();
    assert_ne!(deep.parent_id, "0", "its real directory, not the root it was searched from");
}

#[test]
fn search_title_contains_matches_case_insensitively_and_only_the_right_files() {
    let s = shown(&[
        "Movies/Interstellar.mkv",
        "Shows/Chernobyl/Season 01/Chernobyl.S01E01.mkv",
        "Shows/Chernobyl/Season 01/Chernobyl.S01E02.mkv",
    ]);
    let l = search(&s, "0", SearchCriteria::TitleContains("CHERNOBYL".into()), 0, 0).unwrap();
    assert_eq!(l.objects.len(), 2);
    assert!(l.objects.iter().any(|o| o.title.contains("S01E01")), "{l:?}");
    assert!(l.objects.iter().any(|o| o.title.contains("S01E02")), "{l:?}");
    assert!(!l.objects.iter().any(|o| o.title.contains("Interstellar")), "{l:?}");
}

#[test]
fn search_from_a_non_root_container_only_returns_files_under_that_subtree() {
    let s = shown(&["Movies/Interstellar.mkv", "Shows/Show/Season 01/S01E01.mkv", "RootFile.mkv"]);
    let l = search(&s, "d1", SearchCriteria::MatchAll, 0, 0).unwrap();
    assert_eq!(l.objects.len(), 1);
    assert!(l.objects[0].title.contains("S01E01"), "{l:?}");
}

#[test]
fn search_pagination_works_like_browses_over_the_matched_flat_list() {
    let s = shown(&["A.mkv", "B.mkv", "C.mkv"]);
    let l = search(&s, "0", SearchCriteria::MatchAll, 1, 1).unwrap();
    assert_eq!(l.objects.len(), 1);
    assert_eq!(l.objects[0].title, "B");
    assert_eq!(l.total, 3, "every match, not just the returned page");
}

#[test]
fn search_with_an_unknown_container_id_is_a_701_fault() {
    let s = shown(&["A.mkv"]);
    assert_eq!(search(&s, "d999", SearchCriteria::MatchAll, 0, 0), Err(701));
}

#[test]
fn search_with_unsupported_criteria_is_a_708_fault() {
    let s = shown(&["A.mkv"]);
    assert_eq!(search(&s, "0", SearchCriteria::Unsupported, 0, 0), Err(708));
}

#[test]
fn a_request_that_could_not_be_read_is_a_402_fault() {
    let s = shown(&["A.mkv"]);
    assert_eq!(handle_browse(&s, None, BASE).map_err(|f| f.code), Err(402));
    assert_eq!(handle_search(&s, None, BASE).map_err(|f| f.code), Err(402));
}

#[test]
fn a_request_line_and_headers_parse_including_a_percent_encoded_path() {
    let raw = b"GET /dlna/stream/Movie%20(2019).mkv HTTP/1.1\r\n\
                Host: example\r\nRange: bytes=0-99\r\nSOAPACTION: \"#Browse\"\r\n\r\n";
    let req = HttpRequest::parse(raw).unwrap();
    assert_eq!(req.method, "GET");
    assert_eq!(req.path, "/dlna/stream/Movie (2019).mkv");
    assert_eq!(req.header("range"), Some("bytes=0-99"));
    assert_eq!(req.header("soapaction"), Some("\"#Browse\""), "header names are lowercased");
}

#[test]
fn dlna_malformed_request_lines_are_none_not_a_panic() {
    assert!(HttpRequest::parse(b"").is_none());
    assert!(HttpRequest::parse(b"GET\r\n\r\n").is_none(), "no target or version");
}

#[test]
fn a_query_string_is_stripped_from_the_routed_path() {
    let raw = b"GET /dlna/stream/0?extra=1 HTTP/1.1\r\n\r\n";
    let req = HttpRequest::parse(raw).unwrap();
    assert_eq!(req.path, "/dlna/stream/0");
}

#[test]
fn dlna_percent_decoding_handles_spaces_and_leaves_a_bad_escape_literal() {
    assert_eq!(percent_decode("a%20b"), "a b");
    assert_eq!(percent_decode("no-escapes"), "no-escapes");
    assert_eq!(percent_decode("bad%"), "bad%", "a truncated escape passes through, not a panic");
    assert_eq!(percent_decode("bad%zz"), "bad%zz", "non-hex digits pass through literally");
}

#[test]
fn dlna_find_header_end_locates_the_blank_line_and_only_that() {
    let full = b"GET / HTTP/1.1\r\nHost: x\r\n\r\n";
    let end = find_header_end(full).expect("a complete header block must be found");
    assert_eq!(&full[end - 4..end], b"\r\n\r\n");
    assert_eq!(end, full.len(), "the blank line is the last thing in this buffer");
    assert_eq!(
        find_header_end(b"GET / HTTP/1.1\r\nHost: x\r\n"),
        None,
        "no blank line yet: headers are still incoming"
    );
}

#[test]
fn a_plain_and_open_ended_range_are_parsed() {
    assert_eq!(parse_range("bytes=0-499", 1000), Some((0, 499)));
    assert_eq!(parse_range("bytes=500-", 1000), Some((500, 999)), "open-ended means to EOF");
}

#[test]
fn a_suffix_range_means_the_last_n_bytes_clamped_to_the_start() {
    assert_eq!(parse_range("bytes=-100", 1000), Some((900, 999)));
    assert_eq!(parse_range("bytes=-5000", 1000), Some((0, 999)));
}

#[test]
fn dlna_invalid_ranges_are_refused_rather_than_guessed_at() {
    assert_eq!(parse_range("bytes=500-100", 1000), None, "start after end");
    assert_eq!(parse_range("bytes=1000-1500", 1000), None, "start at/past EOF");
    assert_eq!(parse_range("bytes=0-10,20-30", 1000), None, "multi-range is refused, not truncated");
    assert_eq!(parse_range("items=0-10", 1000), None, "wrong unit");
    assert_eq!(parse_range("bytes=0-100", 0), None, "nothing to range over in an empty file");
}

#[test]
fn dlna_content_type_prefers_the_scanned_container_over_the_extension() {
    assert_eq!(content_type_for(Some(Container::Matroska), Some("mkv")), "video/x-matroska");
    assert_eq!(content_type_for(Some(Container::WebM), Some("mkv")), "video/webm");
    assert_eq!(content_type_for(None, Some("mp3")), "audio/mpeg");
    assert_eq!(content_type_for(None, Some("flac")), "audio/flac");
    assert_eq!(content_type_for(None, None), "application/octet-stream");
}

#[test]
fn object_class_is_video_for_every_known_video_container_and_the_unknown_default() {
    assert_eq!(object_class_for(Some(Container::Matroska)), ObjectClass::VideoItem);
    assert_eq!(object_class_for(Some(Container::Mp4)), ObjectClass::VideoItem);
    assert_eq!(object_class_for(None), ObjectClass::VideoItem, "honest default, not a guess");
}

#[test]
fn a_generated_uuid_has_the_version_4_and_variant_bits_set() {
    let uuid = random_uuid().unwrap();
    let parts: Vec<&str> = uuid.split('-').collect();
    assert_eq!(parts.len(), 5, "canonical 8-4-4-4-12 grouping: {uuid}");
    assert_eq!(parts[2].chars().next(), Some('4'), "version nibble must read 4: {uuid}");
    let variant = parts[3].chars().next().unwrap();
    assert!(matches!(variant, '8' | '9' | 'a' | 'b'), "variant nibble out of range: {uuid}");
    assert_ne!(random_uuid().unwrap(), uuid, "two calls must not collide in practice");
}

#[test]
fn a_uuid_is_written_from_its_bytes() {
    let bytes = [
        0x00, 0x11, 0x22, 0x33, 0x44, 0x55, 0x66, 0x77, 0x88, 0x99, 0xaa, 0xbb, 0xcc, 0xdd, 0xee,
        0xff,
    ];
    assert_eq!(uuid_text(bytes), "00112233-4455-4677-8899-aabbccddeeff");
    assert_eq!(uuid_text([0xff; 16]), "ffffffff-ffff-4fff-bfff-ffffffffffff");
}

#[test]
fn paths_lead_where_they_should() {
    assert_eq!(route("GET", "/dlna/desc.xml"), Route::Description);
    assert_eq!(route("GET", "/dlna/stream/f7"), Route::Stream("f7".into()));
    assert_eq!(route("POST", "/dlna/cd/control"), Route::ContentDirectoryControl);
    assert_eq!(route("GET", "/etc/passwd"), Route::NotFound);
    assert_eq!(route("POST", "/dlna/desc.xml"), Route::NotFound);
}

#[test]
fn the_device_announces_itself_and_what_it_serves() {
    let all = announcements("1234");
    assert!(all.iter().any(|(nt, _)| nt == "upnp:rootdevice"), "{all:?}");
    assert!(all.iter().all(|(_, usn)| usn.starts_with("uuid:1234")), "{all:?}");
    assert!(source_mime_types().contains(&"video/x-matroska".to_string()));
    assert!(fault_head(12).contains("500"));
}

#[test]
fn every_file_is_collected_once_below_its_directories() {
    let s = shown(&["Movies/A.mkv", "Shows/S/1.mkv", "Shows/S/2.mkv", "Z.mkv"]);
    let mut all = collect_file_indices_recursive(&s.tree, "0");
    all.sort();
    assert_eq!(all, vec![0, 1, 2, 3]);
    let shows = s.tree.dirs.iter().find(|d| d.name == "Shows").unwrap();
    let mut below = collect_file_indices_recursive(&s.tree, &shows.id);
    below.sort();
    assert_eq!(below, vec![1, 2]);
    assert!(collect_file_indices_recursive(&s.tree, "d99").is_empty());
    for (i, f) in s.tree.files.iter().enumerate() {
        let homes: Vec<_> = s.tree.dirs.iter().filter(|d| d.child_files.contains(&i)).collect();
        assert_eq!(homes.len(), 1);
        assert_eq!(homes[0].id, f.parent_id);
    }
    for d in &s.tree.dirs {
        assert!(!collect_file_indices_recursive(&s.tree, &d.id).is_empty());
    }
}
