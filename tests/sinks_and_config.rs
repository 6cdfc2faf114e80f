use tsnapshot::backup::{
    BackupOutputStream, EntryError, EntryKind, FileTime, OutputAction, ReferenceEntry, SourceEntry,
};
use tsnapshot::compression::{CompressionAlgorithm, CompressionLevel};
use tsnapshot::config::{
    archive_path, log_level_from_str, Configuration, DirectoryConfig, Filter,
    KeepLimit, ParseError, Pattern, SinkPlan, SpaceMode, Step, Verbosity,
};
use tsnapshot::copy::CopyOutputStream;
use tsnapshot::hardlink::{ChangeDetectionMethod, HardLinkOutputStream};
use tsnapshot::json::Json;

fn at(secs: i64) -> Option<FileTime> {
    Some(FileTime { secs, nanos: 0 })
}

fn entry(path: &[u8], kind: EntryKind) -> SourceEntry {
    SourceEntry {
        path: path.to_vec(),
        kind,
        size: 100,
        mode: 0o644,
        uid: 0,
        gid: 0,
        mtime: at(2000),
        link_target: None,
        owner: None,
        group: None,
    }
}

fn text(s: &str) -> Json {
    Json::Text(s.to_string())
}

fn obj(members: Vec<(&str, Json)>) -> Json {
    Json::Object(members.into_iter().map(|(k, v)| (k.to_string(), v)).collect())
}

fn name_filter(p: &str) -> Filter {
    Filter::Name(Pattern::new(p).unwrap())
}

#[test]
fn copy_sink_mirrors_each_kind() {
    let mut sink = CopyOutputStream::new(b"/dst/snap");
    match sink.append_file(&entry(b"/src/a.txt", EntryKind::File), None).unwrap() {
        OutputAction::CopyFile { from, to } => {
            assert_eq!(from, b"/src/a.txt".to_vec());
            assert_eq!(to, b"/dst/snap/src/a.txt".to_vec());
        }
        other => panic!("unexpected {:?}", other),
    }
    match sink.append_file(&entry(b"/src/b", EntryKind::Directory), None).unwrap() {
        OutputAction::MakeDir { path } => assert_eq!(path, b"/dst/snap/src/b".to_vec()),
        other => panic!("unexpected {:?}", other),
    }
    let mut link = entry(b"/src/d", EntryKind::Symlink);
    link.link_target = Some(b"a.txt".to_vec());
    match sink.append_file(&link, None).unwrap() {
        OutputAction::MakeSymlink { link, target } => {
            assert_eq!(link, b"/dst/snap/src/d".to_vec());
            assert_eq!(target, b"a.txt".to_vec());
        }
        other => panic!("unexpected {:?}", other),
    }
    assert!(sink.reference_path(&entry(b"/src/a.txt", EntryKind::File)).is_none());
}

#[test]
fn copy_sink_refuses_other_kinds() {
    let mut sink = CopyOutputStream::new(b"/dst");
    assert_eq!(sink.append_file(&entry(b"/src/f", EntryKind::Fifo), None).unwrap_err(), EntryError::UnsupportedKind);
    assert_eq!(sink.append_file(&entry(b"/src/c", EntryKind::CharDevice), None).unwrap_err(), EntryError::UnsupportedKind);
    assert_eq!(sink.append_file(&entry(b"/src/d", EntryKind::Symlink), None).unwrap_err(), EntryError::LinkUnreadable);
}

fn linker(max: u64) -> HardLinkOutputStream {
    HardLinkOutputStream::new(b"/dst/2", b"/dst/1", max, ChangeDetectionMethod::Timestamp)
}

fn is_link(a: &OutputAction) -> bool {
    matches!(a, OutputAction::HardLink { .. })
}

#[test]
fn hard_link_sink_links_unchanged_files() {
    let mut sink = linker(u64::MAX);
    let e = entry(b"/src/a.txt", EntryKind::File);
    assert_eq!(sink.reference_path(&e), Some(b"/dst/1/src/a.txt".to_vec()));
    let r = ReferenceEntry { mtime: at(2000), nlink: 7 };
    match sink.append_file(&e, Some(r)).unwrap() {
        OutputAction::HardLink { link, original } => {
            assert_eq!(link, b"/dst/2/src/a.txt".to_vec());
            assert_eq!(original, b"/dst/1/src/a.txt".to_vec());
        }
        other => panic!("unexpected {:?}", other),
    }
}

#[test]
fn hard_link_sink_copies_changed_or_missing() {
    let mut sink = linker(u64::MAX);
    let e = entry(b"/src/a.txt", EntryKind::File);
    let newer_ref = ReferenceEntry { mtime: at(2001), nlink: 1 };
    assert!(matches!(sink.append_file(&e, Some(newer_ref)).unwrap(), OutputAction::CopyFile { .. }));
    assert!(matches!(sink.append_file(&e, None).unwrap(), OutputAction::CopyFile { .. }));
    let unknown = ReferenceEntry { mtime: None, nlink: 1 };
    assert!(matches!(sink.append_file(&e, Some(unknown)).unwrap(), OutputAction::CopyFile { .. }));
    let same_second = ReferenceEntry { mtime: Some(FileTime { secs: 2000, nanos: 1 }), nlink: 1 };
    assert!(matches!(sink.append_file(&e, Some(same_second)).unwrap(), OutputAction::CopyFile { .. }));
}

#[test]
fn hard_link_cap_is_exclusive() {
    let mut sink = linker(2);
    let e = entry(b"/src/a.txt", EntryKind::File);
    let at_cap = ReferenceEntry { mtime: at(1000), nlink: 2 };
    assert!(matches!(sink.append_file(&e, Some(at_cap)).unwrap(), OutputAction::CopyFile { .. }));
    let below = ReferenceEntry { mtime: at(1000), nlink: 1 };
    assert!(is_link(&sink.append_file(&e, Some(below)).unwrap()));
}

#[test]
fn hard_link_sink_makes_fresh_directories() {
    let mut sink = linker(u64::MAX);
    let d = entry(b"/src/b", EntryKind::Directory);
    assert!(sink.reference_path(&d).is_none());
    let r = ReferenceEntry { mtime: at(1), nlink: 1 };
    assert!(matches!(sink.append_file(&d, Some(r)).unwrap(), OutputAction::MakeDir { .. }));
}

#[test]
fn change_detection_by_timestamp() {
    let m = ChangeDetectionMethod::Timestamp;
    assert!(!m.has_changed(at(5), at(5)));
    assert!(!m.has_changed(at(6), at(5)));
    assert!(m.has_changed(at(4), at(5)));
    assert!(m.has_changed(None, at(5)));
    assert!(ChangeDetectionMethod::FullCompare.has_changed(at(6), at(5)));
    assert!(matches!(ChangeDetectionMethod::from_str("TimeStamp"), Ok(ChangeDetectionMethod::Timestamp)));
    assert!(matches!(ChangeDetectionMethod::from_str("md5"), Err(ParseError::UnknownOption(w)) if w == "md5"));
}

#[test]
fn compression_extensions() {
    assert_eq!(CompressionAlgorithm::from_extension(b"tsnapshot-logs.tar.gz"), Some(CompressionAlgorithm::Gzip(CompressionLevel::Fast)));
    assert_eq!(CompressionAlgorithm::from_extension(b"x.tar.bz2"), Some(CompressionAlgorithm::Bzip2(CompressionLevel::Fast)));
    assert_eq!(CompressionAlgorithm::from_extension(b"x.zip"), Some(CompressionAlgorithm::Zip));
    assert_eq!(CompressionAlgorithm::from_extension(b"x.tar"), None);
    assert_eq!(CompressionAlgorithm::Gzip(CompressionLevel::Best).extension(), ".tar.gz");
    assert_eq!(CompressionAlgorithm::Bzip2(CompressionLevel::Fast).extension(), ".tar.bz2");
    assert_eq!(CompressionAlgorithm::Zip.extension(), ".zip");
}

#[test]
fn compression_names_ignore_case() {
    assert_eq!(CompressionAlgorithm::from_str("GZIP"), Ok(CompressionAlgorithm::Gzip(CompressionLevel::Fast)));
    assert_eq!(CompressionAlgorithm::from_str("bzip2"), Ok(CompressionAlgorithm::Bzip2(CompressionLevel::Fast)));
    assert_eq!(CompressionAlgorithm::from_str("RAR"), Err("rar".to_string()));
    assert_eq!(CompressionLevel::from_str("Best"), Ok(CompressionLevel::Best));
    assert_eq!(CompressionLevel::from_str("7"), Ok(CompressionLevel::Level(7)));
    assert_eq!(CompressionLevel::from_str("10"), Err("10".to_string()));
}

#[test]
fn verbosity_words() {
    assert_eq!(log_level_from_str("VERBOSE").unwrap(), Verbosity::Verbose);
    assert_eq!(log_level_from_str("warning").unwrap(), Verbosity::Warning);
    assert!(matches!(log_level_from_str("loud"), Err(ParseError::UnknownOption(w)) if w == "loud"));
}

#[test]
fn name_filter_skips_tmp_files() {
    let f = name_filter("\\.tmp$");
    assert!(f.matches(b"/src/notes.tmp", 3));
    assert!(!f.matches(b"/src/notes.txt", 3));
    assert!(!f.matches(b"/src/\xffnotes.tmp", 3));
}

#[test]
fn size_filter_bounds_are_inclusive() {
    let f = Filter::Size(10, 20);
    assert!(f.matches(b"/a", 10));
    assert!(f.matches(b"/a", 20));
    assert!(!f.matches(b"/a", 21));
    assert!(Filter::Size(5, 5).matches(b"/a", 5));
}

#[test]
fn empty_and_or_filters() {
    assert!(Filter::And(vec![]).matches(b"/a", 1));
    assert!(!Filter::Or(vec![]).matches(b"/a", 1));
    let both = Filter::And(vec![name_filter("a"), Filter::Size(0, 5)]);
    assert!(both.matches(b"/a", 5));
    assert!(!both.matches(b"/a", 6));
    let either = Filter::Or(vec![name_filter("zzz"), Filter::Size(0, 5)]);
    assert!(either.matches(b"/a", 5));
    assert!(Filter::Not(Box::new(Filter::Size(0, 5))).matches(b"/a", 6));
}

#[test]
fn mime_filter_uses_the_guessed_type() {
    let f = Filter::MimeType(Pattern::new("^text/plain$").unwrap());
    assert!(f.matches(b"/docs/a.txt", 1));
    assert!(!f.matches(b"/docs/a.png", 1));
    assert!(!f.matches(b"/docs/noext", 1));
    assert_eq!(Pattern::new("^text/").unwrap().source(), "^text/");
    assert!(Pattern::new("(").is_err());
}

fn tree() -> DirectoryConfig {
    DirectoryConfig::from_json(&obj(vec![
        ("subpath", text("/src")),
        ("filters", Json::Array(vec![obj(vec![("on", text("name")), ("pattern", text("\\.tmp$"))])])),
        (
            "subconfigs",
            Json::Array(vec![obj(vec![
                ("subpath", text("logs")),
                ("space_mode", text("compress")),
                ("algorithm", text("gzip")),
            ])]),
        ),
    ]))
    .unwrap()
}

#[test]
fn dispatch_switches_skips_and_appends() {
    let t = tree();
    assert_eq!(t.mode(), SpaceMode::Basic);
    assert_eq!(t.subconfigs()[0].mode(), SpaceMode::Compressed(CompressionAlgorithm::Gzip(CompressionLevel::Fast)));
    assert_eq!(t.step(b"/src/logs", EntryKind::Directory, 0), Step::Switch(0));
    assert_eq!(t.step(b"/src//logs/", EntryKind::Directory, 0), Step::Switch(0));
    assert_eq!(t.step(b"/src/a.txt", EntryKind::File, 10), Step::Append { descend: false });
    assert_eq!(t.step(b"/src/b", EntryKind::Directory, 0), Step::Append { descend: true });
    assert_eq!(t.step(b"/src/notes.tmp", EntryKind::File, 1), Step::Skip);
    assert!(t.get_subconfig(b"/src/logs").is_some());
    assert!(t.get_subconfig(b"/src/other").is_none());
}

#[test]
fn archive_is_named_after_the_subtree() {
    let gz = CompressionAlgorithm::Gzip(CompressionLevel::Fast);
    assert_eq!(archive_path(b"/dst/ts", b"/src/logs", gz), Some(b"/dst/ts/src/tsnapshot-logs.tar.gz".to_vec()));
    assert_eq!(archive_path(b"/dst/ts", b"/logs", CompressionAlgorithm::Zip), Some(b"/dst/ts/tsnapshot-logs.zip".to_vec()));
    assert_eq!(archive_path(b"/dst", b"/", gz), None);
}

#[test]
fn compress_over_non_basic_is_rejected() {
    let r = DirectoryConfig::from_json(&obj(vec![
        ("subpath", text("/src")),
        ("space_mode", text("compress")),
        ("subconfigs", Json::Array(vec![obj(vec![("subpath", text("x")), ("space_mode", text("linked"))])])),
    ]));
    assert!(matches!(r, Err(ParseError::CannotCompressNonbasic)));
}

#[test]
fn node_errors() {
    assert!(matches!(DirectoryConfig::from_json(&text("x")), Err(ParseError::NotAnObject(_))));
    assert!(matches!(DirectoryConfig::from_json(&obj(vec![])), Err(ParseError::RequiredPropMissing("subpath"))));
    let bad_mode = obj(vec![("subpath", text("/s")), ("space_mode", text("shrink"))]);
    assert!(matches!(DirectoryConfig::from_json(&bad_mode), Err(ParseError::UnknownOption(w)) if w == "shrink"));
    let full = obj(vec![("subpath", text("/s")), ("space_mode", text("linked")), ("change_detection", text("full"))]);
    assert!(matches!(DirectoryConfig::from_json(&full), Err(ParseError::UnsupportedOption(_))));
    let linked = obj(vec![("subpath", text("/s")), ("space_mode", text("linked")), ("max_link_count", Json::Number(Some(2)))]);
    assert_eq!(
        DirectoryConfig::from_json(&linked).unwrap().mode(),
        SpaceMode::HardLinked { max_link_count: 2, detection: ChangeDetectionMethod::Timestamp }
    );
    let bad_regex = obj(vec![("on", text("name")), ("pattern", text("("))]);
    assert!(matches!(Filter::new(&bad_regex), Err(ParseError::BadRegex(p, _)) if p == "("));
    assert!(matches!(Filter::new(&obj(vec![("on", text("color"))])), Err(ParseError::UnknownOption(_))));
    let size = obj(vec![("on", text("size")), ("max", Json::Number(Some(9)))]);
    assert!(matches!(Filter::new(&size), Ok(Filter::Size(0, 9))));
}

#[test]
fn timespans_add_their_units() {
    let span = obj(vec![("days", Json::Number(Some(1))), ("hours", Json::Number(Some(2)))]);
    assert_eq!(KeepLimit::parse_timespan(Some(&span)).unwrap(), 93600);
    let long = obj(vec![("months", Json::Number(Some(1))), ("years", Json::Number(Some(1)))]);
    assert_eq!(KeepLimit::parse_timespan(Some(&long)).unwrap(), 2592000 + 31536000);
    let huge = obj(vec![("years", Json::Number(Some(u64::MAX)))]);
    assert!(matches!(KeepLimit::parse_timespan(Some(&huge)), Err(ParseError::TimespanOverflow)));
    assert!(matches!(KeepLimit::parse_timespan(None), Err(ParseError::RequiredPropMissing("timespan"))));
    let neg = obj(vec![("seconds", Json::Number(None))]);
    assert!(matches!(KeepLimit::parse_timespan(Some(&neg)), Err(ParseError::NotAnUnsignedInt("seconds"))));
}

fn limit(count: u64, seconds: u64) -> Json {
    obj(vec![("count", Json::Number(Some(count))), ("timespan", obj(vec![("seconds", Json::Number(Some(seconds)))]))])
}

#[test]
fn configuration_defaults_and_bucket_order() {
    let doc = obj(vec![
        ("destination_dir", text("/backups")),
        ("root_dir_config", obj(vec![("subpath", text("/src"))])),
        ("keep_limit", Json::Array(vec![limit(1, 500), limit(2, 100), limit(5, 100)])),
    ]);
    let c = Configuration::new(&doc).unwrap();
    assert_eq!(c.destination_dir, "/backups");
    assert_eq!(c.name_format, "%Y-%m-%d_%H-%M-%S");
    assert_eq!(c.verbosity, Verbosity::Warning);
    assert_eq!(
        c.keep_limit,
        vec![
            KeepLimit { count: 5, timespan: 100 },
            KeepLimit { count: 2, timespan: 100 },
            KeepLimit { count: 1, timespan: 500 }
        ]
    );
}

#[test]
fn configuration_errors() {
    assert!(matches!(Configuration::new(&Json::Null), Err(ParseError::NotAnObject(_))));
    let no_root = obj(vec![("destination_dir", text("/b"))]);
    assert!(matches!(Configuration::new(&no_root), Err(ParseError::RequiredPropMissing("root_dir_config"))));
    let no_dst = obj(vec![("root_dir_config", obj(vec![("subpath", text("/s"))]))]);
    assert!(matches!(Configuration::new(&no_dst), Err(ParseError::RequiredPropMissing("destination_dir"))));
    let loud = obj(vec![
        ("destination_dir", text("/b")),
        ("verbosity", text("loud")),
        ("root_dir_config", obj(vec![("subpath", text("/s"))])),
    ]);
    assert!(matches!(Configuration::new(&loud), Err(ParseError::UnknownOption(_))));
    let bad_limits = obj(vec![
        ("destination_dir", text("/b")),
        ("root_dir_config", obj(vec![("subpath", text("/s"))])),
        ("keep_limit", text("x")),
    ]);
    assert!(matches!(Configuration::new(&bad_limits), Err(ParseError::NotAnArray(_))));
}

#[test]
fn nodes_plan_their_sinks() {
    let t = tree();
    assert!(matches!(t.plan(b"/src", b"/dst/ts", None), Some(SinkPlan::Current)));
    match t.subconfigs()[0].plan(b"/src/logs", b"/dst/ts", None) {
        Some(SinkPlan::Archive { path, algorithm }) => {
            assert_eq!(path, b"/dst/ts/src/tsnapshot-logs.tar.gz".to_vec());
            assert_eq!(algorithm, CompressionAlgorithm::Gzip(CompressionLevel::Fast));
        }
        _ => panic!("expected an archive"),
    }
    assert!(t.subconfigs()[0].plan(b"/", b"/dst/ts", None).is_none());
    let linked = DirectoryConfig::from_json(&obj(vec![("subpath", text("/s")), ("space_mode", text("linked"))])).unwrap();
    match linked.plan(b"/s", b"/dst/2", Some(b"/dst/1")) {
        Some(SinkPlan::Linked(mut sink)) => {
            let e = entry(b"/s/a", EntryKind::File);
            assert_eq!(sink.reference_path(&e), Some(b"/dst/1/s/a".to_vec()));
            let r = ReferenceEntry { mtime: at(1), nlink: 1 };
            assert!(is_link(&sink.append_file(&e, Some(r)).unwrap()));
        }
        _ => panic!("expected a linking sink"),
    }
    assert!(matches!(linked.plan(b"/s", b"/dst/2", None), Some(SinkPlan::Copied(_))));
}

#[test]
fn filter_parsing_builds_the_described_filter() {
    assert!(matches!(Filter::new(&obj(vec![("on", text("size"))])), Ok(Filter::Size(0, u64::MAX))));
    let nested = obj(vec![
        ("on", text("and")),
        (
            "filters",
            Json::Array(vec![
                obj(vec![("on", text("not")), ("filter", obj(vec![("on", text("size")), ("min", Json::Number(Some(3)))]))]),
                obj(vec![("on", text("mime")), ("pattern", text("^text/"))]),
            ]),
        ),
    ]);
    match Filter::new(&nested).unwrap() {
        Filter::And(fs) => {
            assert_eq!(fs.len(), 2);
            assert!(matches!(&fs[0], Filter::Not(g) if matches!(**g, Filter::Size(3, u64::MAX))));
            assert!(matches!(&fs[1], Filter::MimeType(p) if p.source() == "^text/"));
        }
        _ => panic!("expected an and filter"),
    }
    assert!(matches!(Filter::new(&obj(vec![("on", text("or"))])), Ok(Filter::Or(v)) if v.is_empty()));
}

#[test]
fn filter_parsing_errors() {
    assert!(matches!(Filter::new(&obj(vec![])), Err(ParseError::RequiredPropMissing("on"))));
    assert!(matches!(Filter::new(&obj(vec![("on", text("name"))])), Err(ParseError::RequiredPropMissing("pattern"))));
    assert!(matches!(Filter::new(&obj(vec![("on", text("not"))])), Err(ParseError::RequiredPropMissing("filter"))));
    assert!(matches!(Filter::new(&obj(vec![("on", text("color"))])), Err(ParseError::UnknownOption(w)) if w == "color"));
    assert!(matches!(Filter::new(&obj(vec![("on", text("or")), ("filters", text("x"))])), Err(ParseError::NotAnArray("filters"))));
    assert!(matches!(Filter::new(&text("x")), Err(ParseError::NotAnObject("filter"))));
}

#[test]
fn name_filter_needs_path_text() {
    assert!(!name_filter("").matches(b"", 0));
    assert!(!name_filter(".*").matches(b"", 0));
    assert!(name_filter(".*").matches(b"/a", 0));
}

#[test]
fn node_keeps_subpath_filters_and_children() {
    let t = tree();
    assert_eq!(t.subpath(), &b"/src".to_vec());
    assert_eq!(t.filters().len(), 1);
    assert_eq!(t.subconfigs().len(), 1);
    assert_eq!(t.subconfigs()[0].subpath(), &b"logs".to_vec());
    let odd = obj(vec![("subpath", text("/s")), ("space_mode", Json::Number(Some(1)))]);
    assert!(matches!(DirectoryConfig::from_json(&odd), Err(ParseError::NotAString("space_mode"))));
}

#[test]
fn configuration_keeps_the_root_node() {
    let doc = obj(vec![
        ("destination_dir", text("/backups")),
        ("root_dir_config", obj(vec![("subpath", text("/src")), ("space_mode", text("linked"))])),
    ]);
    let c = Configuration::new(&doc).unwrap();
    assert_eq!(c.root_dir_config.subpath(), &b"/src".to_vec());
    assert!(matches!(c.root_dir_config.mode(), SpaceMode::HardLinked { .. }));
    assert!(c.keep_limit.is_empty());
}

#[test]
fn timespan_names_the_first_bad_unit() {
    let bad = obj(vec![("hours", Json::Number(None)), ("days", text("x"))]);
    assert!(matches!(KeepLimit::parse_timespan(Some(&bad)), Err(ParseError::NotAnUnsignedInt("hours"))));
    let bad_years = obj(vec![("seconds", Json::Number(Some(1))), ("years", Json::Bool(true))]);
    assert!(matches!(KeepLimit::parse_timespan(Some(&bad_years)), Err(ParseError::NotAnUnsignedInt("years"))));
}

#[test]
fn size_filter_bound_errors() {
    let bad_min = obj(vec![("on", text("size")), ("min", text("1"))]);
    assert!(matches!(Filter::new(&bad_min), Err(ParseError::NotAnUnsignedInt("min"))));
    let bad_max = obj(vec![("on", text("size")), ("max", Json::Number(None))]);
    assert!(matches!(Filter::new(&bad_max), Err(ParseError::NotAnUnsignedInt("max"))));
}

#[test]
fn linked_node_change_detection_words() {
    let unknown = obj(vec![("subpath", text("/s")), ("space_mode", text("linked")), ("change_detection", text("MD5"))]);
    assert!(matches!(DirectoryConfig::from_json(&unknown), Err(ParseError::UnknownOption(w)) if w == "md5"));
    let full = obj(vec![("subpath", text("/s")), ("space_mode", text("linked")), ("change_detection", text("Full"))]);
    assert!(matches!(DirectoryConfig::from_json(&full), Err(ParseError::UnsupportedOption(w)) if w == "Full"));
}
