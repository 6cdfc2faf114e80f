use tsnapshot::backup::{BackupOutputStream, EntryError, EntryKind, FileTime, OutputAction, SourceEntry};
use tsnapshot::path::{append_path, as_relative, components, join_path, named_segments};
use tsnapshot::tar::{header_block, padding_len, TarOutputStream};

fn entry(path: &[u8], kind: EntryKind, size: u64) -> SourceEntry {
    SourceEntry {
        path: path.to_vec(),
        kind,
        size,
        mode: 0o100644,
        uid: 1000,
        gid: 1000,
        mtime: Some(FileTime { secs: 1_700_000_000, nanos: 0 }),
        link_target: None,
        owner: Some(b"user".to_vec()),
        group: Some(b"staff".to_vec()),
    }
}

fn octal_value(field: &[u8]) -> u64 {
    let mut v = 0u64;
    for &b in field {
        if b < b'0' || b > b'7' {
            break;
        }
        v = v * 8 + (b - b'0') as u64;
    }
    v
}

#[test]
fn relative_strips_root_and_current_dirs() {
    assert_eq!(as_relative(b"/a//./b/../c/"), b"a/b/../c".to_vec());
    assert_eq!(as_relative(b"./x"), b"x".to_vec());
    assert_eq!(as_relative(b"/"), b"".to_vec());
    assert_eq!(as_relative(b""), b"".to_vec());
    assert_eq!(as_relative(b"src/a.txt"), b"src/a.txt".to_vec());
}

#[test]
fn relative_is_idempotent() {
    for p in [&b"/a//./b/../c/"[..], b"./x/./", b"/", b"..//..", b"a"] {
        let once = as_relative(p);
        assert_eq!(as_relative(&once), once);
    }
}

#[test]
fn append_joins_relative_source_under_destination() {
    assert_eq!(append_path(b"/dst", b"/src/a.txt"), b"/dst/src/a.txt".to_vec());
    assert_eq!(append_path(b"/dst/", b"a"), b"/dst/a".to_vec());
    assert_eq!(append_path(b"", b"/a"), b"a".to_vec());
    assert_eq!(join_path(b"/dst", b""), b"/dst/".to_vec());
}

#[test]
fn components_mark_the_root() {
    assert_eq!(components(b"/src//logs/."), vec![b"/".to_vec(), b"src".to_vec(), b"logs".to_vec()]);
    assert_eq!(named_segments(b"logs"), vec![b"logs".to_vec()]);
}

#[test]
fn header_fields_of_a_file() {
    let h = header_block(&entry(b"/src/a.txt", EntryKind::File, 100)).unwrap();
    assert_eq!(h.len(), 512);
    assert_eq!(&h[0..9], b"src/a.txt");
    assert!(h[9..100].iter().all(|&b| b == 0));
    assert_eq!(&h[100..108], b"0000644\0");
    assert_eq!(&h[108..116], b"0001750\0");
    assert_eq!(&h[116..124], b"0001750\0");
    assert_eq!(&h[124..136], b"00000000144\0");
    assert_eq!(&h[136..148], b"14524770400\0");
    assert_eq!(h[156], b'0');
    assert_eq!(&h[257..265], b"ustar  \0");
    assert_eq!(&h[265..269], b"user");
    assert_eq!(&h[297..302], b"staff");
    assert!(h[345..512].iter().all(|&b| b == 0));
}

#[test]
fn header_checksum_is_byte_sum_with_spaces() {
    for e in [
        entry(b"/src/a.txt", EntryKind::File, 100),
        entry(b"/src/b", EntryKind::Directory, 4096),
    ] {
        let h = header_block(&e).unwrap();
        let mut sum: u64 = 0;
        for (i, &b) in h.iter().enumerate() {
            sum += if (148..156).contains(&i) { b' ' as u64 } else { b as u64 };
        }
        assert_eq!(octal_value(&h[148..154]), sum);
        assert_eq!(h[154], 0);
        assert_eq!(h[155], b' ');
    }
}

#[test]
fn directory_header_has_slash_and_no_size() {
    let h = header_block(&entry(b"/src/b", EntryKind::Directory, 4096)).unwrap();
    assert_eq!(&h[0..6], b"src/b/");
    assert_eq!(&h[124..136], b"00000000000\0");
    assert_eq!(h[156], b'5');
}

#[test]
fn symlink_header_names_its_target() {
    let mut e = entry(b"/src/d", EntryKind::Symlink, 5);
    e.link_target = Some(b"a.txt".to_vec());
    let h = header_block(&e).unwrap();
    assert_eq!(h[156], b'2');
    assert_eq!(&h[157..162], b"a.txt");
    assert_eq!(&h[124..136], b"00000000000\0");
}

#[test]
fn hundred_byte_path_uses_name_only() {
    let mut p = b"/".to_vec();
    p.extend(std::iter::repeat(b'n').take(100));
    let h = header_block(&entry(&p, EntryKind::File, 0)).unwrap();
    assert!(h[0..100].iter().all(|&b| b == b'n'));
    assert!(h[345..500].iter().all(|&b| b == 0));
}

#[test]
fn long_path_splits_into_prefix_and_name() {
    let mut p = b"/".to_vec();
    p.extend(std::iter::repeat(b'p').take(50));
    p.extend(std::iter::repeat(b'q').take(100));
    let h = header_block(&entry(&p, EntryKind::File, 0)).unwrap();
    assert!(h[0..100].iter().all(|&b| b == b'q'));
    assert!(h[345..395].iter().all(|&b| b == b'p'));
    assert!(h[395..500].iter().all(|&b| b == 0));
}

#[test]
fn header_errors() {
    let mut e = entry(b"/src/a", EntryKind::File, 1);
    e.mtime = None;
    assert_eq!(header_block(&e), Err(EntryError::MtimeUnavailable));
    let mut e = entry(b"/src/a", EntryKind::File, 1);
    e.mtime = Some(FileTime { secs: -1, nanos: 0 });
    assert_eq!(header_block(&e), Err(EntryError::MtimeBeforeEpoch));
    let mut e = entry(b"/src/a", EntryKind::File, 1);
    e.owner = None;
    assert_eq!(header_block(&e), Err(EntryError::UnknownOwner));
    let mut e = entry(b"/src/a", EntryKind::File, 1);
    e.owner = Some(vec![0xff, 0xfe]);
    assert_eq!(header_block(&e), Err(EntryError::OwnerNotUtf8));
    let mut e = entry(b"/src/a", EntryKind::File, 1);
    e.group = None;
    assert_eq!(header_block(&e), Err(EntryError::UnknownGroup));
    let mut e = entry(b"/src/a", EntryKind::File, 1);
    e.group = Some(vec![0xc3]);
    assert_eq!(header_block(&e), Err(EntryError::GroupNotUtf8));
    assert_eq!(header_block(&entry(b"/src/\xff", EntryKind::File, 1)), Err(EntryError::PathNotUtf8));
    assert_eq!(header_block(&entry(b"/src/s", EntryKind::Other, 0)), Err(EntryError::UnsupportedKind));
}

#[test]
fn padding_fills_the_last_block() {
    assert_eq!(padding_len(100), 412);
    assert_eq!(padding_len(0), 0);
    assert_eq!(padding_len(512), 0);
    assert_eq!(padding_len(1024), 0);
    assert_eq!(padding_len(513), 511);
}

#[test]
fn tar_sink_records_and_trailer() {
    let mut tar = TarOutputStream::new();
    let action = tar.append_file(&entry(b"/src/a.txt", EntryKind::File, 100), None).unwrap();
    let mut archive = Vec::new();
    match action {
        OutputAction::Record { header, data_len, padding } => {
            assert_eq!(data_len, 100);
            assert_eq!(padding, 412);
            archive.extend(header);
            archive.extend(std::iter::repeat(b'x').take(data_len as usize));
            archive.extend(std::iter::repeat(0u8).take(padding));
        }
        other => panic!("unexpected {:?}", other),
    }
    match tar.append_file(&entry(b"/src/b", EntryKind::Directory, 4096), None).unwrap() {
        OutputAction::Record { header, data_len, padding } => {
            assert_eq!((data_len, padding), (0, 0));
            archive.extend(header);
        }
        other => panic!("unexpected {:?}", other),
    }
    assert_eq!(tar.records(), 2);
    let trailer = tar.trailer();
    assert_eq!(trailer, vec![0u8; 1024]);
    archive.extend(trailer);
    assert_eq!(archive.len() % 512, 0);
    assert!(archive[archive.len() - 1024..].iter().all(|&b| b == 0));
    for block in archive[..archive.len() - 1024].chunks(512) {
        assert!(block.iter().any(|&b| b != 0));
    }
}

#[test]
fn long_directory_keeps_its_slash() {
    let mut p = b"/".to_vec();
    p.extend(std::iter::repeat(b'd').take(100));
    let h = header_block(&entry(&p, EntryKind::Directory, 0)).unwrap();
    assert!(h[0..99].iter().all(|&b| b == b'd'));
    assert_eq!(h[99], b'/');
    assert_eq!(h[345], b'd');
    assert!(h[346..500].iter().all(|&b| b == 0));
}

#[test]
fn tar_sink_writes_nothing_for_a_bad_entry() {
    let mut tar = TarOutputStream::new();
    let mut e = entry(b"/src/a", EntryKind::File, 1);
    e.owner = None;
    assert_eq!(tar.append_file(&e, None).unwrap_err(), EntryError::UnknownOwner);
    assert_eq!(tar.records(), 0);
    match tar.append_file(&entry(b"/src/w", EntryKind::File, 1024), None).unwrap() {
        OutputAction::Record { header, data_len, padding } => {
            assert_eq!(header.len(), 512);
            assert_eq!((data_len, padding), (1024, 0));
        }
        other => panic!("unexpected {:?}", other),
    }
}

#[test]
fn only_symlinks_carry_a_link_name() {
    let mut e = entry(b"/src/a", EntryKind::File, 0);
    e.link_target = Some(b"elsewhere".to_vec());
    let h = header_block(&e).unwrap();
    assert!(h[157..257].iter().all(|&b| b == 0));
    assert_eq!(&h[257..263], b"ustar ");
}
