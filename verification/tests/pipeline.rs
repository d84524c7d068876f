use drupes::drop_singletons;
use drupes::duplicate_sets;
use drupes::full_hash_targets;
use drupes::pass_one;
use drupes::pass_three;
use drupes::pass_two;
use drupes::prehash_targets;
use drupes::FileEntry;
use drupes::HashGroups;
use drupes::PrefixRead;
use drupes::TailRead;
use drupes::PREHASH_SIZE;

fn entry(path: &[u8], size: u64) -> FileEntry {
    FileEntry {
        path: path.to_vec(),
        size,
    }
}

/// Drive the whole pipeline over in-memory files, reading prefixes and
/// tails from the given contents, as the real scanner and readers would.
fn run_pipeline(files: &[(&[u8], Vec<u8>)], include_empty: bool) -> HashGroups {
    let entries: Vec<FileEntry> = files
        .iter()
        .map(|(p, c)| entry(p, c.len() as u64))
        .collect();
    let sized = pass_one(&entries, include_empty);
    let sized = drop_singletons(sized);
    let targets = prehash_targets(&sized);
    let reads: Vec<PrefixRead> = targets
        .iter()
        .map(|p| {
            let content = &files.iter().find(|(fp, _)| fp == &p.as_slice()).unwrap().1;
            let n = content.len().min(PREHASH_SIZE);
            PrefixRead {
                path: p.clone(),
                bytes: Some(content[..n].to_vec()),
            }
        })
        .collect();
    let prehashed = pass_two(&reads);
    let tasks = full_hash_targets(&prehashed);
    let tails: Vec<TailRead> = tasks
        .iter()
        .map(|t| {
            let content = &files
                .iter()
                .find(|(fp, _)| fp == &t.path.as_slice())
                .unwrap()
                .1;
            let n = content.len().min(PREHASH_SIZE);
            TailRead {
                prehash: t.prehash.clone(),
                path: t.path.clone(),
                bytes: Some(content[n..].to_vec()),
            }
        })
        .collect();
    pass_three(&tails)
}

#[test]
fn identical_files_are_grouped_together() {
    let files: Vec<(&[u8], Vec<u8>)> = vec![
        (b"a/x", b"hello".to_vec()),
        (b"b/y", b"hello".to_vec()),
    ];
    let finals = run_pipeline(&files, false);
    let sets = duplicate_sets(&finals);
    assert_eq!(sets.len(), 1);
    assert_eq!(sets[0], vec![b"a/x".to_vec(), b"b/y".to_vec()]);
}

#[test]
fn different_files_of_same_size_are_separated() {
    let files: Vec<(&[u8], Vec<u8>)> = vec![
        (b"x", b"hello".to_vec()),
        (b"y", b"hello".to_vec()),
        (b"z", b"world".to_vec()),
    ];
    let finals = run_pipeline(&files, false);
    let sets = duplicate_sets(&finals);
    assert_eq!(sets.len(), 1);
    assert_eq!(sets[0], vec![b"x".to_vec(), b"y".to_vec()]);
    for set in &sets {
        assert!(!set.contains(&b"z".to_vec()));
    }
    // The default listing shows x, then y, then a blank separator line,
    // and z nowhere.
    let lines = drupes::listing_lines(&sets, false);
    assert_eq!(lines, vec![b"x".to_vec(), b"y".to_vec(), Vec::<u8>::new()]);
}

#[test]
fn unique_size_never_reaches_later_passes() {
    let files: Vec<(&[u8], Vec<u8>)> = vec![
        (b"x", b"hello".to_vec()),
        (b"y", b"hello".to_vec()),
        (b"w", b"longer than the others".to_vec()),
    ];
    let entries: Vec<FileEntry> = files
        .iter()
        .map(|(p, c)| entry(p, c.len() as u64))
        .collect();
    let sized = drop_singletons(pass_one(&entries, false));
    let targets = prehash_targets(&sized);
    assert!(!targets.contains(&b"w".to_vec()));
    let finals = run_pipeline(&files, false);
    for set in duplicate_sets(&finals) {
        assert!(!set.contains(&b"w".to_vec()));
    }
}

#[test]
fn same_prefix_different_tail_split_in_third_pass() {
    // Two files agreeing on the first PREHASH_SIZE bytes but differing
    // afterward share a fingerprint group and still end in different
    // final groups.
    let mut c1 = vec![7u8; 5000];
    let mut c2 = vec![7u8; 5000];
    c1[4999] = 1;
    c2[4999] = 2;
    let files: Vec<(&[u8], Vec<u8>)> = vec![(b"p", c1), (b"q", c2)];
    let entries: Vec<FileEntry> = files
        .iter()
        .map(|(p, c)| entry(p, c.len() as u64))
        .collect();
    let sized = drop_singletons(pass_one(&entries, false));
    let targets = prehash_targets(&sized);
    let reads: Vec<PrefixRead> = targets
        .iter()
        .map(|p| {
            let content = &files.iter().find(|(fp, _)| fp == &p.as_slice()).unwrap().1;
            PrefixRead {
                path: p.clone(),
                bytes: Some(content[..PREHASH_SIZE].to_vec()),
            }
        })
        .collect();
    let prehashed = pass_two(&reads);
    // One fingerprint group holding both files.
    let multi: Vec<_> = prehashed
        .groups
        .iter()
        .filter(|g| g.paths.len() >= 2)
        .collect();
    assert_eq!(multi.len(), 1);
    assert_eq!(multi[0].paths.len(), 2);
    let finals = run_pipeline(&files, false);
    assert!(duplicate_sets(&finals).is_empty());
    // The paranoid pass has nothing to compare.
    assert!(drupes::comparison_pairs(&finals).is_empty());
}

#[test]
fn zero_length_files_are_excluded_by_default() {
    let files: Vec<(&[u8], Vec<u8>)> = vec![(b"e1", Vec::new()), (b"e2", Vec::new())];
    let finals = run_pipeline(&files, false);
    assert!(duplicate_sets(&finals).is_empty());
}

#[test]
fn zero_length_files_group_when_enabled() {
    let files: Vec<(&[u8], Vec<u8>)> = vec![(b"e1", Vec::new()), (b"e2", Vec::new())];
    let finals = run_pipeline(&files, true);
    let sets = duplicate_sets(&finals);
    assert_eq!(sets.len(), 1);
    assert_eq!(sets[0], vec![b"e1".to_vec(), b"e2".to_vec()]);
}

#[test]
fn rerun_on_unchanged_input_gives_same_sets() {
    let files: Vec<(&[u8], Vec<u8>)> = vec![
        (b"x", b"hello".to_vec()),
        (b"y", b"hello".to_vec()),
        (b"z", b"world".to_vec()),
        (b"w", b"world".to_vec()),
    ];
    let reordered: Vec<(&[u8], Vec<u8>)> =
        files.iter().rev().map(|(p, c)| (*p, c.clone())).collect();
    let sets_a = duplicate_sets(&run_pipeline(&files, false));
    let sets_b = duplicate_sets(&run_pipeline(&reordered, false));
    let mut a: Vec<_> = sets_a;
    let mut b: Vec<_> = sets_b;
    a.sort();
    b.sort();
    assert_eq!(a, b);
}

#[test]
fn unreadable_file_is_dropped_and_run_continues() {
    // Three files with equal size; one prefix read fails. The other two
    // still group.
    let entries = vec![entry(b"x", 5), entry(b"y", 5), entry(b"z", 5)];
    let sized = drop_singletons(pass_one(&entries, false));
    let targets = prehash_targets(&sized);
    let reads: Vec<PrefixRead> = targets
        .iter()
        .map(|p| PrefixRead {
            path: p.clone(),
            bytes: if p == b"z" { None } else { Some(b"hello".to_vec()) },
        })
        .collect();
    let prehashed = pass_two(&reads);
    let tasks = full_hash_targets(&prehashed);
    assert_eq!(tasks.len(), 2);
    let tails: Vec<TailRead> = tasks
        .iter()
        .map(|t| TailRead {
            prehash: t.prehash.clone(),
            path: t.path.clone(),
            bytes: Some(Vec::new()),
        })
        .collect();
    let finals = pass_three(&tails);
    let sets = duplicate_sets(&finals);
    assert_eq!(sets.len(), 1);
    assert_eq!(sets[0], vec![b"x".to_vec(), b"y".to_vec()]);
}

#[test]
fn pass_two_hashes_with_plain_blake3() {
    // The fingerprint the library stores for a file is the BLAKE3 digest
    // of exactly the bytes read.
    let reads = vec![PrefixRead {
        path: b"x".to_vec(),
        bytes: Some(b"some leading bytes".to_vec()),
    }];
    let groups = pass_two(&reads);
    assert_eq!(groups.groups.len(), 1);
    let expected = blake3::hash(b"some leading bytes");
    assert_eq!(groups.groups[0].hash, expected.as_bytes().to_vec());
}

#[test]
fn pass_three_hashes_with_keyed_blake3() {
    // The full hash is the keyed BLAKE3 digest of the tail bytes under
    // the fingerprint as key.
    let key = blake3::hash(b"prefix");
    let tails = vec![TailRead {
        prehash: key.as_bytes().to_vec(),
        path: b"x".to_vec(),
        bytes: Some(b"tail bytes".to_vec()),
    }];
    let groups = pass_three(&tails);
    assert_eq!(groups.groups.len(), 1);
    let expected = blake3::keyed_hash(key.as_bytes(), b"tail bytes");
    assert_eq!(groups.groups[0].hash, expected.as_bytes().to_vec());
}

#[test]
fn short_file_full_hash_is_keyed_hash_of_empty_input() {
    // A file no longer than the prefix is finished without further
    // reading: its full hash is the keyed hash of empty input.
    let files: Vec<(&[u8], Vec<u8>)> = vec![
        (b"x", b"hello".to_vec()),
        (b"y", b"hello".to_vec()),
    ];
    let finals = run_pipeline(&files, false);
    let expected_key = blake3::hash(b"hello");
    let expected = blake3::keyed_hash(expected_key.as_bytes(), b"");
    assert_eq!(finals.groups.len(), 1);
    assert_eq!(finals.groups[0].hash, expected.as_bytes().to_vec());
}
