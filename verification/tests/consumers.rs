use drupes::bytes_equal;
use drupes::comparison_pairs;
use drupes::deletion_targets;
use drupes::duplicate_sets;
use drupes::listing_lines;
use drupes::path_le;
use drupes::sort_paths;
use drupes::summarize;
use drupes::HashGroup;
use drupes::HashGroups;
use drupes::SizeGroup;
use drupes::SizeGroups;

fn group(hash: u8, paths: &[&[u8]]) -> HashGroup {
    HashGroup {
        hash: vec![hash; 32],
        paths: paths.iter().map(|p| p.to_vec()).collect(),
    }
}

#[test]
fn listing_prints_sorted_set_then_blank_line() {
    let finals = HashGroups {
        groups: vec![group(1, &[b"y", b"x"]), group(2, &[b"z"])],
    };
    let sets = duplicate_sets(&finals);
    assert_eq!(sets.len(), 1);
    let lines = listing_lines(&sets, false);
    assert_eq!(
        lines,
        vec![b"x".to_vec(), b"y".to_vec(), Vec::<u8>::new()]
    );
}

#[test]
fn omit_first_drops_representative_and_separator() {
    let finals = HashGroups {
        groups: vec![group(1, &[b"c", b"a", b"b"])],
    };
    let sets = duplicate_sets(&finals);
    let with_first = listing_lines(&sets, false);
    assert_eq!(
        with_first,
        vec![b"a".to_vec(), b"b".to_vec(), b"c".to_vec(), Vec::<u8>::new()]
    );
    let omitted = listing_lines(&sets, true);
    assert_eq!(omitted, vec![b"b".to_vec(), b"c".to_vec()]);
}

#[test]
fn deletion_keeps_lexicographically_smallest_path() {
    let finals = HashGroups {
        groups: vec![group(1, &[b"dir/b", b"dir/a"])],
    };
    let sets = duplicate_sets(&finals);
    let targets = deletion_targets(&sets);
    assert_eq!(targets, vec![b"dir/b".to_vec()]);
    assert_eq!(sets[0][0], b"dir/a".to_vec());
}

#[test]
fn summary_counts_sets_files_and_bytes() {
    let sized = SizeGroups {
        groups: vec![SizeGroup {
            size: 100,
            paths: vec![b"x".to_vec(), b"y".to_vec()],
        }],
    };
    let finals = HashGroups {
        groups: vec![group(1, &[b"x", b"y"])],
    };
    let stats = summarize(1, &sized, &finals, &vec![100]).unwrap();
    assert_eq!(stats.dupe_count, 1);
    assert_eq!(stats.set_count, 1);
    assert_eq!(stats.dupe_size, 100);
    assert_eq!(stats.total_files, 2);
    assert_eq!(stats.size_classes, 1);
    assert_eq!(stats.prehash_groups, 1);
}

#[test]
fn summary_reports_overflow_as_none() {
    let sized = SizeGroups {
        groups: vec![SizeGroup {
            size: u64::MAX,
            paths: vec![b"x".to_vec(), b"y".to_vec(), b"z".to_vec()],
        }],
    };
    let finals = HashGroups {
        groups: vec![group(1, &[b"x", b"y", b"z"])],
    };
    // Three identical files of the largest possible size: the reclaimable
    // sum is twice u64::MAX and cannot be reported.
    assert!(summarize(1, &sized, &finals, &vec![u64::MAX]).is_none());
    // With two members it is exactly u64::MAX and fits.
    let finals2 = HashGroups {
        groups: vec![group(1, &[b"x", b"y"])],
    };
    let sized2 = SizeGroups {
        groups: vec![SizeGroup {
            size: u64::MAX,
            paths: vec![b"x".to_vec(), b"y".to_vec()],
        }],
    };
    let stats = summarize(1, &sized2, &finals2, &vec![u64::MAX]).unwrap();
    assert_eq!(stats.dupe_size, u64::MAX);
}

#[test]
fn paranoid_pairs_compare_first_against_rest() {
    let finals = HashGroups {
        groups: vec![group(1, &[b"a", b"b", b"c"]), group(2, &[b"solo"])],
    };
    let pairs = comparison_pairs(&finals);
    assert_eq!(
        pairs,
        vec![
            (b"a".to_vec(), b"b".to_vec()),
            (b"a".to_vec(), b"c".to_vec()),
        ]
    );
}

#[test]
fn byte_equality_detects_any_difference() {
    assert!(bytes_equal(&b"same bytes".to_vec(), &b"same bytes".to_vec()));
    assert!(!bytes_equal(&b"same bytes".to_vec(), &b"same byteX".to_vec()));
    assert!(!bytes_equal(&b"short".to_vec(), &b"shorter".to_vec()));
    assert!(bytes_equal(&Vec::new(), &Vec::new()));
}

#[test]
fn path_order_is_lexicographic_bytewise() {
    assert!(path_le(&b"a".to_vec(), &b"b".to_vec()));
    assert!(path_le(&b"a".to_vec(), &b"a".to_vec()));
    assert!(path_le(&b"a".to_vec(), &b"ab".to_vec()));
    assert!(!path_le(&b"ab".to_vec(), &b"a".to_vec()));
    assert!(!path_le(&b"b".to_vec(), &b"ab".to_vec()));
}

#[test]
fn sorting_orders_paths_and_keeps_them_all() {
    let mut v = vec![
        b"c".to_vec(),
        b"a".to_vec(),
        b"bb".to_vec(),
        b"b".to_vec(),
        b"a".to_vec(),
    ];
    sort_paths(&mut v);
    assert_eq!(
        v,
        vec![
            b"a".to_vec(),
            b"a".to_vec(),
            b"b".to_vec(),
            b"bb".to_vec(),
            b"c".to_vec(),
        ]
    );
}
