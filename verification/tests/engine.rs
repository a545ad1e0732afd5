use lsm_engine::lsm::LSM;
use rand::seq::SliceRandom;
use rand::thread_rng;
use std::ops::Range;

fn r(range: Range<u32>) -> Vec<u32> {
    let mut vec: Vec<u32> = range.collect();
    vec.shuffle(&mut thread_rng());
    vec
}

#[test]
fn test_map() {
    let mut lsm = LSM::new();
    lsm.set(2, "data 2").unwrap();
    lsm.set(5, "data 5").unwrap();
    lsm.set(0, "data 0").unwrap();
    lsm.set(2, "data 2").unwrap();

    assert_eq!(lsm.memtable().len(), 3);
    assert_eq!(lsm.memtable().keys(), vec![0, 2, 5]);
}

#[test]
fn log_structured_merged_tree_test_get_set() {
    let mut lsm = LSM::new();
    lsm.set(2, "data 2").unwrap();
    lsm.set(5, "data 5").unwrap();
    lsm.set(0, "data 0").unwrap();
    lsm.set(2, "data 2-2").unwrap();

    assert_eq!(lsm.get(0).unwrap(), "data 0");
    assert_eq!(lsm.get(2).unwrap(), "data 2-2");
    assert_eq!(lsm.get(5).unwrap(), "data 5");
    assert_eq!(lsm.get(14), None);
}

#[test]
fn test_compact() {
    let mut lsm = LSM::new();

    for n in r(1..20) {
        lsm.set(n, &format!("data record {}", n)).unwrap();
    }

    for n in r(5..10) {
        lsm.set(n, &format!("data record 2 {}", n)).unwrap();
    }

    for n in r(0..100) {
        lsm.set(n * 2, &format!("data record 3 {}", n * 2)).unwrap();
    }

    assert_eq!(lsm.get(5).unwrap(), "data record 2 5");
    assert_eq!(lsm.get(160).unwrap(), "data record 3 160");
    assert_eq!(lsm.get(198).unwrap(), "data record 3 198");
}

#[test]
fn new_engine_is_empty() {
    let lsm = LSM::new();
    assert_eq!(lsm.c0_threshold(), 10);
    assert_eq!(lsm.c1_threshold(), 256);
    assert_eq!(lsm.rev(), 0);
    assert!(lsm.memtable().is_empty());
    assert!(lsm.segment_index().is_empty());
    assert_eq!(lsm.get(0), None);
    assert_eq!(lsm.get(u32::MAX), None);
}

#[test]
fn overwrite_before_merge_returns_last_value() {
    let mut lsm = LSM::new();
    lsm.set(1, "data 1").unwrap();
    lsm.set(2, "data 2-1").unwrap();
    lsm.set(2, "data 2-2").unwrap();

    assert_eq!(lsm.get(1).unwrap(), "data 1");
    assert_eq!(lsm.get(2).unwrap(), "data 2-2");
    assert_eq!(lsm.get(3), None);
    assert_eq!(lsm.rev(), 0);
}

#[test]
fn repeated_reads_agree() {
    let mut lsm = LSM::with_thresholds(3, 16);
    for n in 0..7u32 {
        lsm.set(n, &format!("v{}", n)).unwrap();
    }
    for n in 0..9u32 {
        let first = lsm.get(n);
        let second = lsm.get(n);
        assert_eq!(first, second);
    }
    assert_eq!(lsm.get(6).unwrap(), "v6");
    assert_eq!(lsm.get(0).unwrap(), "v0");
    assert_eq!(lsm.get(7), None);
}

#[test]
fn tenth_write_triggers_merge() {
    let mut lsm = LSM::new();
    for n in 1..10u32 {
        lsm.set(n, &format!("data {}", n)).unwrap();
        assert_eq!(lsm.rev(), 0);
        assert_eq!(lsm.memtable().len(), n as usize);
    }
    lsm.set(10, "data 10").unwrap();

    assert!(lsm.memtable().is_empty());
    assert_eq!(lsm.memtable().len(), 0);
    assert_eq!(lsm.rev(), 1);
    assert_eq!(lsm.segment_index(), &vec![10]);
    assert_eq!(lsm.store().list_segments(1), vec![10]);
    assert_eq!(lsm.store().list_segments(0), Vec::<u32>::new());
    let text = lsm.store().open_for_read(1, 10).unwrap();
    assert_eq!(
        text,
        "1::data 1\n2::data 2\n3::data 3\n4::data 4\n5::data 5\n6::data 6\n7::data 7\n8::data 8\n9::data 9\n10::data 10\n"
    );
    for n in 1..=10u32 {
        assert_eq!(lsm.get(n).unwrap(), format!("data {}", n));
    }
    assert_eq!(lsm.get(0), None);
    assert_eq!(lsm.get(11), None);
}

#[test]
fn merge_keeps_every_key() {
    let mut lsm = LSM::with_thresholds(100, 32);
    for n in [7u32, 3, 90, 41, 12, 5] {
        lsm.set(n, &format!("value {}", n)).unwrap();
    }
    let before: Vec<Option<String>> = (0..100u32).map(|k| lsm.get(k)).collect();
    lsm.merge().unwrap();
    let after: Vec<Option<String>> = (0..100u32).map(|k| lsm.get(k)).collect();

    assert_eq!(before, after);
    assert!(lsm.memtable().is_empty());
    assert_eq!(lsm.rev(), 1);
    assert_eq!(after.iter().filter(|v| v.is_some()).count(), 6);
}

#[test]
fn newer_value_shadows_older_across_merges() {
    let mut lsm = LSM::with_thresholds(2, 256);
    lsm.set(5, "v1").unwrap();
    lsm.set(6, "x").unwrap();
    assert_eq!(lsm.rev(), 1);
    assert_eq!(lsm.store().open_for_read(1, 6).unwrap(), "5::v1\n6::x\n");
    assert_eq!(lsm.get(5).unwrap(), "v1");

    lsm.set(5, "v2").unwrap();
    assert_eq!(lsm.get(5).unwrap(), "v2");
    lsm.set(7, "y").unwrap();

    assert_eq!(lsm.rev(), 2);
    assert_eq!(lsm.segment_index(), &vec![7]);
    let text = lsm.store().open_for_read(2, 7).unwrap();
    assert_eq!(text, "5::v2\n6::x\n7::y\n");
    assert!(!text.contains("v1"));
    assert_eq!(lsm.get(5).unwrap(), "v2");
    assert_eq!(lsm.get(6).unwrap(), "x");
    assert_eq!(lsm.get(7).unwrap(), "y");
    // the earlier generation is left as it was written
    assert_eq!(lsm.store().open_for_read(1, 6).unwrap(), "5::v1\n6::x\n");
}

#[test]
fn small_threshold_splits_segments() {
    let mut lsm = LSM::with_thresholds(10, 20);
    for n in 0..10u32 {
        lsm.set(n, &format!("data {}", n)).unwrap();
    }

    assert_eq!(lsm.rev(), 1);
    assert_eq!(lsm.segment_index(), &vec![2, 5, 8, 9]);
    assert_eq!(lsm.store().list_segments(1), vec![2, 5, 8, 9]);
    assert_eq!(lsm.store().open_for_read(1, 2).unwrap(), "0::data 0\n1::data 1\n2::data 2\n");
    assert_eq!(lsm.store().open_for_read(1, 5).unwrap(), "3::data 3\n4::data 4\n5::data 5\n");
    assert_eq!(lsm.store().open_for_read(1, 8).unwrap(), "6::data 6\n7::data 7\n8::data 8\n");
    assert_eq!(lsm.store().open_for_read(1, 9).unwrap(), "9::data 9\n");
    for id in lsm.segment_index().clone() {
        let text = lsm.store().open_for_read(1, id).unwrap();
        assert!(text.len() <= 20 + 10);
    }
    for n in 0..10u32 {
        assert_eq!(lsm.get(n).unwrap(), format!("data {}", n));
    }
}

#[test]
fn oversized_value_gets_its_own_segment() {
    let mut lsm = LSM::with_thresholds(3, 8);
    let long = "x".repeat(40);
    lsm.set(1, "a").unwrap();
    lsm.set(2, &long).unwrap();
    lsm.set(3, "b").unwrap();

    assert_eq!(lsm.segment_index(), &vec![2, 3]);
    assert_eq!(lsm.store().open_for_read(1, 2).unwrap(), format!("1::a\n2::{}\n", long));
    assert_eq!(lsm.store().open_for_read(1, 3).unwrap(), "3::b\n");
    assert_eq!(lsm.get(2).unwrap(), long);
}

#[test]
fn merge_of_nothing_is_a_no_op() {
    let mut lsm = LSM::new();
    lsm.merge().unwrap();
    assert_eq!(lsm.rev(), 0);
    assert!(lsm.segment_index().is_empty());
    assert!(!lsm.store().has_generation(1));
    assert_eq!(lsm.get(1), None);
}

#[test]
fn merge_with_empty_memtable_rewrites_generation() {
    let mut lsm = LSM::with_thresholds(2, 256);
    lsm.set(1, "a").unwrap();
    lsm.set(2, "b").unwrap();
    assert_eq!(lsm.rev(), 1);
    lsm.merge().unwrap();
    assert_eq!(lsm.rev(), 2);
    assert_eq!(lsm.segment_index(), &vec![2]);
    assert_eq!(lsm.store().open_for_read(2, 2).unwrap(), "1::a\n2::b\n");
    assert_eq!(lsm.get(1).unwrap(), "a");
}

#[test]
fn zero_threshold_merges_on_every_write() {
    let mut lsm = LSM::with_thresholds(0, 256);
    lsm.set(9, "nine").unwrap();
    assert_eq!(lsm.rev(), 1);
    assert!(lsm.memtable().is_empty());
    lsm.set(4, "four").unwrap();
    assert_eq!(lsm.rev(), 2);
    assert_eq!(lsm.store().open_for_read(2, 9).unwrap(), "4::four\n9::nine\n");
    assert_eq!(lsm.get(4).unwrap(), "four");
    assert_eq!(lsm.get(9).unwrap(), "nine");
}

#[test]
fn lookup_routes_by_segment_boundary() {
    let mut lsm = LSM::with_thresholds(6, 12);
    for n in [10u32, 20, 30, 40, 50, 60] {
        lsm.set(n, "v").unwrap();
    }
    // every record takes 6 bytes; a segment closes above 12
    assert_eq!(lsm.segment_index(), &vec![30, 60]);
    assert_eq!(lsm.get(10).unwrap(), "v");
    assert_eq!(lsm.get(30).unwrap(), "v");
    assert_eq!(lsm.get(40).unwrap(), "v");
    assert_eq!(lsm.get(60).unwrap(), "v");
    assert_eq!(lsm.get(5), None);
    assert_eq!(lsm.get(25), None);
    assert_eq!(lsm.get(35), None);
    assert_eq!(lsm.get(61), None);
}

#[test]
fn values_with_delimiter_and_unicode_survive_merge() {
    let mut lsm = LSM::with_thresholds(3, 256);
    lsm.set(1, "a::b").unwrap();
    lsm.set(2, "").unwrap();
    lsm.set(3, "gr\u{fc}\u{df}e \u{1f600}").unwrap();
    assert_eq!(lsm.rev(), 1);
    assert_eq!(lsm.get(1).unwrap(), "a::b");
    assert_eq!(lsm.get(2).unwrap(), "");
    assert_eq!(lsm.get(3).unwrap(), "gr\u{fc}\u{df}e \u{1f600}");
}

#[test]
fn segment_size_counts_bytes() {
    // "1::\u{e9}\n" takes five characters and six bytes
    let mut lsm = LSM::with_thresholds(2, 5);
    lsm.set(1, "\u{e9}").unwrap();
    lsm.set(2, "e").unwrap();
    assert_eq!(lsm.segment_index(), &vec![1, 2]);

    let mut lsm = LSM::with_thresholds(2, 5);
    lsm.set(1, "e").unwrap();
    lsm.set(2, "\u{e9}").unwrap();
    assert_eq!(lsm.segment_index(), &vec![2]);
}

#[test]
fn paths_follow_root_revision_and_key() {
    let mut lsm = LSM::with_thresholds(2, 4);
    assert_eq!(lsm.dir(), "./tmp/lsm/0");
    assert_eq!(lsm.create_path(17), "./tmp/lsm/0/17");
    assert_eq!(lsm.sorted_segment_path(), Vec::<String>::new());
    lsm.set(3, "a").unwrap();
    lsm.set(12, "b").unwrap();
    assert_eq!(lsm.dir(), "./tmp/lsm/1");
    assert_eq!(lsm.create_path(4294967295), "./tmp/lsm/1/4294967295");
    assert_eq!(
        lsm.sorted_segment_path(),
        vec!["./tmp/lsm/1/3".to_string(), "./tmp/lsm/1/12".to_string()]
    );
}

#[test]
fn parse_and_add_k_v_are_inverse() {
    let mut s = String::from("0::zero\n");
    LSM::add_k_v(&mut s, (&42, &"answer".to_string()));
    assert_eq!(s, "0::zero\n42::answer\n");
    assert_eq!(LSM::parse("42::answer\n"), Ok((42, "answer".to_string())));
    assert_eq!(LSM::parse("42::answer"), Ok((42, "answer".to_string())));
}

#[test]
fn segments_and_index_are_ordered() {
    let mut lsm = LSM::with_thresholds(7, 40);
    for n in r(0..60) {
        lsm.set(n * 5, &format!("value of {}", n * 5)).unwrap();
    }
    lsm.merge().unwrap();

    let index = lsm.segment_index().clone();
    assert!(index.len() > 1);
    assert!(index.windows(2).all(|w| w[0] < w[1]));
    assert_eq!(lsm.store().list_segments(lsm.rev()), index);
    assert_eq!(*index.last().unwrap(), 59 * 5);

    let mut all: Vec<u32> = Vec::new();
    for id in &index {
        let text = lsm.store().open_for_read(lsm.rev(), *id).unwrap();
        let records = lsm_engine::segment::parse_segment(&text).unwrap();
        let keys: Vec<u32> = records.iter().map(|r| r.key).collect();
        assert!(!keys.is_empty());
        assert!(keys.windows(2).all(|w| w[0] < w[1]));
        assert_eq!(keys.last().unwrap(), id);
        all.extend(keys);
    }
    assert_eq!(all, (0..60u32).map(|n| n * 5).collect::<Vec<u32>>());
}

#[test]
fn earlier_generations_can_be_dropped() {
    let mut lsm = LSM::with_thresholds(1, 256);
    lsm.set(1, "a").unwrap();
    lsm.set(2, "b").unwrap();
    assert_eq!(lsm.rev(), 2);
    assert!(lsm.store().has_generation(1));

    assert!(!lsm.drop_generation(2));
    assert!(!lsm.drop_generation(3));
    assert!(lsm.store().has_generation(2));
    assert!(lsm.drop_generation(1));
    assert!(!lsm.store().has_generation(1));
    assert!(lsm.drop_generation(0));

    assert_eq!(lsm.get(1).unwrap(), "a");
    assert_eq!(lsm.get(2).unwrap(), "b");
    assert_eq!(lsm.segment_index(), &vec![2]);
}

#[test]
fn value_with_line_break_is_taken() {
    let mut lsm = LSM::with_thresholds(3, 256);
    lsm.set(1, "one").unwrap();
    assert_eq!(lsm.set(1, "o\nne"), Ok(()));
    assert_eq!(lsm.get(1).unwrap(), "o\nne");
    assert_eq!(lsm.memtable().len(), 1);
    assert_eq!(lsm.set(2, "\n"), Ok(()));
    assert_eq!(lsm.get(2).unwrap(), "\n");
    assert_eq!(lsm.get(1).unwrap(), "o\nne");
    assert_eq!(lsm.rev(), 0);
    assert_eq!(lsm.memtable().len(), 2);
    assert!(lsm.can_read());

    // the write that fills the memtable is followed by the merge
    assert_eq!(lsm.set(3, "three"), Ok(()));
    assert_eq!(lsm.rev(), 1);
    assert!(lsm.memtable().is_empty());
    assert_eq!(lsm.segment_index(), &vec![3]);
    assert_eq!(lsm.store().open_for_read(1, 3).unwrap(), "1::o\nne\n2::\n\n3::three\n");

    // the segment holds lines that are no records
    assert!(!lsm.can_read());
    assert!(!lsm.can_find(1));
    assert!(!lsm.can_find(3));
    assert!(lsm.can_find(4));

    // below the threshold the memtable still takes and answers
    assert_eq!(lsm.set(3, "again"), Ok(()));
    assert_eq!(lsm.get(3).unwrap(), "again");
    assert_eq!(lsm.rev(), 1);
}

#[test]
fn overwrite_with_line_break_wins() {
    let mut lsm = LSM::new();
    lsm.set(7, "a").unwrap();
    lsm.set(7, "b\nc").unwrap();
    assert_eq!(lsm.get(7).unwrap(), "b\nc");
    lsm.set(7, "d").unwrap();
    assert_eq!(lsm.get(7).unwrap(), "d");
    assert_eq!(lsm.memtable().len(), 1);
}

#[test]
fn would_fill_counts_the_new_key() {
    let mut lsm = LSM::with_thresholds(2, 256);
    assert!(!lsm.would_fill(1));
    lsm.set(1, "a").unwrap();
    assert!(!lsm.would_fill(1));
    assert!(lsm.would_fill(2));
    lsm.set(1, "b").unwrap();
    assert_eq!(lsm.rev(), 0);
    lsm.set(2, "c").unwrap();
    assert_eq!(lsm.rev(), 1);
    assert!(!lsm.would_fill(2));

    let lsm = LSM::with_thresholds(0, 256);
    assert!(lsm.would_fill(1));
    let lsm = LSM::with_thresholds(1, 256);
    assert!(lsm.would_fill(1));
}

#[test]
fn sound_generation_can_be_read_and_searched() {
    let mut lsm = LSM::with_thresholds(2, 7);
    assert!(lsm.can_read());
    assert!(lsm.can_find(0));
    lsm.set(10, "ten").unwrap();
    lsm.set(20, "twenty").unwrap();
    assert_eq!(lsm.segment_index(), &vec![10, 20]);
    assert!(lsm.can_read());
    for k in [0u32, 10, 15, 20, 21] {
        assert!(lsm.can_find(k));
    }
    assert_eq!(lsm.search(10).unwrap(), "ten");
    assert_eq!(lsm.search(20).unwrap(), "twenty");
    assert_eq!(lsm.search(15), None);
    assert_eq!(lsm.search(21), None);
    // the search does not look into the memtable
    lsm.set(15, "fifteen").unwrap();
    assert_eq!(lsm.search(15), None);
    assert_eq!(lsm.get(15).unwrap(), "fifteen");
}
