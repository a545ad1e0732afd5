use lsm_engine::codec::{DecodeError, Record};
use lsm_engine::generation::{locate, merge_generation, read_segments};
use lsm_engine::memtable::Memtable;
use lsm_engine::merge::{merge_records, split_segments};
use lsm_engine::segment::Segment;
use lsm_engine::store::{SegmentStore, StoreError};

fn record(key: u32, value: &str) -> Record {
    Record { key, value: value.to_string() }
}

fn segment(id: u32, content: &str) -> Segment {
    Segment { id, content: content.to_string() }
}

#[test]
fn merge_interleaves_by_key() {
    let newer = vec![record(1, "n1"), record(4, "n4"), record(9, "n9")];
    let older = vec![record(2, "o2"), record(3, "o3"), record(10, "o10")];
    assert_eq!(
        merge_records(&newer, &older),
        vec![
            record(1, "n1"),
            record(2, "o2"),
            record(3, "o3"),
            record(4, "n4"),
            record(9, "n9"),
            record(10, "o10")
        ]
    );
}

#[test]
fn merge_prefers_the_newer_record() {
    let newer = vec![record(2, "new 2"), record(5, "new 5")];
    let older = vec![record(1, "old 1"), record(2, "old 2"), record(5, "old 5"), record(7, "old 7")];
    assert_eq!(
        merge_records(&newer, &older),
        vec![record(1, "old 1"), record(2, "new 2"), record(5, "new 5"), record(7, "old 7")]
    );
}

#[test]
fn merge_with_an_empty_side_copies_the_other() {
    let some = vec![record(1, "a"), record(2, "b")];
    assert_eq!(merge_records(&some, &Vec::new()), some);
    assert_eq!(merge_records(&Vec::new(), &some), some);
    assert_eq!(merge_records(&Vec::new(), &Vec::new()), Vec::<Record>::new());
}

#[test]
fn split_closes_a_segment_above_the_threshold() {
    let records = vec![record(1, "aa"), record(2, "bb"), record(3, "cc"), record(4, "dd")];
    // every record takes 6 bytes
    assert_eq!(
        split_segments(&records, 6),
        vec![segment(2, "1::aa\n2::bb\n"), segment(4, "3::cc\n4::dd\n")]
    );
    assert_eq!(
        split_segments(&records, 5),
        vec![segment(1, "1::aa\n"), segment(2, "2::bb\n"), segment(3, "3::cc\n"), segment(4, "4::dd\n")]
    );
    assert_eq!(
        split_segments(&records, 12),
        vec![segment(3, "1::aa\n2::bb\n3::cc\n"), segment(4, "4::dd\n")]
    );
    assert_eq!(split_segments(&records, 24), vec![segment(4, "1::aa\n2::bb\n3::cc\n4::dd\n")]);
    assert_eq!(split_segments(&records, 23), vec![segment(4, "1::aa\n2::bb\n3::cc\n4::dd\n")]);
    assert_eq!(split_segments(&records, 0).len(), 4);
}

#[test]
fn split_of_nothing_is_nothing() {
    assert_eq!(split_segments(&Vec::new(), 0), Vec::<Segment>::new());
    assert_eq!(split_segments(&Vec::new(), 256), Vec::<Segment>::new());
}

#[test]
fn split_segments_stay_within_threshold_and_one_record() {
    let records: Vec<Record> =
        (0..200u32).map(|k| record(k * 3, &"v".repeat((k % 17) as usize))).collect();
    for threshold in [0usize, 1, 10, 50, 64, 256] {
        let segments = split_segments(&records, threshold);
        assert!(segments.len() > 1);
        let mut joined = String::new();
        for (i, s) in segments.iter().enumerate() {
            let lines: Vec<&str> = s.content.lines().collect();
            let last = lines[lines.len() - 1];
            assert!(s.content.len() <= threshold + last.len() + 1);
            assert!(s.content.len() - (last.len() + 1) <= threshold);
            if i + 1 < segments.len() {
                assert!(s.content.len() > threshold);
            }
            assert!(last.starts_with(&format!("{}::", s.id)));
            joined.push_str(&s.content);
        }
        let all: String = records.iter().map(|r| format!("{}::{}\n", r.key, r.value)).collect();
        assert_eq!(joined, all);
    }
}

#[test]
fn read_segments_joins_the_texts() {
    let texts = vec!["1::a\n2::b\n".to_string(), String::new(), "5::c\n".to_string()];
    assert_eq!(read_segments(&texts).unwrap(), vec![record(1, "a"), record(2, "b"), record(5, "c")]);
    assert_eq!(read_segments(&Vec::new()).unwrap(), Vec::<Record>::new());
    let bad = vec!["1::a\n".to_string(), "oops\n".to_string(), "x::1\n".to_string()];
    assert_eq!(read_segments(&bad), Err(DecodeError::MissingDelimiter));
}

#[test]
fn merge_generation_merges_and_splits() {
    let newer = vec![record(2, "B"), record(4, "D")];
    let texts = vec!["1::a\n2::b\n".to_string(), "3::c\n".to_string()];
    assert_eq!(
        merge_generation(&newer, &texts, 10).unwrap(),
        vec![segment(3, "1::a\n2::B\n3::c\n"), segment(4, "4::D\n")]
    );
    assert_eq!(
        merge_generation(&newer, &texts, 1000).unwrap(),
        vec![segment(4, "1::a\n2::B\n3::c\n4::D\n")]
    );
    let bad = vec!["1::a\n2::b\n".to_string(), "k::c\n".to_string()];
    assert_eq!(merge_generation(&newer, &bad, 10), Err(DecodeError::InvalidKey));
}

#[test]
fn locate_finds_the_first_boundary_not_below_the_key() {
    let index = vec![10u32, 20, 30];
    assert_eq!(locate(&index, 0), Some(0));
    assert_eq!(locate(&index, 10), Some(0));
    assert_eq!(locate(&index, 11), Some(1));
    assert_eq!(locate(&index, 20), Some(1));
    assert_eq!(locate(&index, 30), Some(2));
    assert_eq!(locate(&index, 31), None);
    assert_eq!(locate(&Vec::new(), 0), None);
}

#[test]
fn memtable_orders_and_overwrites() {
    let mut table = Memtable::new();
    assert!(table.is_empty());
    table.put(5, "five".to_string());
    table.put(1, "one".to_string());
    table.put(3, "three".to_string());
    table.put(5, "FIVE".to_string());

    assert_eq!(table.len(), 3);
    assert!(!table.is_empty());
    assert!(table.contains(3));
    assert!(!table.contains(4));
    assert_eq!(table.get(5), Some("FIVE".to_string()));
    assert_eq!(table.get(2), None);
    assert_eq!(table.keys(), vec![1, 3, 5]);
    assert_eq!(table.iterate(), vec![record(1, "one"), record(3, "three"), record(5, "FIVE")]);
    // the traversal can be taken again
    assert_eq!(table.iterate(), vec![record(1, "one"), record(3, "three"), record(5, "FIVE")]);

    table.clear();
    assert_eq!(table.len(), 0);
    assert_eq!(table.get(5), None);
    assert_eq!(table.iterate(), Vec::<Record>::new());
}

#[test]
fn store_keeps_generations_apart() {
    let mut store = SegmentStore::new("base");
    assert!(!store.has_generation(1));
    assert_eq!(store.list_segments(1), Vec::<u32>::new());
    assert_eq!(store.open_for_read(1, 5), None);
    assert_eq!(store.write_segment(1, 5, "5::x\n".to_string()), Err(StoreError::NoSuchGeneration));
    assert!(!store.has_generation(1));

    assert_eq!(store.ensure_generation_dir(1), "base/1");
    assert!(store.has_generation(1));
    assert_eq!(store.list_segments(1), Vec::<u32>::new());
    assert_eq!(store.write_segment(1, 5, "5::x\n".to_string()), Ok(()));
    assert_eq!(store.write_segment(1, 100, "100::y\n".to_string()), Ok(()));
    assert_eq!(store.write_segment(1, 20, "20::z\n".to_string()), Ok(()));
    // making the directory again keeps what it holds
    assert_eq!(store.ensure_generation_dir(1), "base/1");
    assert_eq!(store.ensure_generation_dir(2), "base/2");
    assert_eq!(store.write_segment(2, 5, "5::other\n".to_string()), Ok(()));

    // numbers order the listing, not their text
    assert_eq!(store.list_segments(1), vec![5, 20, 100]);
    assert_eq!(store.list_segments(2), vec![5]);
    assert_eq!(store.open_for_read(1, 5), Some("5::x\n".to_string()));
    assert_eq!(store.open_for_read(2, 5), Some("5::other\n".to_string()));
    assert_eq!(store.open_for_read(2, 20), None);

    assert_eq!(store.write_segment(1, 5, "5::again\n".to_string()), Ok(()));
    assert_eq!(store.open_for_read(1, 5), Some("5::again\n".to_string()));
    assert_eq!(store.list_segments(1), vec![5, 20, 100]);

    store.drop_generation(1);
    assert!(!store.has_generation(1));
    assert_eq!(store.list_segments(1), Vec::<u32>::new());
    assert_eq!(store.open_for_read(1, 5), None);
    assert_eq!(store.list_segments(2), vec![5]);
    store.drop_generation(7);
    assert_eq!(store.list_segments(2), vec![5]);
}

#[test]
fn store_writes_a_generation_in_one_go() {
    let mut store = SegmentStore::new("./tmp/lsm");
    let segments = vec![segment(3, "1::a\n3::c\n"), segment(9, "9::i\n")];
    assert_eq!(store.write_generation(4, &segments), vec![3, 9]);
    assert_eq!(store.list_segments(4), vec![3, 9]);
    assert_eq!(store.open_for_read(4, 3), Some("1::a\n3::c\n".to_string()));
    assert_eq!(store.open_for_read(4, 9), Some("9::i\n".to_string()));
    assert_eq!(store.generation_dir(4), "./tmp/lsm/4");
    assert_eq!(store.segment_file(4, 9), "./tmp/lsm/4/9");
    assert_eq!(store.write_generation(5, &Vec::new()), Vec::<u32>::new());
    assert!(store.has_generation(5));
}
