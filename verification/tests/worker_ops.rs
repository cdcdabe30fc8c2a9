use mapreduce::text::{dedup_strings, join_strs, sort_strs, split_words, str_eq, str_le, u64_to_dec};
use mapreduce::util::KeyValue;
use mapreduce::worker::{
    format_line, group_by_key, ihash, intermediate_file_name, output_file_name, partition,
};

fn kv(k: &str, v: &str) -> KeyValue {
    KeyValue::new(k.to_string(), v.to_string())
}

#[test]
fn ihash_is_deterministic() {
    assert_eq!(ihash("abc"), ihash("abc"));
    assert_eq!(ihash(""), ihash(""));
    let again = ihash("the quick brown fox");
    assert_eq!(ihash("the quick brown fox"), again);
}

#[test]
fn partition_applied_twice_gives_identical_buckets() {
    let records = || {
        vec![
            kv("the", "1"),
            kv("quick", "1"),
            kv("the", "1"),
            kv("lazy", "1"),
            kv("dog", "1"),
        ]
    };
    for n in 1..6usize {
        let first = partition(records(), n);
        let second = partition(records(), n);
        assert_eq!(first, second);
    }
}

#[test]
fn partition_routes_by_hash_and_keeps_order() {
    let records = vec![kv("a", "1"), kv("b", "2"), kv("a", "3"), kv("c", "4")];
    let n = 3usize;
    let buckets = partition(records.clone(), n);
    assert_eq!(buckets.len(), n);
    // every record lands in the bucket its key hashes to
    for (b, bucket) in buckets.iter().enumerate() {
        for entry in bucket {
            assert_eq!((ihash(&entry.key) % n as u64) as usize, b);
        }
    }
    // nothing is lost or duplicated, and order within a bucket is input order
    let total: usize = buckets.iter().map(|b| b.len()).sum();
    assert_eq!(total, records.len());
    let a_bucket = (ihash("a") % n as u64) as usize;
    let values: Vec<&str> = buckets[a_bucket]
        .iter()
        .filter(|e| e.key == "a")
        .map(|e| e.value.as_str())
        .collect();
    assert_eq!(values, vec!["1", "3"]);
}

#[test]
fn partition_single_bucket_keeps_everything_in_order() {
    let records = vec![kv("x", "1"), kv("y", "2"), kv("x", "3")];
    let buckets = partition(records.clone(), 1);
    assert_eq!(buckets.len(), 1);
    assert_eq!(buckets[0], records);
}

#[test]
fn group_by_key_groups_in_first_occurrence_order() {
    let records = vec![
        kv("b", "1"),
        kv("a", "2"),
        kv("b", "3"),
        kv("c", "4"),
        kv("a", "5"),
    ];
    let groups = group_by_key(records);
    let keys: Vec<&str> = groups.iter().map(|g| g.key.as_str()).collect();
    assert_eq!(keys, vec!["b", "a", "c"]);
    assert_eq!(groups[0].values, vec!["1".to_string(), "3".to_string()]);
    assert_eq!(groups[1].values, vec!["2".to_string(), "5".to_string()]);
    assert_eq!(groups[2].values, vec!["4".to_string()]);
}

#[test]
fn group_by_key_of_nothing_is_empty() {
    let groups = group_by_key(Vec::new());
    assert_eq!(groups.len(), 0);
}

#[test]
fn file_names_and_lines() {
    assert_eq!(intermediate_file_name(0, 0), "mr-out-0-0");
    assert_eq!(intermediate_file_name(12, 3), "mr-out-12-3");
    assert_eq!(output_file_name(7), "mr-out-7");
    assert_eq!(output_file_name(10), "mr-out-10");
    assert_eq!(format_line("the", "2"), "the 2");
}

#[test]
fn decimal_formatting() {
    assert_eq!(u64_to_dec(0), "0");
    assert_eq!(u64_to_dec(9), "9");
    assert_eq!(u64_to_dec(10), "10");
    assert_eq!(u64_to_dec(305), "305");
    assert_eq!(u64_to_dec(u64::MAX), "18446744073709551615");
}

#[test]
fn text_helpers() {
    assert!(str_eq("abc", "abc"));
    assert!(!str_eq("abc", "abd"));
    assert!(!str_eq("abc", "ab"));
    assert!(str_le("abc", "abd"));
    assert!(str_le("ab", "abc"));
    assert!(str_le("abc", "abc"));
    assert!(!str_le("b", "ab"));
    assert_eq!(
        split_words("one two-three!four "),
        vec!["one", "two", "three", "four"]
    );
    assert_eq!(split_words(""), Vec::<String>::new());
    assert_eq!(split_words("123 456"), Vec::<String>::new());
    assert_eq!(
        dedup_strings(vec!["a".into(), "b".into(), "a".into(), "c".into(), "b".into()]),
        vec!["a".to_string(), "b".to_string(), "c".to_string()]
    );
    assert_eq!(sort_strs(vec!["pear", "apple", "fig"]), vec!["apple", "fig", "pear"]);
    assert_eq!(join_strs(&vec!["a", "b", "c"], ","), "a,b,c");
    assert_eq!(join_strs(&vec![], ","), "");
    assert_eq!(join_strs(&vec!["solo"], ","), "solo");
}
