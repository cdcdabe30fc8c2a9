//! The whole pure pipeline of a word-count job run in one process:
//! map, partition into two buckets, group each bucket, reduce each key.

use mapreduce::apps::wc;
use mapreduce::worker::{format_line, group_by_key, partition};

#[test]
fn word_count_two_buckets_complete_and_unduplicated() {
    let contents = "the quick the lazy";
    let n_reduce = 2usize;

    let intermediate = wc::map("input.txt", contents);
    let buckets = partition(intermediate, n_reduce);
    assert_eq!(buckets.len(), n_reduce);

    let mut lines: Vec<String> = Vec::new();
    for bucket in buckets {
        for group in group_by_key(bucket) {
            let values: Vec<&str> = group.values.iter().map(|v| v.as_str()).collect();
            let out = wc::reduce(&group.key, values);
            lines.push(format_line(&group.key, &out));
        }
    }
    lines.sort();

    // however the hash split the keys over the two files, together they
    // hold exactly these counts, each once
    assert_eq!(lines, vec!["lazy 1", "quick 1", "the 2"]);
}

#[test]
fn word_count_single_bucket() {
    let intermediate = wc::map("input.txt", "a b a");
    let buckets = partition(intermediate, 1);
    let mut lines: Vec<String> = Vec::new();
    for group in group_by_key(buckets.into_iter().next().unwrap()) {
        let values: Vec<&str> = group.values.iter().map(|v| v.as_str()).collect();
        let out = wc::reduce(&group.key, values);
        lines.push(format_line(&group.key, &out));
    }
    lines.sort();
    assert_eq!(lines, vec!["a 2", "b 1"]);
}
