use mapreduce::apps::crash::{crash_decision, draw_crash_choice, CrashChoice};
use mapreduce::apps::{crash, indexer, nocrash, rtiming, wc};
use mapreduce::apps::{get_app, AppKind};
use mapreduce::util::KeyValue;
use std::collections::BTreeMap;

#[test]
fn indexer_basic_map_reduce() {
    let mut res_map_1 = indexer::map(
        "file1",
        "abc def8ghi  jkl!!mn0-op \nqrstuv=\r\twxyz abc abc def",
    );
    res_map_1.sort();
    let mut expected_1 = vec![
        KeyValue::new("abc".to_string(), "file1".to_string()),
        KeyValue::new("def".to_string(), "file1".to_string()),
        KeyValue::new("ghi".to_string(), "file1".to_string()),
        KeyValue::new("jkl".to_string(), "file1".to_string()),
        KeyValue::new("mn".to_string(), "file1".to_string()),
        KeyValue::new("op".to_string(), "file1".to_string()),
        KeyValue::new("qrstuv".to_string(), "file1".to_string()),
        KeyValue::new("wxyz".to_string(), "file1".to_string()),
    ];
    expected_1.sort();

    assert_eq!(res_map_1, expected_1);

    let mut res_map_2 = indexer::map("file2", "abc def8!!mn0-op wxyz");
    res_map_2.sort();
    let mut expected_2 = vec![
        KeyValue::new("abc".to_string(), "file2".to_string()),
        KeyValue::new("def".to_string(), "file2".to_string()),
        KeyValue::new("mn".to_string(), "file2".to_string()),
        KeyValue::new("op".to_string(), "file2".to_string()),
        KeyValue::new("wxyz".to_string(), "file2".to_string()),
    ];
    expected_2.sort();

    assert_eq!(res_map_2, expected_2);

    let binding = vec![res_map_1, res_map_2];
    let res_map: Vec<_> = binding.iter().flatten().collect();

    let grouped = res_map.iter().fold(BTreeMap::new(), |mut map, kv| {
        map.entry(kv.key.as_str())
            .or_insert(Vec::new())
            .push(kv.value.as_str());
        map
    });
    let res_red: Vec<_> = grouped
        .into_iter()
        .map(|(k, vs)| (k, indexer::reduce(k, vs)))
        .collect();
    assert_eq!(
        res_red,
        vec![
            ("abc", "2 file1,file2".to_string()),
            ("def", "2 file1,file2".to_string()),
            ("ghi", "1 file1".to_string()),
            ("jkl", "1 file1".to_string()),
            ("mn", "2 file1,file2".to_string()),
            ("op", "2 file1,file2".to_string()),
            ("qrstuv", "1 file1".to_string()),
            ("wxyz", "2 file1,file2".to_string()),
        ]
    );
}

#[test]
fn wc_basic_map_reduce() {
    let res_map = wc::map(
        "_",
        "abc def8ghi  jkl!!mn0-op \nqrstuv=\r\twxyz abc abc def",
    );
    assert_eq!(
        res_map,
        vec![
            KeyValue::new("abc".to_string(), "1".to_string()),
            KeyValue::new("def".to_string(), "1".to_string()),
            KeyValue::new("ghi".to_string(), "1".to_string()),
            KeyValue::new("jkl".to_string(), "1".to_string()),
            KeyValue::new("mn".to_string(), "1".to_string()),
            KeyValue::new("op".to_string(), "1".to_string()),
            KeyValue::new("qrstuv".to_string(), "1".to_string()),
            KeyValue::new("wxyz".to_string(), "1".to_string()),
            KeyValue::new("abc".to_string(), "1".to_string()),
            KeyValue::new("abc".to_string(), "1".to_string()),
            KeyValue::new("def".to_string(), "1".to_string()),
        ]
    );

    let grouped = res_map.iter().fold(BTreeMap::new(), |mut map, kv| {
        map.entry(kv.key.as_str())
            .or_insert(Vec::new())
            .push(kv.value.as_str());
        map
    });
    let res_red: Vec<_> = grouped
        .into_iter()
        .map(|(k, vs)| (k, wc::reduce(k, vs)))
        .collect();
    assert_eq!(
        res_red,
        vec![
            ("abc", "3".to_string()),
            ("def", "2".to_string()),
            ("ghi", "1".to_string()),
            ("jkl", "1".to_string()),
            ("mn", "1".to_string()),
            ("op", "1".to_string()),
            ("qrstuv", "1".to_string()),
            ("wxyz", "1".to_string()),
        ]
    );
}

#[test]
fn get_app_resolves_every_name() {
    assert_eq!(get_app("wc"), Some(AppKind::Wc));
    assert_eq!(get_app("indexer"), Some(AppKind::Indexer));
    assert_eq!(get_app("mtiming"), Some(AppKind::Mtiming));
    assert_eq!(get_app("rtiming"), Some(AppKind::Rtiming));
    assert_eq!(get_app("jobcount"), Some(AppKind::Jobcount));
    assert_eq!(get_app("nocrash"), Some(AppKind::Nocrash));
    assert_eq!(get_app("crash"), Some(AppKind::Crash));
    assert_eq!(get_app("unknown"), None);
    assert_eq!(get_app(""), None);
}

#[test]
fn nocrash_map_emits_probe_records() {
    let pairs = nocrash::map("in.txt", "hello");
    assert_eq!(
        pairs,
        vec![
            KeyValue::new("a".to_string(), "in.txt".to_string()),
            KeyValue::new("b".to_string(), "6".to_string()),
            KeyValue::new("c".to_string(), "5".to_string()),
            KeyValue::new("d".to_string(), "xyzzy".to_string()),
        ]
    );
}

#[test]
fn probe_reduce_sorts_and_joins() {
    let out = nocrash::reduce("a", vec!["pear", "apple", "quince", "apple"]);
    assert_eq!(out, "apple apple pear quince");
    let out = crash::reduce("a", vec![]);
    assert_eq!(out, "");
    let out = mapreduce::apps::mtiming::reduce("a", vec!["only"]);
    assert_eq!(out, "only");
}

#[test]
fn crash_decision_thresholds() {
    assert_eq!(crash_decision(0, 0, 0), CrashChoice::Crash);
    assert_eq!(crash_decision(329, 999, 5), CrashChoice::Crash);
    assert_eq!(crash_decision(330, 659, 1234), CrashChoice::Delay(1234));
    assert_eq!(crash_decision(999, 0, 9999), CrashChoice::Delay(9999));
    assert_eq!(crash_decision(330, 660, 0), CrashChoice::Proceed);
    assert_eq!(crash_decision(999, 999, 0), CrashChoice::Proceed);
}

#[test]
fn crash_draw_stays_in_bounds() {
    for _ in 0..200 {
        match draw_crash_choice() {
            CrashChoice::Proceed => {}
            CrashChoice::Crash => {}
            CrashChoice::Delay(ms) => assert!(ms < 10000),
        }
    }
}

#[test]
fn rtiming_map_fans_out_ten_keys() {
    let pairs = rtiming::map("x", "y");
    assert_eq!(pairs.len(), 10);
    let keys: Vec<&str> = pairs.iter().map(|kv| kv.key.as_str()).collect();
    assert_eq!(
        keys,
        vec!["a", "b", "c", "d", "e", "f", "g", "h", "i", "j"]
    );
    assert!(pairs.iter().all(|kv| kv.value == "1"));
}
