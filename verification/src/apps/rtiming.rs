//! The reduce-timing application tests that reduce tasks run in
//! parallel. Its map step is the pure fan-out below; its reduce step
//! probes the machine for concurrently running workers, so it lives
//! with the driver outside the crate.

use crate::util::{KeyValue, KvView};
use vstd::prelude::*;

verus! {

/// The records of the fan-out: the keys "a" through "j", each with the
/// value "1", so that ten reduce keys exist.
pub open spec fn rtiming_pairs() -> Seq<KvView> {
    seq![
        KvView { key: seq!['a'], value: seq!['1'] },
        KvView { key: seq!['b'], value: seq!['1'] },
        KvView { key: seq!['c'], value: seq!['1'] },
        KvView { key: seq!['d'], value: seq!['1'] },
        KvView { key: seq!['e'], value: seq!['1'] },
        KvView { key: seq!['f'], value: seq!['1'] },
        KvView { key: seq!['g'], value: seq!['1'] },
        KvView { key: seq!['h'], value: seq!['1'] },
        KvView { key: seq!['i'], value: seq!['1'] },
        KvView { key: seq!['j'], value: seq!['1'] },
    ]
}

/// Emits ten fixed records, one per key "a" through "j".
pub fn map(_filename: &str, _contents: &str) -> (r: Vec<KeyValue>)
    ensures
        r.deep_view() == rtiming_pairs(),
{
    let mut r: Vec<KeyValue> = Vec::new();
    r.push(KeyValue::new("a".to_owned(), "1".to_owned()));
    r.push(KeyValue::new("b".to_owned(), "1".to_owned()));
    r.push(KeyValue::new("c".to_owned(), "1".to_owned()));
    r.push(KeyValue::new("d".to_owned(), "1".to_owned()));
    r.push(KeyValue::new("e".to_owned(), "1".to_owned()));
    r.push(KeyValue::new("f".to_owned(), "1".to_owned()));
    r.push(KeyValue::new("g".to_owned(), "1".to_owned()));
    r.push(KeyValue::new("h".to_owned(), "1".to_owned()));
    r.push(KeyValue::new("i".to_owned(), "1".to_owned()));
    r.push(KeyValue::new("j".to_owned(), "1".to_owned()));
    proof {
        reveal_strlit("a");
        reveal_strlit("b");
        reveal_strlit("c");
        reveal_strlit("d");
        reveal_strlit("e");
        reveal_strlit("f");
        reveal_strlit("g");
        reveal_strlit("h");
        reveal_strlit("i");
        reveal_strlit("j");
        reveal_strlit("1");
        assert("a"@ =~= seq!['a']);
        assert("b"@ =~= seq!['b']);
        assert("c"@ =~= seq!['c']);
        assert("d"@ =~= seq!['d']);
        assert("e"@ =~= seq!['e']);
        assert("f"@ =~= seq!['f']);
        assert("g"@ =~= seq!['g']);
        assert("h"@ =~= seq!['h']);
        assert("i"@ =~= seq!['i']);
        assert("j"@ =~= seq!['j']);
        assert("1"@ =~= seq!['1']);
        assert(r.deep_view() =~~= rtiming_pairs());
    }
    r
}

} // verus!
