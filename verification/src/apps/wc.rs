//! The word-count application.

use crate::text::{dec_of, split_words, u64_to_dec, words_of};
use crate::util::{KeyValue, KvView};
use vstd::prelude::*;

verus! {

/// The intermediate records of word counting for one input: every word
/// occurrence with the count "1", in text order.
pub open spec fn wc_pairs(contents: Seq<char>) -> Seq<KvView> {
    words_of(contents).map_values(|w: Seq<char>| KvView { key: w, value: seq!['1'] })
}

/// Emits one ("word", "1") record per word occurrence in the contents;
/// the filename plays no part.
pub fn map(_filename: &str, contents: &str) -> (r: Vec<KeyValue>)
    ensures
        r.deep_view() == wc_pairs(contents@),
{
    let words = split_words(contents);
    let ghost ws = words.deep_view();
    let mut rest = words;
    let mut r: Vec<KeyValue> = Vec::new();
    proof {
        assert(rest.deep_view() =~= ws.skip(0));
    }
    while rest.len() > 0
        invariant
            r@.len() + rest@.len() == ws.len(),
            forall|j: int|
                0 <= j < r@.len() ==> #[trigger] r.deep_view()[j] == (KvView {
                    key: ws[j],
                    value: seq!['1'],
                }),
            rest.deep_view() == ws.skip(r@.len() as int),
        decreases rest.len(),
    {
        let ghost old_rest = rest.deep_view();
        let ghost n = r@.len() as int;
        let w = rest.remove(0);
        proof {
            assert(rest.deep_view() =~= old_rest.remove(0));
            assert(w@ == old_rest[0]);
            assert(old_rest[0] == ws[n]);
            assert(rest.deep_view() =~= ws.skip(n + 1));
        }
        let kv = KeyValue::new(w, "1".to_owned());
        let ghost pre = r.deep_view();
        proof {
            reveal_strlit("1");
            assert(kv@.value =~= seq!['1']);
        }
        r.push(kv);
        proof {
            assert(r.deep_view() =~= pre.push(kv@));
        }
    }
    proof {
        assert(r.deep_view() =~~= wc_pairs(contents@));
    }
    r
}

/// The count of one word: the number of its occurrences, in decimal.
pub fn reduce(_key: &str, values: Vec<&str>) -> (r: String)
    ensures
        r@ == dec_of(values@.len() as int),
{
    u64_to_dec(values.len() as u64)
}

} // verus!
