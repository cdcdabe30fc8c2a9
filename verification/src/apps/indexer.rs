//! The indexing application: which files contain which words.

use crate::text::{
    dec_of, dedup_first, dedup_strings, join_strs, join_with, lex_leq, sort_strs, split_words,
    u64_to_dec, words_of,
};
use crate::util::{KeyValue, KvView};
use vstd::prelude::*;
use vstd::string::StringExecFns;

verus! {

/// The intermediate records of indexing for one input: each distinct
/// word of the contents, at its first occurrence, with the filename.
pub open spec fn indexer_pairs(filename: Seq<char>, contents: Seq<char>) -> Seq<KvView> {
    dedup_first(words_of(contents)).map_values(
        |w: Seq<char>| KvView { key: w, value: filename },
    )
}

/// Emits one ("word", filename) record per distinct word of the
/// contents.
pub fn map(filename: &str, contents: &str) -> (r: Vec<KeyValue>)
    ensures
        r.deep_view() == indexer_pairs(filename@, contents@),
{
    let words = dedup_strings(split_words(contents));
    let ghost ws = words.deep_view();
    let mut rest = words;
    let mut r: Vec<KeyValue> = Vec::new();
    proof {
        assert(rest.deep_view() =~= ws.skip(0));
    }
    while rest.len() > 0
        invariant
            r@.len() + rest@.len() == ws.len(),
            forall|j: int|
                0 <= j < r@.len() ==> #[trigger] r.deep_view()[j] == (KvView {
                    key: ws[j],
                    value: filename@,
                }),
            rest.deep_view() == ws.skip(r@.len() as int),
        decreases rest.len(),
    {
        let ghost old_rest = rest.deep_view();
        let ghost n = r@.len() as int;
        let w = rest.remove(0);
        proof {
            assert(rest.deep_view() =~= old_rest.remove(0));
            assert(w@ == old_rest[0]);
            assert(old_rest[0] == ws[n]);
            assert(rest.deep_view() =~= ws.skip(n + 1));
        }
        let kv = KeyValue::new(w, filename.to_owned());
        let ghost pre = r.deep_view();
        r.push(kv);
        proof {
            assert(r.deep_view() =~= pre.push(kv@));
        }
    }
    proof {
        assert(r.deep_view() =~~= indexer_pairs(filename@, contents@));
    }
    r
}

/// The index line for one word: how many files contain it, a space,
/// and the filenames in sorted order joined by commas.
pub open spec fn indexer_line(values: Seq<Seq<char>>) -> Seq<char> {
    dec_of(values.len() as int) + seq![' '] + join_with(values.sort_by(lex_leq()), seq![','])
}

/// Folds one word's filenames into its index line.
pub fn reduce(_key: &str, values: Vec<&str>) -> (r: String)
    ensures
        r@ == indexer_line(values.deep_view()),
{
    let ghost vd = values.deep_view();
    let n = values.len();
    let sorted = sort_strs(values);
    let mut s = u64_to_dec(n as u64);
    s.append(" ");
    let joined = join_strs(&sorted, ",");
    s.append(joined.as_str());
    proof {
        reveal_strlit(" ");
        reveal_strlit(",");
        assert(" "@ =~= seq![' ']);
        assert(","@ =~= seq![',']);
        assert(s@ =~= indexer_line(vd));
    }
    s
}

} // verus!
