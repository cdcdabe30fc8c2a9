//! The map/reduce applications and their registry.
//!
//! Each application is a pair of pure functions over plain strings:
//! `map(filename, contents)` yields intermediate records, and
//! `reduce(key, values)` folds one key's values into one output string.
//! Applications whose work is probing the machine — timing maps, the
//! parallelism counter, the job counter — keep that probing outside the
//! crate; their pure parts live here.

pub mod crash;
pub mod indexer;
pub mod mtiming;
pub mod nocrash;
pub mod rtiming;
pub mod wc;

use crate::text::{dec_of, join_strs, join_with, lex_leq, sort_strs, str_eq, u64_to_dec};
use crate::util::{KeyValue, KvView};
use vstd::prelude::*;
use vstd::string::StrSliceExecFns;
use vstd::string::StringSliceAdditionalSpecFns;

verus! {

/// The known applications. `Jobcount`, and the probing halves of
/// `Mtiming` and `Rtiming`, are executed by the driver outside this
/// crate.
#[derive(Clone, Copy, Debug, PartialEq, Eq, Structural)]
pub enum AppKind {
    Wc,
    Indexer,
    Mtiming,
    Rtiming,
    Jobcount,
    Nocrash,
    Crash,
}

/// The application registered under a name, if any.
pub open spec fn app_of(name: Seq<char>) -> Option<AppKind> {
    if name == "wc"@ {
        Some(AppKind::Wc)
    } else if name == "indexer"@ {
        Some(AppKind::Indexer)
    } else if name == "mtiming"@ {
        Some(AppKind::Mtiming)
    } else if name == "rtiming"@ {
        Some(AppKind::Rtiming)
    } else if name == "jobcount"@ {
        Some(AppKind::Jobcount)
    } else if name == "nocrash"@ {
        Some(AppKind::Nocrash)
    } else if name == "crash"@ {
        Some(AppKind::Crash)
    } else {
        None
    }
}

/// Resolves an application name, `None` for a name that is not
/// registered — the driver treats that as a fatal startup error.
pub fn get_app(name: &str) -> (r: Option<AppKind>)
    ensures
        r == app_of(name@),
{
    if str_eq(name, "wc") {
        Some(AppKind::Wc)
    } else if str_eq(name, "indexer") {
        Some(AppKind::Indexer)
    } else if str_eq(name, "mtiming") {
        Some(AppKind::Mtiming)
    } else if str_eq(name, "rtiming") {
        Some(AppKind::Rtiming)
    } else if str_eq(name, "jobcount") {
        Some(AppKind::Jobcount)
    } else if str_eq(name, "nocrash") {
        Some(AppKind::Nocrash)
    } else if str_eq(name, "crash") {
        Some(AppKind::Crash)
    } else {
        None
    }
}

/// The values in sorted order, joined by single spaces: what the
/// probing applications' reduce steps print.
pub open spec fn sorted_join(values: Seq<Seq<char>>) -> Seq<char> {
    join_with(values.sort_by(lex_leq()), seq![' '])
}

/// Sorts the values and joins them with spaces.
pub fn sort_join(values: Vec<&str>) -> (r: String)
    ensures
        r@ == sorted_join(values.deep_view()),
{
    let sorted = sort_strs(values);
    let r = join_strs(&sorted, " ");
    proof {
        reveal_strlit(" ");
        assert(" "@ =~= seq![' ']);
    }
    r
}

/// A string's UTF-8 byte length, as the machine reports it.
pub open spec fn byte_len(s: Seq<char>) -> int {
    (vstd::utf8::encode_utf8(s).len() as usize) as int
}

/// The records of the probe applications' map step: the filename, its
/// byte length, the contents' byte length, and a constant, under the
/// keys "a" to "d".
pub open spec fn probe_pairs(filename: Seq<char>, contents: Seq<char>) -> Seq<KvView> {
    seq![
        KvView { key: seq!['a'], value: filename },
        KvView { key: seq!['b'], value: dec_of(byte_len(filename)) },
        KvView { key: seq!['c'], value: dec_of(byte_len(contents)) },
        KvView { key: seq!['d'], value: "xyzzy"@ },
    ]
}

/// Builds the probe records for one input file.
pub fn build_probe_pairs(filename: &str, contents: &str) -> (r: Vec<KeyValue>)
    ensures
        r.deep_view() == probe_pairs(filename@, contents@),
{
    let mut r: Vec<KeyValue> = Vec::new();
    r.push(KeyValue::new("a".to_owned(), filename.to_owned()));
    r.push(KeyValue::new("b".to_owned(), u64_to_dec(filename.len() as u64)));
    r.push(KeyValue::new("c".to_owned(), u64_to_dec(contents.len() as u64)));
    r.push(KeyValue::new("d".to_owned(), "xyzzy".to_owned()));
    proof {
        assert(filename.spec_bytes() == vstd::utf8::encode_utf8(filename@));
        assert(contents.spec_bytes() == vstd::utf8::encode_utf8(contents@));
        reveal_strlit("a");
        reveal_strlit("b");
        reveal_strlit("c");
        reveal_strlit("d");
        assert("a"@ =~= seq!['a']);
        assert("b"@ =~= seq!['b']);
        assert("c"@ =~= seq!['c']);
        assert("d"@ =~= seq!['d']);
        assert(r.deep_view() =~~= probe_pairs(filename@, contents@));
    }
    r
}

} // verus!
