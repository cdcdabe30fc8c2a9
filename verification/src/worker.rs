//! The worker-side computations: hashing keys to reduce buckets,
//! partitioning intermediate records, grouping records by key for the
//! reduce phase, and building the output file names and lines.
//!
//! Reading input files, writing the partitioned buckets to disk and the
//! task-request loop around these functions live outside the crate.

use crate::text::{dec_of, str_eq, u64_to_dec};
use crate::util::{KeyValue, KvView};
use std::collections::hash_map::DefaultHasher;
use std::hash::Hasher;
use vstd::prelude::*;
use vstd::std_specs::hash::DefaultHasherAdditionalSpecFns;
use vstd::string::StrSliceExecFns;
use vstd::string::StringExecFns;
use vstd::string::StringSliceAdditionalSpecFns;

verus! {

/// The stable hash of a key: what `DefaultHasher` returns after one
/// write of the key's UTF-8 bytes. It depends on the key alone, so every
/// process of a job routes a key to the same bucket.
pub open spec fn hash_of(key: Seq<char>) -> u64 {
    DefaultHasher::spec_finish(Seq::<Seq<u8>>::empty().push(vstd::utf8::encode_utf8(key)))
}

/// Hashes a key with the standard library's default hasher.
pub fn ihash(key: &str) -> (h: u64)
    ensures
        h == hash_of(key@),
{
    let mut hasher = DefaultHasher::new();
    let bytes = key.as_bytes();
    hasher.write(bytes);
    let h = hasher.finish();
    proof {
        assert(hasher@ =~= Seq::<Seq<u8>>::empty().push(key.spec_bytes()));
    }
    h
}

/// The reduce bucket that a key is routed to, out of `n` buckets.
pub open spec fn bucket_of(key: Seq<char>, n: int) -> int
    recommends
        n > 0,
{
    (hash_of(key) as int) % n
}

/// The records of `s` routed to bucket `b`, in input order.
pub open spec fn bucket_filter(s: Seq<KvView>, n: int, b: int) -> Seq<KvView>
    decreases s.len(),
{
    if s.len() == 0 {
        Seq::empty()
    } else {
        let p = bucket_filter(s.drop_last(), n, b);
        if bucket_of(s.last().key, n) == b {
            p.push(s.last())
        } else {
            p
        }
    }
}

/// Routes each record to bucket `hash(key) mod n`, keeping input order
/// within each bucket. `n` must be positive; a job with no reduce
/// buckets is invalid.
pub fn partition(keyvals: Vec<KeyValue>, n: usize) -> (r: Vec<Vec<KeyValue>>)
    requires
        n > 0,
    ensures
        r@.len() == n as int,
        forall|b: int|
            0 <= b < n ==> (#[trigger] r@[b]).deep_view() == bucket_filter(
                keyvals.deep_view(),
                n as int,
                b,
            ),
{
    let ghost full = keyvals.deep_view();
    let mut r: Vec<Vec<KeyValue>> = Vec::new();
    while r.len() < n
        invariant
            r@.len() <= n,
            forall|b: int| 0 <= b < r@.len() ==> (#[trigger] r@[b])@.len() == 0,
        decreases n - r.len(),
    {
        r.push(Vec::new());
    }
    let mut rest = keyvals;
    let ghost mut done: Seq<KvView> = Seq::empty();
    proof {
        assert(full =~= done + rest.deep_view());
        assert forall|b: int| 0 <= b < n implies (#[trigger] r@[b]).deep_view() == bucket_filter(
            done,
            n as int,
            b,
        ) by {
            assert(r@[b].deep_view() =~= Seq::<KvView>::empty());
        }
    }
    while rest.len() > 0
        invariant
            n > 0,
            r@.len() == n as int,
            full == done + rest.deep_view(),
            forall|b: int|
                0 <= b < n ==> (#[trigger] r@[b]).deep_view() == bucket_filter(done, n as int, b),
        decreases rest.len(),
    {
        let ghost old_rest = rest.deep_view();
        let ghost old_r = r@;
        let kv = rest.remove(0);
        let ghost x = kv@;
        let h = ihash(kv.key.as_str());
        let idx = (h % (n as u64)) as usize;
        proof {
            assert(rest.deep_view() =~= old_rest.remove(0));
            assert(x == old_rest[0]);
            assert((h % (n as u64)) as int == (h as int) % (n as int));
            assert(idx as int == bucket_of(x.key, n as int));
        }
        let mut bucket = r.remove(idx);
        bucket.push(kv);
        r.insert(idx, bucket);
        proof {
            assert(r@ =~= old_r.update(idx as int, r@[idx as int]));
            assert(r@[idx as int].deep_view() =~= old_r[idx as int].deep_view().push(x));
            let new_done = done.push(x);
            assert forall|b: int| 0 <= b < n implies (#[trigger] r@[b]).deep_view()
                == bucket_filter(new_done, n as int, b) by {
                assert(new_done.drop_last() =~= done);
                assert(new_done.last() == x);
                if b != idx as int {
                    assert(r@[b] == old_r[b]);
                }
            }
            done = new_done;
            assert(full =~= done + rest.deep_view());
        }
    }
    proof {
        assert(rest.deep_view().len() == 0);
        assert(done =~= full);
    }
    r
}

/// One key of the reduce phase with all its values, in input order.
pub struct KeyGroup {
    pub key: String,
    pub values: Vec<String>,
}

/// The mathematical content of a [`KeyGroup`].
#[verifier::ext_equal]
pub ghost struct KeyGroupView {
    pub key: Seq<char>,
    pub values: Seq<Seq<char>>,
}

impl View for KeyGroup {
    type V = KeyGroupView;

    open spec fn view(&self) -> KeyGroupView {
        KeyGroupView { key: self.key@, values: self.values.deep_view() }
    }
}

impl DeepView for KeyGroup {
    type V = KeyGroupView;

    open spec fn deep_view(&self) -> KeyGroupView {
        self.view()
    }
}

/// The keys of the groups, in order.
pub open spec fn group_keys(gs: Seq<KeyGroupView>) -> Seq<Seq<char>> {
    gs.map_values(|g: KeyGroupView| g.key)
}

/// The distinct keys of the records, each at its first occurrence.
pub open spec fn distinct_keys(s: Seq<KvView>) -> Seq<Seq<char>>
    decreases s.len(),
{
    if s.len() == 0 {
        Seq::empty()
    } else {
        let p = distinct_keys(s.drop_last());
        if p.contains(s.last().key) {
            p
        } else {
            p.push(s.last().key)
        }
    }
}

/// The values carried by records with key `k`, in input order.
pub open spec fn values_for(s: Seq<KvView>, k: Seq<char>) -> Seq<Seq<char>>
    decreases s.len(),
{
    if s.len() == 0 {
        Seq::empty()
    } else {
        let p = values_for(s.drop_last(), k);
        if s.last().key == k {
            p.push(s.last().value)
        } else {
            p
        }
    }
}

proof fn lemma_distinct_keys_nodup(s: Seq<KvView>)
    ensures
        forall|i: int, j: int|
            0 <= i < j < distinct_keys(s).len() ==> distinct_keys(s)[i] != distinct_keys(s)[j],
    decreases s.len(),
{
    if s.len() > 0 {
        lemma_distinct_keys_nodup(s.drop_last());
        let p = distinct_keys(s.drop_last());
        let d = distinct_keys(s);
        if !p.contains(s.last().key) {
            assert(d == p.push(s.last().key));
            assert forall|i: int, j: int| 0 <= i < j < d.len() implies d[i] != d[j] by {
                if j == d.len() - 1 {
                    assert(d[i] == p[i]);
                    assert(p[i] != s.last().key) by {
                        if p[i] == s.last().key {
                            assert(p.contains(s.last().key));
                        }
                    }
                }
            }
        }
    }
}

fn find_group(groups: &Vec<KeyGroup>, key: &str) -> (r: Option<usize>)
    ensures
        match r {
            Some(j) => j < groups@.len() && groups.deep_view()[j as int].key == key@,
            None => forall|j: int|
                0 <= j < groups@.len() ==> (#[trigger] groups.deep_view()[j]).key != key@,
        },
{
    let mut j: usize = 0;
    while j < groups.len()
        invariant
            0 <= j <= groups@.len(),
            forall|k: int| 0 <= k < j ==> (#[trigger] groups.deep_view()[k]).key != key@,
        decreases groups@.len() - j,
    {
        if str_eq(groups[j].key.as_str(), key) {
            return Some(j);
        }
        j = j + 1;
    }
    None
}

/// Groups the records by key. Keys keep the order of their first
/// occurrence; each key's values keep input order. Every record
/// contributes its value to exactly its own key's group.
pub fn group_by_key(kvs: Vec<KeyValue>) -> (groups: Vec<KeyGroup>)
    ensures
        group_keys(groups.deep_view()) == distinct_keys(kvs.deep_view()),
        forall|i: int|
            0 <= i < groups@.len() ==> (#[trigger] groups.deep_view()[i]).values == values_for(
                kvs.deep_view(),
                groups.deep_view()[i].key,
            ),
{
    let ghost full = kvs.deep_view();
    let mut rest = kvs;
    let ghost mut done: Seq<KvView> = Seq::empty();
    let mut groups: Vec<KeyGroup> = Vec::new();
    proof {
        assert(full =~= done + rest.deep_view());
        assert(group_keys(groups.deep_view()) =~= distinct_keys(done));
    }
    while rest.len() > 0
        invariant
            full == done + rest.deep_view(),
            group_keys(groups.deep_view()) == distinct_keys(done),
            forall|i: int|
                0 <= i < groups@.len() ==> (#[trigger] groups.deep_view()[i]).values == values_for(
                    done,
                    groups.deep_view()[i].key,
                ),
        decreases rest.len(),
    {
        let ghost old_rest = rest.deep_view();
        let ghost old_groups = groups.deep_view();
        let kv = rest.remove(0);
        let ghost x = kv@;
        proof {
            assert(rest.deep_view() =~= old_rest.remove(0));
            assert(x == old_rest[0]);
            lemma_distinct_keys_nodup(done);
        }
        let found = find_group(&groups, kv.key.as_str());
        match found {
            Some(j) => {
                let mut g = groups.remove(j);
                g.values.push(kv.value);
                groups.insert(j, g);
                proof {
                    let new_done = done.push(x);
                    assert(new_done.drop_last() =~= done);
                    assert(groups.deep_view() =~~= old_groups.update(
                        j as int,
                        KeyGroupView {
                            key: old_groups[j as int].key,
                            values: old_groups[j as int].values.push(x.value),
                        },
                    ));
                    // the key was already known, so the distinct keys are unchanged
                    assert(distinct_keys(done).contains(x.key)) by {
                        assert(group_keys(old_groups)[j as int] == x.key);
                    }
                    assert(group_keys(groups.deep_view()) =~= distinct_keys(new_done));
                    assert forall|i: int| 0 <= i < groups@.len() implies (
                    #[trigger] groups.deep_view()[i]).values == values_for(
                        new_done,
                        groups.deep_view()[i].key,
                    ) by {
                        if i == j as int {
                            assert(groups.deep_view()[i].key == x.key);
                        } else {
                            // distinct keys, so this group's key is not x.key
                            assert(group_keys(old_groups)[i] == old_groups[i].key);
                            assert(group_keys(old_groups)[j as int] == x.key);
                            assert(old_groups[i].key != x.key);
                        }
                    }
                    done = new_done;
                    assert(full =~= done + rest.deep_view());
                }
            },
            None => {
                let mut vs: Vec<String> = Vec::new();
                vs.push(kv.value);
                let g = KeyGroup { key: kv.key, values: vs };
                groups.push(g);
                proof {
                    let new_done = done.push(x);
                    assert(new_done.drop_last() =~= done);
                    assert(groups.deep_view() =~~= old_groups.push(
                        KeyGroupView { key: x.key, values: Seq::<Seq<char>>::empty().push(x.value) },
                    ));
                    // the key is new: no existing group carries it
                    assert(!distinct_keys(done).contains(x.key)) by {
                        if distinct_keys(done).contains(x.key) {
                            let w = choose|w: int|
                                0 <= w < distinct_keys(done).len() && distinct_keys(done)[w]
                                    == x.key;
                            assert(group_keys(old_groups)[w] == old_groups[w].key);
                        }
                    }
                    assert(group_keys(groups.deep_view()) =~= distinct_keys(new_done));
                    assert forall|i: int| 0 <= i < groups@.len() implies (
                    #[trigger] groups.deep_view()[i]).values == values_for(
                        new_done,
                        groups.deep_view()[i].key,
                    ) by {
                        if i == groups@.len() - 1 {
                            assert(groups.deep_view()[i].values =~= values_for(
                                new_done,
                                x.key,
                            )) by {
                                assert(values_for(done, x.key) =~= Seq::<Seq<char>>::empty()) by {
                                    lemma_values_for_absent(done, x.key);
                                }
                            }
                        } else {
                            assert(group_keys(old_groups)[i] == old_groups[i].key);
                            assert(old_groups[i].key != x.key);
                        }
                    }
                    done = new_done;
                    assert(full =~= done + rest.deep_view());
                }
            },
        }
    }
    proof {
        assert(rest.deep_view().len() == 0);
        assert(done =~= full);
    }
    groups
}

proof fn lemma_values_for_absent(s: Seq<KvView>, k: Seq<char>)
    requires
        !distinct_keys(s).contains(k),
    ensures
        values_for(s, k).len() == 0,
    decreases s.len(),
{
    if s.len() > 0 {
        assert(distinct_keys(s.drop_last()).contains(k) ==> distinct_keys(s).contains(k)) by {
            if distinct_keys(s.drop_last()).contains(k) {
                let p = distinct_keys(s.drop_last());
                let w = choose|w: int| 0 <= w < p.len() && p[w] == k;
                if p.contains(s.last().key) {
                    assert(distinct_keys(s)[w] == k);
                } else {
                    assert(distinct_keys(s)[w] == k);
                }
            }
        }
        lemma_values_for_absent(s.drop_last(), k);
        assert(s.last().key != k) by {
            if s.last().key == k {
                let p = distinct_keys(s.drop_last());
                if p.contains(k) {
                } else {
                    assert(distinct_keys(s).last() == k);
                }
            }
        }
    }
}

/// The name of the intermediate file that map task `task_num` writes
/// for reduce bucket `bucket`.
pub fn intermediate_file_name(task_num: u64, bucket: u64) -> (r: String)
    ensures
        r@ == "mr-out-"@ + dec_of(task_num as int) + "-"@ + dec_of(bucket as int),
{
    let mut s = String::from_str("mr-out-");
    s.append(u64_to_dec(task_num).as_str());
    s.append("-");
    s.append(u64_to_dec(bucket).as_str());
    s
}

/// The name of the final output file of reduce bucket `bucket`.
pub fn output_file_name(bucket: u64) -> (r: String)
    ensures
        r@ == "mr-out-"@ + dec_of(bucket as int),
{
    let mut s = String::from_str("mr-out-");
    s.append(u64_to_dec(bucket).as_str());
    s
}

/// One line of the final output: the key, a space, and the reduce
/// result.
pub fn format_line(key: &str, value: &str) -> (r: String)
    ensures
        r@ == key@ + " "@ + value@,
{
    let mut s = key.to_owned();
    s.append(" ");
    s.append(value);
    s
}

/// Partition determinism: the bucket assignment is a function of the
/// records and the bucket count alone — two partitions of equal input
/// with the same bucket count place every record identically.
pub proof fn lemma_partition_deterministic(kvs1: Seq<KvView>, kvs2: Seq<KvView>, n: int, b: int)
    requires
        kvs1 == kvs2,
    ensures
        bucket_filter(kvs1, n, b) == bucket_filter(kvs2, n, b),
{
}

/// What a bucket holds: exactly the records whose key hashes to it,
/// each routed to the single bucket its key names.
pub proof fn lemma_bucket_filter_members(s: Seq<KvView>, n: int, b: int)
    ensures
        forall|i: int|
            0 <= i < bucket_filter(s, n, b).len() ==> bucket_of(
                (#[trigger] bucket_filter(s, n, b)[i]).key,
                n,
            ) == b,
        forall|i: int|
            0 <= i < s.len() && bucket_of((#[trigger] s[i]).key, n) == b ==> bucket_filter(
                s,
                n,
                b,
            ).contains(s[i]),
    decreases s.len(),
{
    if s.len() > 0 {
        let d = s.drop_last();
        lemma_bucket_filter_members(d, n, b);
        let bd = bucket_filter(d, n, b);
        let ba = bucket_filter(s, n, b);
        assert forall|i: int|
            0 <= i < s.len() && bucket_of((#[trigger] s[i]).key, n) == b implies ba.contains(
            s[i],
        ) by {
            if i < s.len() - 1 {
                assert(d[i] == s[i]);
                assert(bd.contains(d[i]));
                let y = choose|y: int| 0 <= y < bd.len() && bd[y] == d[i];
                assert(ba[y] == d[i]);
            } else {
                assert(ba[ba.len() - 1] == s[i]);
            }
        }
    }
}

} // verus!
