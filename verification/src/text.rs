//! Verified string utilities: equality and lexicographic comparison by
//! character, sorting, joining, decimal formatting of integers, and
//! splitting text into maximal alphabetic words.

use vstd::prelude::*;
use vstd::relations::{sorted_by, total_ordering};
use vstd::seq_lib::lemma_multiset_commutative;
use vstd::seq_lib::lemma_sorted_unique;
use vstd::string::StrSliceExecFns;
use vstd::string::StringExecFns;

verus! {

/// True iff the two strings consist of the same characters.
pub fn str_eq(a: &str, b: &str) -> (r: bool)
    ensures
        r == (a@ == b@),
{
    let alen = a.unicode_len();
    let blen = b.unicode_len();
    if alen != blen {
        return false;
    }
    let mut i: usize = 0;
    while i < alen
        invariant
            alen == a@.len(),
            blen == b@.len(),
            alen == blen,
            0 <= i <= alen,
            forall|k: int| 0 <= k < i ==> a@[k] == b@[k],
        decreases alen - i,
    {
        if a.get_char(i) != b.get_char(i) {
            return false;
        }
        i = i + 1;
    }
    proof {
        assert(a@ =~= b@);
    }
    true
}

/// Lexicographic order on character sequences by code point, with a
/// proper prefix ordered before its extensions. This is the order in
/// which `str` values compare.
pub open spec fn lex_le(a: Seq<char>, b: Seq<char>) -> bool
    decreases a.len(),
{
    if a.len() == 0 {
        true
    } else if b.len() == 0 {
        false
    } else if (a[0] as u32) < (b[0] as u32) {
        true
    } else if (a[0] as u32) > (b[0] as u32) {
        false
    } else {
        lex_le(a.drop_first(), b.drop_first())
    }
}

/// The lexicographic order as a relation value, for use with `sort_by`.
pub open spec fn lex_leq() -> spec_fn(Seq<char>, Seq<char>) -> bool {
    |a: Seq<char>, b: Seq<char>| lex_le(a, b)
}

proof fn lemma_char_code_inj(c: char, d: char)
    ensures
        c as u32 == d as u32 ==> c == d,
{
}

proof fn lemma_lex_refl(a: Seq<char>)
    ensures
        lex_le(a, a),
    decreases a.len(),
{
    if a.len() > 0 {
        lemma_lex_refl(a.drop_first());
    }
}

proof fn lemma_lex_antisym(a: Seq<char>, b: Seq<char>)
    requires
        lex_le(a, b),
        lex_le(b, a),
    ensures
        a == b,
    decreases a.len(),
{
    if a.len() == 0 {
        assert(b.len() == 0);
        assert(a =~= b);
    } else {
        assert(b.len() > 0);
        lemma_char_code_inj(a[0], b[0]);
        assert(a[0] == b[0]);
        lemma_lex_antisym(a.drop_first(), b.drop_first());
        assert(a =~= b) by {
            assert(forall|i: int|
                1 <= i < a.len() ==> a[i] == a.drop_first()[i - 1] && b[i] == b.drop_first()[i
                    - 1]);
        }
    }
}

proof fn lemma_lex_trans(a: Seq<char>, b: Seq<char>, c: Seq<char>)
    requires
        lex_le(a, b),
        lex_le(b, c),
    ensures
        lex_le(a, c),
    decreases a.len(),
{
    if a.len() > 0 && b.len() > 0 && c.len() > 0 {
        if (a[0] as u32) == (b[0] as u32) && (b[0] as u32) == (c[0] as u32) {
            lemma_lex_trans(a.drop_first(), b.drop_first(), c.drop_first());
        }
    }
}

proof fn lemma_lex_connected(a: Seq<char>, b: Seq<char>)
    ensures
        lex_le(a, b) || lex_le(b, a),
    decreases a.len(),
{
    if a.len() > 0 && b.len() > 0 {
        lemma_char_code_inj(a[0], b[0]);
        if (a[0] as u32) == (b[0] as u32) {
            lemma_lex_connected(a.drop_first(), b.drop_first());
        }
    }
}

/// The lexicographic order is a total order, which makes sorting by it
/// well defined and its sorted permutation unique.
pub proof fn lemma_lex_total_ordering()
    ensures
        total_ordering(lex_leq()),
{
    let leq = lex_leq();
    assert forall|a: Seq<char>| #[trigger] leq(a, a) by {
        lemma_lex_refl(a);
    }
    assert forall|a: Seq<char>, b: Seq<char>| #[trigger] leq(a, b) && #[trigger] leq(b, a)
        implies a == b by {
        lemma_lex_antisym(a, b);
    }
    assert forall|a: Seq<char>, b: Seq<char>, c: Seq<char>|
        #[trigger] leq(a, b) && #[trigger] leq(b, c) implies leq(a, c) by {
        lemma_lex_trans(a, b, c);
    }
    assert forall|a: Seq<char>, b: Seq<char>| #[trigger] leq(a, b) || #[trigger] leq(b, a) by {
        lemma_lex_connected(a, b);
    }
}

/// True iff `a` is lexicographically at most `b`.
pub fn str_le(a: &str, b: &str) -> (r: bool)
    ensures
        r == lex_le(a@, b@),
{
    let alen = a.unicode_len();
    let blen = b.unicode_len();
    let mut i: usize = 0;
    proof {
        assert(a@.skip(0) =~= a@);
        assert(b@.skip(0) =~= b@);
    }
    while i < alen
        invariant
            alen == a@.len(),
            blen == b@.len(),
            0 <= i <= alen,
            i <= blen,
            lex_le(a@, b@) == lex_le(a@.skip(i as int), b@.skip(i as int)),
        decreases alen - i,
    {
        if i == blen {
            assert(b@.skip(i as int).len() == 0);
            assert(a@.skip(i as int).len() > 0);
            return false;
        }
        let ca = a.get_char(i);
        let cb = b.get_char(i);
        proof {
            assert(a@.skip(i as int)[0] == a@[i as int]);
            assert(b@.skip(i as int)[0] == b@[i as int]);
        }
        if (ca as u32) < (cb as u32) {
            return true;
        }
        if (ca as u32) > (cb as u32) {
            return false;
        }
        proof {
            assert(a@.skip(i as int).drop_first() =~= a@.skip(i + 1));
            assert(b@.skip(i as int).drop_first() =~= b@.skip(i + 1));
        }
        i = i + 1;
    }
    proof {
        assert(a@.skip(i as int).len() == 0);
    }
    true
}

proof fn lemma_insert_preserves_sorted(pre: Seq<Seq<char>>, pos: int, s: Seq<char>)
    requires
        sorted_by(pre, lex_leq()),
        0 <= pos <= pre.len(),
        forall|k: int| 0 <= k < pos ==> lex_le(#[trigger] pre[k], s),
        pos == pre.len() || lex_le(s, pre[pos]),
    ensures
        sorted_by(pre.insert(pos, s), lex_leq()),
{
    let new_out = pre.insert(pos, s);
    pre.insert_ensures(pos, s);
    assert forall|i: int, j: int| 0 <= i < j < new_out.len() implies #[trigger] lex_leq()(
        new_out[i],
        new_out[j],
    ) by {
        if j < pos {
            // both elements sit at their old indices
            assert(lex_leq()(pre[i], pre[j]));
        } else if j == pos {
            // new_out[j] is s, and everything before pos is <= s
            assert(lex_le(pre[i], s));
        } else if i < pos {
            // i stays, j shifts down from j - 1; i < pos <= j - 1
            assert(lex_leq()(pre[i], pre[j - 1]));
        } else if i == pos {
            // s against a shifted element: s <= pre[pos] <= pre[j - 1]
            assert(lex_le(s, pre[pos]));
            if j - 1 > pos {
                assert(lex_leq()(pre[pos], pre[j - 1]));
                lemma_lex_trans(s, pre[pos], pre[j - 1]);
            }
        } else {
            // both shifted: old pair (i - 1, j - 1)
            assert(lex_leq()(pre[i - 1], pre[j - 1]));
        }
    }
}

proof fn lemma_to_multiset_insert(s: Seq<Seq<char>>, pos: int, x: Seq<char>)
    requires
        0 <= pos <= s.len(),
    ensures
        s.insert(pos, x).to_multiset() == s.to_multiset().insert(x),
{
    broadcast use vstd::seq_lib::group_to_multiset_ensures;
    broadcast use vstd::multiset::group_multiset_axioms;

    let l = s.subrange(0, pos);
    let rgt = s.subrange(pos, s.len() as int);
    assert(s.insert(pos, x) =~= l.push(x) + rgt);
    assert(s =~= l + rgt);
    lemma_multiset_commutative(l.push(x), rgt);
    lemma_multiset_commutative(l, rgt);
    assert(l.push(x).to_multiset() =~= l.to_multiset().insert(x));
    assert(s.insert(pos, x).to_multiset() =~= s.to_multiset().insert(x));
}

/// Sorts the strings into lexicographic order; the result is exactly the
/// sorted permutation of the input.
pub fn sort_strs<'a>(v: Vec<&'a str>) -> (r: Vec<&'a str>)
    ensures
        r.deep_view() == v.deep_view().sort_by(lex_leq()),
{
    let ghost full: Seq<Seq<char>> = v.deep_view();
    let mut rest = v;
    let mut out: Vec<&'a str> = Vec::new();
    proof {
        broadcast use vstd::seq_lib::group_to_multiset_ensures;
        broadcast use vstd::multiset::group_multiset_axioms;

        assert(out.deep_view() =~= Seq::<Seq<char>>::empty());
        assert(out.deep_view().to_multiset().len() == 0);
        assert(out.deep_view().to_multiset().add(rest.deep_view().to_multiset())
            =~= full.to_multiset());
    }
    while rest.len() > 0
        invariant
            sorted_by(out.deep_view(), lex_leq()),
            out.deep_view().to_multiset().add(rest.deep_view().to_multiset())
                == full.to_multiset(),
        decreases rest.len(),
    {
        let ghost old_rest = rest.deep_view();
        let s = rest.remove(0);
        proof {
            broadcast use vstd::seq_lib::group_to_multiset_ensures;
            broadcast use vstd::multiset::group_multiset_axioms;

            assert(rest.deep_view() =~= old_rest.remove(0));
            assert(old_rest.remove(0).to_multiset() =~= old_rest.to_multiset().remove(
                old_rest[0]));
        }
        let mut pos: usize = 0;
        while pos < out.len() && str_le(out[pos], s)
            invariant
                0 <= pos <= out.len(),
                forall|k: int| 0 <= k < pos ==> lex_le(#[trigger] out.deep_view()[k], s@),
            decreases out.len() - pos,
        {
            pos = pos + 1;
        }
        proof {
            assert(pos == out.len() || lex_le(s@, out.deep_view()[pos as int])) by {
                if pos < out.len() {
                    lemma_lex_connected(out.deep_view()[pos as int], s@);
                }
            }
        }
        let ghost pre_insert = out.deep_view();
        out.insert(pos, s);
        proof {
            broadcast use vstd::seq_lib::group_to_multiset_ensures;
            broadcast use vstd::multiset::group_multiset_axioms;

            assert(out.deep_view() =~= pre_insert.insert(pos as int, s@));
            lemma_insert_preserves_sorted(pre_insert, pos as int, s@);
            lemma_to_multiset_insert(pre_insert, pos as int, s@);
            assert(old_rest[0] == s@);
            assert(old_rest.contains(s@));
            let oms = pre_insert.to_multiset();
            let rms = old_rest.to_multiset();
            assert(rms.count(s@) > 0);
            assert(out.deep_view().to_multiset() == oms.insert(s@));
            assert(rest.deep_view().to_multiset() == rms.remove(s@));
            assert(oms.insert(s@).add(rms.remove(s@)) =~= oms.add(rms)) by {
                assert forall|x: Seq<char>|
                    oms.insert(s@).add(rms.remove(s@)).count(x) == oms.add(rms).count(x) by {
                    if x == s@ {
                        assert(oms.insert(s@).count(s@) == oms.count(s@) + 1);
                        assert(rms.remove(s@).count(s@) == rms.count(s@) - 1);
                    } else {
                        assert(oms.insert(s@).count(x) == oms.count(x));
                        assert(rms.remove(s@).count(x) == rms.count(x));
                    }
                }
            }
            assert(out.deep_view().to_multiset().add(rest.deep_view().to_multiset())
                =~= full.to_multiset());
        }
    }
    proof {
        broadcast use vstd::seq_lib::group_to_multiset_ensures;
        broadcast use vstd::multiset::group_multiset_axioms;

        lemma_lex_total_ordering();
        assert(rest.deep_view() =~= Seq::<Seq<char>>::empty());
        assert(rest.deep_view().to_multiset().len() == 0);
        assert(out.deep_view().to_multiset() =~= full.to_multiset());
        full.lemma_sort_by_ensures(lex_leq());
        lemma_sorted_unique(out.deep_view(), full.sort_by(lex_leq()), lex_leq());
        assert(out.deep_view() =~= full.sort_by(lex_leq()));
    }
    out
}

/// The decimal digit character for `d`.
pub open spec fn dec_digit(d: int) -> char {
    if d == 0 {
        '0'
    } else if d == 1 {
        '1'
    } else if d == 2 {
        '2'
    } else if d == 3 {
        '3'
    } else if d == 4 {
        '4'
    } else if d == 5 {
        '5'
    } else if d == 6 {
        '6'
    } else if d == 7 {
        '7'
    } else if d == 8 {
        '8'
    } else {
        '9'
    }
}

/// The decimal representation of a non-negative integer, most
/// significant digit first and without leading zeroes.
pub open spec fn dec_of(n: int) -> Seq<char>
    decreases n,
{
    if n < 10 {
        seq![dec_digit(n)]
    } else {
        dec_of(n / 10).push(dec_digit(n % 10))
    }
}

fn dec_lit(d: u64) -> (s: &'static str)
    requires
        d < 10,
    ensures
        s@ == seq![dec_digit(d as int)],
{
    if d == 0 {
        proof {
            reveal_strlit("0");
            assert("0"@ =~= seq![dec_digit(0)]);
        }
        "0"
    } else if d == 1 {
        proof {
            reveal_strlit("1");
            assert("1"@ =~= seq![dec_digit(1)]);
        }
        "1"
    } else if d == 2 {
        proof {
            reveal_strlit("2");
            assert("2"@ =~= seq![dec_digit(2)]);
        }
        "2"
    } else if d == 3 {
        proof {
            reveal_strlit("3");
            assert("3"@ =~= seq![dec_digit(3)]);
        }
        "3"
    } else if d == 4 {
        proof {
            reveal_strlit("4");
            assert("4"@ =~= seq![dec_digit(4)]);
        }
        "4"
    } else if d == 5 {
        proof {
            reveal_strlit("5");
            assert("5"@ =~= seq![dec_digit(5)]);
        }
        "5"
    } else if d == 6 {
        proof {
            reveal_strlit("6");
            assert("6"@ =~= seq![dec_digit(6)]);
        }
        "6"
    } else if d == 7 {
        proof {
            reveal_strlit("7");
            assert("7"@ =~= seq![dec_digit(7)]);
        }
        "7"
    } else if d == 8 {
        proof {
            reveal_strlit("8");
            assert("8"@ =~= seq![dec_digit(8)]);
        }
        "8"
    } else {
        proof {
            reveal_strlit("9");
            assert("9"@ =~= seq![dec_digit(9)]);
        }
        "9"
    }
}

/// Formats `n` in decimal.
pub fn u64_to_dec(n: u64) -> (s: String)
    ensures
        s@ == dec_of(n as int),
    decreases n,
{
    if n < 10 {
        dec_lit(n).to_owned()
    } else {
        let mut s = u64_to_dec(n / 10);
        s.append(dec_lit(n % 10));
        proof {
            assert((n / 10) as int == (n as int) / 10);
            assert((n % 10) as int == (n as int) % 10);
            assert(s@ =~= dec_of((n as int) / 10).push(dec_digit((n as int) % 10)));
        }
        s
    }
}

/// The parts joined by the separator: empty for no parts, otherwise the
/// parts in order with `sep` between each adjacent pair.
pub open spec fn join_with(parts: Seq<Seq<char>>, sep: Seq<char>) -> Seq<char>
    decreases parts.len(),
{
    if parts.len() == 0 {
        Seq::empty()
    } else if parts.len() == 1 {
        parts[0]
    } else {
        parts[0] + sep + join_with(parts.drop_first(), sep)
    }
}

proof fn lemma_join_push(parts: Seq<Seq<char>>, sep: Seq<char>, x: Seq<char>)
    ensures
        join_with(parts.push(x), sep) == if parts.len() == 0 {
            x
        } else {
            join_with(parts, sep) + sep + x
        },
    decreases parts.len(),
{
    if parts.len() == 0 {
        assert(parts.push(x).len() == 1);
        assert(parts.push(x)[0] == x);
    } else {
        assert(parts.push(x).drop_first() =~= parts.drop_first().push(x));
        lemma_join_push(parts.drop_first(), sep, x);
        if parts.len() == 1 {
            assert(join_with(parts.push(x), sep) == parts[0] + sep + x);
            assert(join_with(parts, sep) == parts[0]);
        } else {
            assert(parts[0] + sep + (join_with(parts.drop_first(), sep) + sep + x) =~= (parts[0]
                + sep + join_with(parts.drop_first(), sep)) + sep + x);
        }
    }
}

/// Joins the strings with the separator between adjacent pairs.
pub fn join_strs(v: &Vec<&str>, sep: &str) -> (r: String)
    ensures
        r@ == join_with(v.deep_view(), sep@),
{
    let mut out = String::new();
    let mut i: usize = 0;
    proof {
        assert(v.deep_view().take(0) =~= Seq::<Seq<char>>::empty());
    }
    while i < v.len()
        invariant
            0 <= i <= v.len(),
            out@ == join_with(v.deep_view().take(i as int), sep@),
        decreases v.len() - i,
    {
        if i > 0 {
            out.append(sep);
        }
        out.append(v[i]);
        proof {
            let d = v.deep_view();
            assert(d.take(i + 1) =~= d.take(i as int).push(d[i as int]));
            lemma_join_push(d.take(i as int), sep@, d[i as int]);
            assert(d[i as int] == v@[i as int]@);
        }
        i = i + 1;
    }
    proof {
        assert(v.deep_view().take(v@.len() as int) =~= v.deep_view());
    }
    out
}

/// True of the ASCII letters, the characters that make up a word.
pub open spec fn is_word_char(c: char) -> bool {
    (97 <= c as u32 && c as u32 <= 122) || (65 <= c as u32 && c as u32 <= 90)
}

fn word_char(c: char) -> (b: bool)
    ensures
        b == is_word_char(c),
{
    let u = c as u32;
    (97 <= u && u <= 122) || (65 <= u && u <= 90)
}

/// The state of a left-to-right split: the words already completed, and
/// the letters of the word currently being read.
pub ghost struct SplitAcc {
    pub words: Seq<Seq<char>>,
    pub cur: Seq<char>,
}

/// One character of the split: a letter extends the current word, a
/// non-letter closes it (if non-empty).
pub open spec fn split_step(acc: SplitAcc, c: char) -> SplitAcc {
    if is_word_char(c) {
        SplitAcc { words: acc.words, cur: acc.cur.push(c) }
    } else if acc.cur.len() > 0 {
        SplitAcc { words: acc.words.push(acc.cur), cur: Seq::empty() }
    } else {
        acc
    }
}

/// The split state after reading the first `i` characters of `s`.
pub open spec fn split_scan(s: Seq<char>, i: int) -> SplitAcc
    decreases i,
{
    if i <= 0 {
        SplitAcc { words: Seq::empty(), cur: Seq::empty() }
    } else {
        split_step(split_scan(s, i - 1), s[i - 1])
    }
}

/// The maximal runs of ASCII letters in `s`, in order of occurrence.
pub open spec fn words_of(s: Seq<char>) -> Seq<Seq<char>> {
    let acc = split_scan(s, s.len() as int);
    if acc.cur.len() > 0 {
        acc.words.push(acc.cur)
    } else {
        acc.words
    }
}

/// Splits `s` into its maximal runs of ASCII letters.
pub fn split_words(s: &str) -> (r: Vec<String>)
    ensures
        r.deep_view() == words_of(s@),
{
    let n = s.unicode_len();
    let mut words: Vec<String> = Vec::new();
    let mut start: usize = 0;
    let mut i: usize = 0;
    proof {
        assert(words.deep_view() =~= Seq::<Seq<char>>::empty());
        assert(s@.subrange(0, 0) =~= Seq::<char>::empty());
    }
    while i < n
        invariant
            n == s@.len(),
            0 <= start <= i <= n,
            split_scan(s@, i as int).cur == s@.subrange(start as int, i as int),
            split_scan(s@, i as int).words == words.deep_view(),
        decreases n - i,
    {
        let c = s.get_char(i);
        if word_char(c) {
            proof {
                assert(s@.subrange(start as int, i + 1) =~= s@.subrange(
                    start as int,
                    i as int,
                ).push(s@[i as int]));
            }
        } else {
            if start < i {
                let ghost pre = words.deep_view();
                let w = s.substring_char(start, i);
                words.push(w.to_owned());
                proof {
                    assert(words.deep_view() =~= pre.push(w@));
                }
            }
            start = i + 1;
            proof {
                assert(s@.subrange(i + 1, i + 1) =~= Seq::<char>::empty());
            }
        }
        i = i + 1;
    }
    if start < n {
        let ghost pre = words.deep_view();
        let w = s.substring_char(start, n);
        words.push(w.to_owned());
        proof {
            assert(words.deep_view() =~= pre.push(w@));
        }
    }
    words
}

/// Keeps the first occurrence of each string and drops later repeats.
pub open spec fn dedup_first(s: Seq<Seq<char>>) -> Seq<Seq<char>>
    decreases s.len(),
{
    if s.len() == 0 {
        Seq::empty()
    } else {
        let p = dedup_first(s.drop_last());
        if p.contains(s.last()) {
            p
        } else {
            p.push(s.last())
        }
    }
}

fn vec_contains_string(v: &Vec<String>, x: &String) -> (r: bool)
    ensures
        r == v.deep_view().contains(x@),
{
    let mut j: usize = 0;
    while j < v.len()
        invariant
            0 <= j <= v.len(),
            forall|k: int| 0 <= k < j ==> v.deep_view()[k] != x@,
        decreases v.len() - j,
    {
        if str_eq(v[j].as_str(), x.as_str()) {
            proof {
                assert(v.deep_view()[j as int] == x@);
            }
            return true;
        }
        j = j + 1;
    }
    proof {
        assert(!v.deep_view().contains(x@));
    }
    false
}

/// Removes later repeats, keeping the first occurrence of each string.
pub fn dedup_strings(v: Vec<String>) -> (r: Vec<String>)
    ensures
        r.deep_view() == dedup_first(v.deep_view()),
{
    let mut out: Vec<String> = Vec::new();
    let mut i: usize = 0;
    proof {
        assert(out.deep_view() =~= Seq::<Seq<char>>::empty());
        assert(v.deep_view().take(0) =~= Seq::<Seq<char>>::empty());
    }
    while i < v.len()
        invariant
            0 <= i <= v.len(),
            out.deep_view() == dedup_first(v.deep_view().take(i as int)),
        decreases v.len() - i,
    {
        let found = vec_contains_string(&out, &v[i]);
        let ghost pre = out.deep_view();
        if !found {
            let w = v[i].clone();
            out.push(w);
            proof {
                assert(out.deep_view() =~= pre.push(v.deep_view()[i as int]));
            }
        }
        proof {
            let d = v.deep_view();
            assert(d.take(i + 1).drop_last() =~= d.take(i as int));
            assert(d.take(i + 1).last() == d[i as int]);
        }
        i = i + 1;
    }
    proof {
        assert(v.deep_view().take(v@.len() as int) =~= v.deep_view());
    }
    out
}

} // verus!
