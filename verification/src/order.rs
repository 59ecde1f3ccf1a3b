//! Deterministic ordering of store indices: a lexicographic order on
//! character sequences, a spec-level insertion sort under an arbitrary
//! strict order, and the lemmas that make the sorted result unique.

use vstd::prelude::*;
use vstd::string::*;
use vstd::multiset::Multiset;
use crate::text::str_eq;

verus! {

broadcast use vstd::seq_lib::group_to_multiset_ensures;

/// Strict lexicographic order on character sequences, by code point; a
/// proper prefix comes first.
pub open spec fn lex_lt(a: Seq<char>, b: Seq<char>) -> bool
    decreases a.len(),
{
    if b.len() == 0 {
        false
    } else if a.len() == 0 {
        true
    } else if (a[0] as u32) < (b[0] as u32) {
        true
    } else if (b[0] as u32) < (a[0] as u32) {
        false
    } else {
        lex_lt(a.skip(1), b.skip(1))
    }
}

/// Two characters with the same code point are the same character.
proof fn lemma_char_cast_injective(a: char, b: char)
    requires
        a as u32 == b as u32,
    ensures
        a == b,
{
}

pub proof fn lemma_lex_lt_total(a: Seq<char>, b: Seq<char>)
    ensures
        lex_lt(a, b) || lex_lt(b, a) || a == b,
    decreases a.len(),
{
    if a.len() == 0 && b.len() == 0 {
        assert(a =~= b);
    } else if a.len() != 0 && b.len() != 0 && !((a[0] as u32) < (b[0] as u32)) && !((b[0] as u32)
        < (a[0] as u32)) {
        lemma_lex_lt_total(a.skip(1), b.skip(1));
        if a.skip(1) == b.skip(1) {
            assert(a.skip(1).len() == b.skip(1).len());
            assert(a.len() == b.len());
            assert(a[0] as u32 == b[0] as u32);
            lemma_char_cast_injective(a[0], b[0]);
            assert(a[0] == b[0]);
            assert forall|i: int| 0 <= i < a.len() implies a[i] == b[i] by {
                if i > 0 {
                    assert(a.skip(1)[i - 1] == a[i]);
                    assert(b.skip(1)[i - 1] == b[i]);
                }
            }
            assert(a =~= b);
        }
    }
}

pub proof fn lemma_lex_lt_irrefl(a: Seq<char>)
    ensures
        !lex_lt(a, a),
    decreases a.len(),
{
    if a.len() != 0 {
        lemma_lex_lt_irrefl(a.skip(1));
    }
}

pub proof fn lemma_lex_lt_trans(a: Seq<char>, b: Seq<char>, c: Seq<char>)
    requires
        lex_lt(a, b),
        lex_lt(b, c),
    ensures
        lex_lt(a, c),
    decreases a.len(),
{
    if a.len() != 0 && !((a[0] as u32) < (b[0] as u32)) && !((b[0] as u32) < (c[0] as u32)) {
        lemma_lex_lt_trans(a.skip(1), b.skip(1), c.skip(1));
    }
}

pub proof fn lemma_lex_lt_asym(a: Seq<char>, b: Seq<char>)
    requires
        lex_lt(a, b),
    ensures
        !lex_lt(b, a),
{
    if lex_lt(b, a) {
        lemma_lex_lt_trans(a, b, a);
        lemma_lex_lt_irrefl(a);
    }
}

/// Lexicographic comparison of two strings, decided over the views.
pub fn str_lex_lt(a: &str, b: &str) -> (r: bool)
    ensures
        r == lex_lt(a@, b@),
{
    let alen = a.unicode_len();
    let blen = b.unicode_len();
    let mut i: usize = 0;
    proof {
        assert(a@.skip(0) =~= a@);
        assert(b@.skip(0) =~= b@);
    }
    while i < alen && i < blen
        invariant
            alen == a@.len(),
            blen == b@.len(),
            0 <= i <= alen,
            0 <= i <= blen,
            lex_lt(a@, b@) == lex_lt(a@.skip(i as int), b@.skip(i as int)),
        decreases alen - i,
    {
        let ca = a.get_char(i);
        let cb = b.get_char(i);
        proof {
            assert(a@.skip(i as int)[0] == a@[i as int]);
            assert(b@.skip(i as int)[0] == b@[i as int]);
        }
        if (ca as u32) < (cb as u32) {
            return true;
        }
        if (cb as u32) < (ca as u32) {
            return false;
        }
        proof {
            assert(a@.skip(i as int).skip(1) =~= a@.skip(i as int + 1));
            assert(b@.skip(i as int).skip(1) =~= b@.skip(i as int + 1));
        }
        i += 1;
    }
    if i < blen {
        proof {
            assert(a@.skip(i as int).len() == 0);
            assert(b@.skip(i as int).len() > 0);
        }
        true
    } else {
        proof {
            assert(b@.skip(i as int).len() == 0);
        }
        false
    }
}

/// A strict total order among the indices a sequence holds: trichotomous,
/// asymmetric and transitive on them.
pub open spec fn strict_order_on(lt: spec_fn(usize, usize) -> bool, s: Seq<usize>) -> bool {
    &&& (forall|a: usize, b: usize|
        s.contains(a) && s.contains(b) && a != b ==> #[trigger] lt(a, b) || #[trigger] lt(b, a))
    &&& (forall|a: usize, b: usize|
        s.contains(a) && s.contains(b) && #[trigger] lt(a, b) ==> !lt(b, a))
    &&& (forall|a: usize, b: usize, c: usize|
        s.contains(a) && s.contains(b) && s.contains(c) && #[trigger] lt(a, b) && #[trigger] lt(
            b,
            c,
        ) ==> lt(a, c))
}

pub proof fn lemma_strict_order_on_subset(
    lt: spec_fn(usize, usize) -> bool,
    s1: Seq<usize>,
    s2: Seq<usize>,
)
    requires
        strict_order_on(lt, s2),
        forall|e: usize| s1.contains(e) ==> s2.contains(e),
    ensures
        strict_order_on(lt, s1),
{
}

/// `x` placed before the first element of `s` it precedes under `lt`.
pub open spec fn ordered_insert(lt: spec_fn(usize, usize) -> bool, x: usize, s: Seq<usize>) -> Seq<
    usize,
>
    decreases s.len(),
{
    if s.len() == 0 {
        seq![x]
    } else if lt(x, s[0]) {
        seq![x] + s
    } else {
        seq![s[0]] + ordered_insert(lt, x, s.skip(1))
    }
}

/// Insertion sort of a sequence of indices under `lt`: the unique
/// `lt`-sorted rearrangement when `lt` is a strict total order on them.
pub open spec fn order_seq(lt: spec_fn(usize, usize) -> bool, s: Seq<usize>) -> Seq<usize>
    decreases s.len(),
{
    if s.len() == 0 {
        Seq::empty()
    } else {
        ordered_insert(lt, s.last(), order_seq(lt, s.drop_last()))
    }
}

/// Every pair of positions is ordered by `lt`.
pub open spec fn sorted_by(lt: spec_fn(usize, usize) -> bool, s: Seq<usize>) -> bool {
    forall|p: int, q: int| 0 <= p < q < s.len() ==> lt(#[trigger] s[p], #[trigger] s[q])
}

pub proof fn lemma_ordered_insert_multiset(lt: spec_fn(usize, usize) -> bool, x: usize, s: Seq<
    usize,
>)
    ensures
        ordered_insert(lt, x, s).to_multiset() == s.to_multiset().insert(x),
    decreases s.len(),
{
    if s.len() == 0 {
        assert(seq![x] =~= Seq::<usize>::empty().push(x));
        assert(Seq::<usize>::empty().push(x).to_multiset() =~= Seq::<
            usize,
        >::empty().to_multiset().insert(x));
        assert(Seq::<usize>::empty().to_multiset() =~= Multiset::<usize>::empty());
        assert(ordered_insert(lt, x, s).to_multiset() =~= s.to_multiset().insert(x));
    } else if lt(x, s[0]) {
        assert(seq![x] + s =~= (seq![x] + s));
        vstd::seq_lib::lemma_multiset_commutative(seq![x], s);
        assert(seq![x].to_multiset() =~= Multiset::<usize>::empty().insert(x)) by {
            assert(seq![x] =~= Seq::<usize>::empty().push(x));
        }
        assert((seq![x] + s).to_multiset() =~= s.to_multiset().insert(x));
    } else {
        lemma_ordered_insert_multiset(lt, x, s.skip(1));
        let rest = ordered_insert(lt, x, s.skip(1));
        vstd::seq_lib::lemma_multiset_commutative(seq![s[0]], rest);
        vstd::seq_lib::lemma_multiset_commutative(seq![s[0]], s.skip(1));
        assert(seq![s[0]] + s.skip(1) =~= s);
        assert(seq![s[0]].to_multiset() =~= Multiset::<usize>::empty().insert(s[0])) by {
            assert(seq![s[0]] =~= Seq::<usize>::empty().push(s[0]));
        }
        assert((seq![s[0]] + rest).to_multiset() =~= s.to_multiset().insert(x));
    }
}

pub proof fn lemma_order_seq_multiset(lt: spec_fn(usize, usize) -> bool, s: Seq<usize>)
    ensures
        order_seq(lt, s).to_multiset() == s.to_multiset(),
    decreases s.len(),
{
    if s.len() != 0 {
        lemma_order_seq_multiset(lt, s.drop_last());
        lemma_ordered_insert_multiset(lt, s.last(), order_seq(lt, s.drop_last()));
        assert(s.drop_last().push(s.last()) =~= s);
        assert(s.drop_last().push(s.last()).to_multiset() =~= s.drop_last().to_multiset().insert(
            s.last(),
        ));
    }
}

/// Sorted sequences contain the same indices as what they were sorted from.
pub proof fn lemma_order_seq_contains(lt: spec_fn(usize, usize) -> bool, s: Seq<usize>, e: usize)
    ensures
        order_seq(lt, s).contains(e) == s.contains(e),
{
    lemma_order_seq_multiset(lt, s);
    assert(order_seq(lt, s).contains(e) == (order_seq(lt, s).to_multiset().count(e) > 0));
    assert(s.contains(e) == (s.to_multiset().count(e) > 0));
}

pub proof fn lemma_ordered_insert_sorted(lt: spec_fn(usize, usize) -> bool, x: usize, s: Seq<
    usize,
>)
    requires
        sorted_by(lt, s),
        strict_order_on(lt, s.push(x)),
        !s.contains(x),
    ensures
        sorted_by(lt, ordered_insert(lt, x, s)),
    decreases s.len(),
{
    assert(s.push(x).contains(x)) by {
        assert(s.push(x)[s.len() as int] == x);
    }
    assert(forall|e: usize| s.contains(e) ==> s.push(x).contains(e)) by {
        assert forall|e: usize| s.contains(e) implies s.push(x).contains(e) by {
            let j = choose|j: int| 0 <= j < s.len() && s[j] == e;
            assert(s.push(x)[j] == e);
        }
    }
    if s.len() == 0 {
    } else if lt(x, s[0]) {
        let r = seq![x] + s;
        assert forall|p: int, q: int| 0 <= p < q < r.len() implies lt(r[p], r[q]) by {
            if p == 0 {
                assert(r[q] == s[q - 1]);
                assert(s.contains(s[q - 1]));
                assert(s.contains(s[0]));
                if q > 1 {
                    assert(lt(s[0], s[q - 1]));
                    assert(lt(x, s[q - 1]));
                }
            } else {
                assert(r[p] == s[p - 1]);
                assert(r[q] == s[q - 1]);
            }
        }
    } else {
        // x comes after the head: the head precedes x and every element
        // of the inserted tail
        assert(s.contains(s[0]));
        assert(x != s[0]);
        assert(lt(s[0], x));
        let tail = s.skip(1);
        assert forall|p: int, q: int| 0 <= p < q < tail.len() implies lt(tail[p], tail[q]) by {
            assert(tail[p] == s[p + 1]);
            assert(tail[q] == s[q + 1]);
        }
        assert(forall|e: usize| tail.contains(e) ==> s.contains(e)) by {
            assert forall|e: usize| tail.contains(e) implies s.contains(e) by {
                let j = choose|j: int| 0 <= j < tail.len() && tail[j] == e;
                assert(s[j + 1] == e);
            }
        }
        if tail.contains(x) {
            let j = choose|j: int| 0 <= j < tail.len() && tail[j] == x;
            assert(s[j + 1] == x);
            assert(s.contains(x));
        }
        assert forall|e: usize| tail.push(x).contains(e) implies s.push(x).contains(e) by {
            let j = choose|j: int| 0 <= j < tail.push(x).len() && tail.push(x)[j] == e;
            if j < tail.len() {
                assert(tail[j] == e);
                assert(tail.contains(e));
            } else {
                assert(e == x);
            }
        }
        lemma_strict_order_on_subset(lt, tail.push(x), s.push(x));
        lemma_ordered_insert_sorted(lt, x, tail);
        let ins = ordered_insert(lt, x, tail);
        lemma_ordered_insert_multiset(lt, x, tail);
        assert(forall|e: usize| ins.contains(e) ==> e == x || tail.contains(e)) by {
            assert forall|e: usize| ins.contains(e) implies e == x || tail.contains(e) by {
                assert(ins.to_multiset().count(e) > 0);
                if e != x {
                    assert(tail.to_multiset().insert(x).count(e) == tail.to_multiset().count(e));
                }
            }
        }
        let r = seq![s[0]] + ins;
        assert forall|p: int, q: int| 0 <= p < q < r.len() implies lt(r[p], r[q]) by {
            if p == 0 {
                let e = r[q];
                assert(e == ins[q - 1]);
                assert(ins.contains(e));
                if e == x {
                    assert(lt(s[0], x));
                } else {
                    assert(tail.contains(e));
                    assert(s.contains(e));
                    let j = choose|j: int| 0 <= j < tail.len() && tail[j] == e;
                    assert(s[j + 1] == e);
                    assert(lt(s[0], s[j + 1]));
                }
            } else {
                assert(r[p] == ins[p - 1]);
                assert(r[q] == ins[q - 1]);
            }
        }
    }
}

pub proof fn lemma_order_seq_sorted(lt: spec_fn(usize, usize) -> bool, s: Seq<usize>)
    requires
        strict_order_on(lt, s),
        s.no_duplicates(),
    ensures
        sorted_by(lt, order_seq(lt, s)),
    decreases s.len(),
{
    if s.len() != 0 {
        let x = s.last();
        let dl = s.drop_last();
        assert(forall|e: usize| dl.contains(e) ==> s.contains(e)) by {
            assert forall|e: usize| dl.contains(e) implies s.contains(e) by {
                let j = choose|j: int| 0 <= j < dl.len() && dl[j] == e;
                assert(s[j] == e);
            }
        }
        lemma_strict_order_on_subset(lt, dl, s);
        assert(dl.no_duplicates());
        lemma_order_seq_sorted(lt, dl);
        let sorted_dl = order_seq(lt, dl);
        assert(forall|e: usize| sorted_dl.contains(e) ==> dl.contains(e)) by {
            assert forall|e: usize| sorted_dl.contains(e) implies dl.contains(e) by {
                lemma_order_seq_contains(lt, dl, e);
            }
        }
        assert(!dl.contains(x)) by {
            if dl.contains(x) {
                let j = choose|j: int| 0 <= j < dl.len() && dl[j] == x;
                assert(s[j] == s[s.len() - 1]);
            }
        }
        assert(!sorted_dl.contains(x));
        assert(forall|e: usize| sorted_dl.push(x).contains(e) ==> s.contains(e)) by {
            assert forall|e: usize| sorted_dl.push(x).contains(e) implies s.contains(e) by {
                let j = choose|j: int| 0 <= j < sorted_dl.push(x).len() && sorted_dl.push(x)[j]
                    == e;
                if j < sorted_dl.len() {
                    assert(sorted_dl[j] == e);
                    assert(sorted_dl.contains(e));
                } else {
                    assert(e == x);
                    assert(s.contains(x)) by {
                        assert(s[s.len() - 1] == x);
                    }
                }
            }
        }
        lemma_strict_order_on_subset(lt, sorted_dl.push(x), s);
        lemma_ordered_insert_sorted(lt, x, sorted_dl);
    }
}

/// Where the first `lt`-successor of `x` sits, the insertion happens.
pub proof fn lemma_ordered_insert_at(
    lt: spec_fn(usize, usize) -> bool,
    x: usize,
    s: Seq<usize>,
    p: int,
)
    requires
        0 <= p <= s.len(),
        forall|j: int| 0 <= j < p ==> !lt(x, #[trigger] s[j]),
        p < s.len() ==> lt(x, s[p]),
    ensures
        ordered_insert(lt, x, s) == s.insert(p, x),
    decreases s.len(),
{
    if s.len() == 0 {
        assert(seq![x] =~= s.insert(0, x));
    } else if p == 0 {
        assert(lt(x, s[0]));
        assert(seq![x] + s =~= s.insert(0, x));
    } else {
        assert(!lt(x, s[0]));
        let tail = s.skip(1);
        assert forall|j: int| 0 <= j < p - 1 implies !lt(x, #[trigger] tail[j]) by {
            assert(tail[j] == s[j + 1]);
        }
        if p - 1 < tail.len() {
            assert(tail[p - 1] == s[p]);
        }
        lemma_ordered_insert_at(lt, x, tail, p - 1);
        assert(seq![s[0]] + tail.insert(p - 1, x) =~= s.insert(p, x));
    }
}

} // verus!



verus! {

/// Order on store indices used by category membership: lowercased display
/// name first, original index as the tie-break.
pub open spec fn name_order(keys: Seq<Seq<char>>) -> spec_fn(usize, usize) -> bool {
    |i: usize, j: usize|
        lex_lt(keys[i as int], keys[j as int]) || (keys[i as int] == keys[j as int] && i < j)
}

/// Order on store indices used by ranking: higher score first, original
/// index as the tie-break.
pub open spec fn score_order(scores: Seq<u64>) -> spec_fn(usize, usize) -> bool {
    |i: usize, j: usize|
        scores[i as int] > scores[j as int] || (scores[i as int] == scores[j as int] && i < j)
}

pub proof fn lemma_name_order_strict(keys: Seq<Seq<char>>, s: Seq<usize>)
    ensures
        strict_order_on(name_order(keys), s),
{
    let lt = name_order(keys);
    assert forall|a: usize, b: usize| s.contains(a) && s.contains(b) && a != b implies #[trigger] lt(
        a,
        b,
    ) || #[trigger] lt(b, a) by {
        lemma_lex_lt_total(keys[a as int], keys[b as int]);
    }
    assert forall|a: usize, b: usize| s.contains(a) && s.contains(b) && #[trigger] lt(a, b) implies !lt(
        b,
        a,
    ) by {
        if lex_lt(keys[a as int], keys[b as int]) {
            lemma_lex_lt_asym(keys[a as int], keys[b as int]);
            lemma_lex_lt_irrefl(keys[a as int]);
        } else {
            lemma_lex_lt_irrefl(keys[a as int]);
        }
    }
    assert forall|a: usize, b: usize, c: usize|
        s.contains(a) && s.contains(b) && s.contains(c) && #[trigger] lt(a, b) && #[trigger] lt(
            b,
            c,
        ) implies lt(a, c) by {
        if lex_lt(keys[a as int], keys[b as int]) && lex_lt(keys[b as int], keys[c as int]) {
            lemma_lex_lt_trans(keys[a as int], keys[b as int], keys[c as int]);
        }
    }
}

pub proof fn lemma_score_order_strict(scores: Seq<u64>, s: Seq<usize>)
    ensures
        strict_order_on(score_order(scores), s),
{
}

/// Lexicographic-then-index comparison of two indices into `keys`.
fn name_lt(keys: &Vec<String>, a: usize, b: usize) -> (r: bool)
    requires
        a < keys@.len(),
        b < keys@.len(),
    ensures
        r == name_order(keys.deep_view())(a, b),
{
    proof {
        assert(keys.deep_view()[a as int] == keys@[a as int]@);
        assert(keys.deep_view()[b as int] == keys@[b as int]@);
    }
    if str_lex_lt(keys[a].as_str(), keys[b].as_str()) {
        true
    } else if a < b && str_eq(keys[a].as_str(), keys[b].as_str()) {
        true
    } else {
        false
    }
}

/// Score-then-index comparison of two indices into `scores`.
fn score_lt(scores: &Vec<u64>, a: usize, b: usize) -> (r: bool)
    requires
        a < scores@.len(),
        b < scores@.len(),
    ensures
        r == score_order(scores@)(a, b),
{
    let sa = scores[a];
    let sb = scores[b];
    sa > sb || (sa == sb && a < b)
}

fn insert_by_name(out: &mut Vec<usize>, keys: &Vec<String>, x: usize)
    requires
        x < keys@.len(),
        forall|k: int| 0 <= k < old(out)@.len() ==> old(out)@[k] < keys@.len(),
    ensures
        final(out)@ == ordered_insert(name_order(keys.deep_view()), x, old(out)@),
        forall|k: int| 0 <= k < final(out)@.len() ==> final(out)@[k] < keys@.len(),
{
    let ghost lt = name_order(keys.deep_view());
    let n = out.len();
    let mut p: usize = 0;
    while p < n && !name_lt(keys, x, out[p])
        invariant
            n == out@.len(),
            0 <= p <= n,
            x < keys@.len(),
            forall|k: int| 0 <= k < out@.len() ==> out@[k] < keys@.len(),
            forall|j: int| 0 <= j < p ==> !lt(x, #[trigger] out@[j]),
            lt == name_order(keys.deep_view()),
        decreases n - p,
    {
        p += 1;
    }
    proof {
        lemma_ordered_insert_at(lt, x, out@, p as int);
    }
    let ghost before = out@;
    out.insert(p, x);
    proof {
        assert(out@ =~= before.take(p as int) + seq![x] + before.skip(p as int));
        assert forall|k: int| 0 <= k < out@.len() implies out@[k] < keys@.len() by {
            if k < p {
                assert(out@[k] == before[k]);
            } else if k > p {
                assert(out@[k] == before[k - 1]);
            }
        }
    }
}

fn insert_by_score(out: &mut Vec<usize>, scores: &Vec<u64>, x: usize)
    requires
        x < scores@.len(),
        forall|k: int| 0 <= k < old(out)@.len() ==> old(out)@[k] < scores@.len(),
    ensures
        final(out)@ == ordered_insert(score_order(scores@), x, old(out)@),
        forall|k: int| 0 <= k < final(out)@.len() ==> final(out)@[k] < scores@.len(),
{
    let ghost lt = score_order(scores@);
    let n = out.len();
    let mut p: usize = 0;
    while p < n && !score_lt(scores, x, out[p])
        invariant
            n == out@.len(),
            0 <= p <= n,
            x < scores@.len(),
            forall|k: int| 0 <= k < out@.len() ==> out@[k] < scores@.len(),
            forall|j: int| 0 <= j < p ==> !lt(x, #[trigger] out@[j]),
            lt == score_order(scores@),
        decreases n - p,
    {
        p += 1;
    }
    proof {
        lemma_ordered_insert_at(lt, x, out@, p as int);
    }
    let ghost before = out@;
    out.insert(p, x);
    proof {
        assert(out@ =~= before.take(p as int) + seq![x] + before.skip(p as int));
        assert forall|k: int| 0 <= k < out@.len() implies out@[k] < scores@.len() by {
            if k < p {
                assert(out@[k] == before[k]);
            } else if k > p {
                assert(out@[k] == before[k - 1]);
            }
        }
    }
}

/// Insertion sort of store indices under the lowercased-name order.
pub fn sort_indices_by_name(v: &Vec<usize>, keys: &Vec<String>) -> (r: Vec<usize>)
    requires
        forall|k: int| 0 <= k < v@.len() ==> v@[k] < keys@.len(),
    ensures
        r@ == order_seq(name_order(keys.deep_view()), v@),
{
    let ghost lt = name_order(keys.deep_view());
    let mut out: Vec<usize> = Vec::new();
    let n = v.len();
    let mut i: usize = 0;
    proof {
        assert(v@.take(0) =~= Seq::<usize>::empty());
    }
    while i < n
        invariant
            n == v@.len(),
            0 <= i <= n,
            forall|k: int| 0 <= k < v@.len() ==> v@[k] < keys@.len(),
            forall|k: int| 0 <= k < out@.len() ==> out@[k] < keys@.len(),
            out@ == order_seq(lt, v@.take(i as int)),
            lt == name_order(keys.deep_view()),
        decreases n - i,
    {
        insert_by_name(&mut out, keys, v[i]);
        proof {
            let t = v@.take(i as int + 1);
            assert(t.drop_last() =~= v@.take(i as int));
            assert(t.last() == v@[i as int]);
        }
        i += 1;
    }
    proof {
        assert(v@.take(n as int) =~= v@);
    }
    out
}

/// Insertion sort of store indices under the score order.
pub fn sort_indices_by_score(v: &Vec<usize>, scores: &Vec<u64>) -> (r: Vec<usize>)
    requires
        forall|k: int| 0 <= k < v@.len() ==> v@[k] < scores@.len(),
    ensures
        r@ == order_seq(score_order(scores@), v@),
{
    let ghost lt = score_order(scores@);
    let mut out: Vec<usize> = Vec::new();
    let n = v.len();
    let mut i: usize = 0;
    proof {
        assert(v@.take(0) =~= Seq::<usize>::empty());
    }
    while i < n
        invariant
            n == v@.len(),
            0 <= i <= n,
            forall|k: int| 0 <= k < v@.len() ==> v@[k] < scores@.len(),
            forall|k: int| 0 <= k < out@.len() ==> out@[k] < scores@.len(),
            out@ == order_seq(lt, v@.take(i as int)),
            lt == score_order(scores@),
        decreases n - i,
    {
        insert_by_score(&mut out, scores, v[i]);
        proof {
            let t = v@.take(i as int + 1);
            assert(t.drop_last() =~= v@.take(i as int));
            assert(t.last() == v@[i as int]);
        }
        i += 1;
    }
    proof {
        assert(v@.take(n as int) =~= v@);
    }
    out
}

} // verus!
