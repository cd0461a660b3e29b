//! What sequence operations keep when their input is reordered, and the
//! uniqueness of sorted orders.
use vstd::prelude::*;
use vstd::relations::{sorted_by, total_ordering};
use crate::order::{
    ascending, keys_lt, law_isort_by_sorts, lemma_keys_lt_irreflexive, lemma_keys_lt_trans,
    lemma_row_isort_is_isort_by, lemma_sorted_set_contains, lemma_sorted_set_keeps,
    lemma_sorted_set_strict, lemma_text_isort_multiset, lemma_text_isort_sorted, lemma_text_le_trans,
    lemma_text_lt_irreflexive, lemma_text_lt_total, lemma_text_lt_trans, row_isort, row_key,
    sorted_set, strictly_ascending, text_isort,
};
use crate::text::{concat_map, text_lt};

verus! {

/// `filter_map` of a concatenation is the concatenation of the `filter_map`s.
pub proof fn lemma_filter_map_add<A, B>(a: Seq<A>, b: Seq<A>, f: spec_fn(A) -> Option<B>)
    ensures
        (a + b).filter_map(f) == a.filter_map(f) + b.filter_map(f),
    decreases b.len(),
{
    if b.len() == 0 {
        assert(a + b =~= a);
        assert(a.filter_map(f) + b.filter_map(f) =~= a.filter_map(f));
    } else {
        lemma_filter_map_add(a, b.drop_last(), f);
        assert((a + b).drop_last() =~= a + b.drop_last());
        assert((a + b).last() == b.last());
        match f(b.last()) {
            Some(y) => {
                assert(a.filter_map(f) + b.drop_last().filter_map(f).push(y) =~= (a.filter_map(f)
                    + b.drop_last().filter_map(f)).push(y));
            },
            None => {},
        }
    }
}

/// `filter_map` of reordered input gives reordered output.
pub proof fn lemma_filter_map_perm<A, B>(s1: Seq<A>, s2: Seq<A>, f: spec_fn(A) -> Option<B>)
    requires
        s1.to_multiset() == s2.to_multiset(),
    ensures
        s1.filter_map(f).to_multiset() == s2.filter_map(f).to_multiset(),
    decreases s1.len(),
{
    broadcast use vstd::seq_lib::group_to_multiset_ensures;
    broadcast use vstd::seq_lib::lemma_multiset_commutative;

    if s1.len() == 0 {
        vstd::seq_lib::to_multiset_len(s1);
        vstd::seq_lib::to_multiset_len(s2);
        assert(s2.len() == 0);
        assert(s1 =~= s2);
    } else {
        let x = s1.last();
        let init = s1.drop_last();
        assert(s1 =~= init.push(x));
        assert(s1[s1.len() - 1] == x);
        assert(s1.contains(x));
        assert(s1.to_multiset().count(x) > 0);
        assert(s2.to_multiset().count(x) > 0);
        let k = choose|k: int| 0 <= k < s2.len() && s2[k] == x;
        let r2 = s2.remove(k);
        assert(r2.to_multiset() == s2.to_multiset().remove(x));
        assert(init.to_multiset() =~= s1.to_multiset().remove(x));
        lemma_filter_map_perm(init, r2, f);
        let pre = s2.take(k);
        let post = s2.skip(k + 1);
        assert(s2 =~= pre + seq![x] + post);
        assert(r2 =~= pre + post);
        lemma_filter_map_add(pre + seq![x], post, f);
        lemma_filter_map_add(pre, seq![x], f);
        lemma_filter_map_add(pre, post, f);
        let one = seq![x].filter_map(f);
        assert(seq![x].drop_last() =~= Seq::<A>::empty());
        assert(seq![x].last() == x);
        assert(Seq::<A>::empty().filter_map(f) =~= Seq::<B>::empty());
        assert(s1.filter_map(f) == init.filter_map(f) + one) by {
            match f(x) {
                Some(y) => {
                    assert(one =~= seq![y]);
                    assert(init.filter_map(f).push(y) =~= init.filter_map(f) + seq![y]);
                },
                None => {
                    assert(one =~= Seq::<B>::empty());
                    assert(init.filter_map(f) + one =~= init.filter_map(f));
                },
            }
        }
        let fp = pre.filter_map(f);
        let fq = post.filter_map(f);
        assert(s2.filter_map(f) == fp + one + fq);
        assert(r2.filter_map(f) == fp + fq);
        assert(s2.filter_map(f).to_multiset() =~= fp.to_multiset().add(one.to_multiset()).add(
            fq.to_multiset(),
        ));
        assert(r2.filter_map(f).to_multiset() =~= fp.to_multiset().add(fq.to_multiset()));
        assert(s1.filter_map(f).to_multiset() =~= init.filter_map(f).to_multiset().add(one.to_multiset()));
    }
}

/// A `filter` is the `filter_map` that keeps what passes.
pub proof fn lemma_filter_is_filter_map<A>(s: Seq<A>, p: spec_fn(A) -> bool)
    ensures
        s.filter(p) == s.filter_map(
            |x: A|
                if p(x) {
                    Some(x)
                } else {
                    None
                },
        ),
    decreases s.len(),
{
    let g = |x: A|
        if p(x) {
            Some(x)
        } else {
            None
        };
    if s.len() == 0 {
        assert(s.filter(p) =~= Seq::<A>::empty());
    } else {
        lemma_filter_is_filter_map(s.drop_last(), p);
        assert(s =~= s.drop_last().push(s.last()));
        s.drop_last().lemma_filter_push(s.last(), p);
    }
}

/// A `map_values` is the `filter_map` that keeps everything.
pub proof fn lemma_map_is_filter_map<A, B>(s: Seq<A>, h: spec_fn(A) -> B)
    ensures
        s.map_values(h) == s.filter_map(|x: A| Some(h(x))),
    decreases s.len(),
{
    if s.len() == 0 {
        assert(s.map_values(h) =~= Seq::<B>::empty());
    } else {
        lemma_map_is_filter_map(s.drop_last(), h);
        assert(s.map_values(h) =~= s.drop_last().map_values(h).push(h(s.last())));
    }
}

/// Texts compared by "not after" form a total order.
pub proof fn lemma_text_le_total_ordering()
    ensures
        total_ordering(|a: Seq<char>, b: Seq<char>| !text_lt(b, a)),
{
    let leq = |a: Seq<char>, b: Seq<char>| !text_lt(b, a);
    assert forall|x: Seq<char>| #[trigger] leq(x, x) by {
        lemma_text_lt_irreflexive(x);
    }
    assert forall|x: Seq<char>, y: Seq<char>| #[trigger] leq(x, y) && #[trigger] leq(y, x) implies x == y by {
        lemma_text_lt_total(x, y);
    }
    assert forall|x: Seq<char>, y: Seq<char>, z: Seq<char>|
        #[trigger] leq(x, y) && #[trigger] leq(y, z) implies leq(x, z) by {
        lemma_text_le_trans(x, y, z);
    }
    assert forall|x: Seq<char>, y: Seq<char>| #[trigger] leq(x, y) || #[trigger] leq(y, x) by {
        lemma_text_lt_total(x, y);
        if text_lt(x, y) && text_lt(y, x) {
            lemma_text_lt_trans(x, y, x);
            lemma_text_lt_irreflexive(x);
        }
    }
}

/// Two ascending orders of the same texts are the same sequence.
pub proof fn lemma_ascending_unique(a: Seq<Seq<char>>, b: Seq<Seq<char>>)
    requires
        ascending(a),
        ascending(b),
        a.to_multiset() == b.to_multiset(),
    ensures
        a == b,
{
    let leq = |x: Seq<char>, y: Seq<char>| !text_lt(y, x);
    lemma_text_le_total_ordering();
    assert(sorted_by(a, leq));
    assert(sorted_by(b, leq));
    vstd::seq_lib::lemma_sorted_unique(a, b, leq);
}

/// Either of two different key tuples comes first.
pub proof fn lemma_keys_lt_total(a: Seq<Seq<char>>, b: Seq<Seq<char>>)
    ensures
        a == b || keys_lt(a, b) || keys_lt(b, a),
    decreases a.len(),
{
    if a.len() == 0 && b.len() == 0 {
        assert(a =~= b);
    } else if a.len() > 0 && b.len() > 0 {
        if a[0] != b[0] {
            lemma_text_lt_total(a[0], b[0]);
        } else {
            lemma_keys_lt_total(a.drop_first(), b.drop_first());
            if a.drop_first() == b.drop_first() {
                assert(a =~= seq![a[0]] + a.drop_first());
                assert(b =~= seq![b[0]] + b.drop_first());
            }
        }
    }
}

/// Key tuples compared by "not after" form a total order.
pub proof fn lemma_keys_le_total_ordering()
    ensures
        total_ordering(|a: Seq<Seq<char>>, b: Seq<Seq<char>>| !keys_lt(b, a)),
{
    let leq = |a: Seq<Seq<char>>, b: Seq<Seq<char>>| !keys_lt(b, a);
    assert forall|x: Seq<Seq<char>>| #[trigger] leq(x, x) by {
        lemma_keys_lt_irreflexive(x);
    }
    assert forall|x: Seq<Seq<char>>, y: Seq<Seq<char>>| #[trigger] leq(x, y) && #[trigger] leq(y, x) implies x
        == y by {
        lemma_keys_lt_total(x, y);
    }
    assert forall|x: Seq<Seq<char>>, y: Seq<Seq<char>>, z: Seq<Seq<char>>|
        #[trigger] leq(x, y) && #[trigger] leq(y, z) implies leq(x, z) by {
        lemma_keys_lt_total(x, y);
        lemma_keys_lt_total(y, z);
        if keys_lt(z, x) {
            if keys_lt(x, y) {
                lemma_keys_lt_trans(z, x, y);
                if keys_lt(y, z) {
                    lemma_keys_lt_trans(z, y, z);
                    lemma_keys_lt_irreflexive(z);
                }
            } else if keys_lt(y, z) {
                lemma_keys_lt_trans(y, z, x);
            }
        }
    }
    assert forall|x: Seq<Seq<char>>, y: Seq<Seq<char>>| #[trigger] leq(x, y) || #[trigger] leq(y, x) by {
        lemma_keys_lt_total(x, y);
        if keys_lt(x, y) && keys_lt(y, x) {
            lemma_keys_lt_trans(x, y, x);
            lemma_keys_lt_irreflexive(x);
        }
    }
}

/// Two orders of the same key tuples, each never descending, are the same
/// sequence.
pub proof fn lemma_keys_sorted_unique(a: Seq<Seq<Seq<char>>>, b: Seq<Seq<Seq<char>>>)
    requires
        forall|i: int, j: int| 0 <= i < j < a.len() ==> !keys_lt(#[trigger] a[j], #[trigger] a[i]),
        forall|i: int, j: int| 0 <= i < j < b.len() ==> !keys_lt(#[trigger] b[j], #[trigger] b[i]),
        a.to_multiset() == b.to_multiset(),
    ensures
        a == b,
{
    let leq = |x: Seq<Seq<char>>, y: Seq<Seq<char>>| !keys_lt(y, x);
    lemma_keys_le_total_ordering();
    assert(sorted_by(a, leq));
    assert(sorted_by(b, leq));
    vstd::seq_lib::lemma_sorted_unique(a, b, leq);
}

/// `concat_map` of two functions that agree on every element is the same.
pub proof fn lemma_concat_map_agree<A>(xs: Seq<A>, f: spec_fn(A) -> Seq<char>, g: spec_fn(A) -> Seq<char>)
    requires
        forall|i: int| 0 <= i < xs.len() ==> f(#[trigger] xs[i]) == g(xs[i]),
    ensures
        concat_map(xs, f) == concat_map(xs, g),
    decreases xs.len(),
{
    if xs.len() > 0 {
        let init = xs.drop_last();
        assert forall|i: int| 0 <= i < init.len() implies f(#[trigger] init[i]) == g(init[i]) by {
            assert(init[i] == xs[i]);
        }
        lemma_concat_map_agree(init, f, g);
        assert(f(xs[xs.len() - 1]) == g(xs[xs.len() - 1]));
    }
}

/// `concat_map` through `h` then `f` is `concat_map` of `f` over the
/// `h`-images.
pub proof fn lemma_concat_map_map<A, B>(xs: Seq<A>, h: spec_fn(A) -> B, f: spec_fn(B) -> Seq<char>)
    ensures
        concat_map(xs, |x: A| f(h(x))) == concat_map(xs.map_values(h), f),
    decreases xs.len(),
{
    if xs.len() > 0 {
        lemma_concat_map_map(xs.drop_last(), h, f);
        assert(xs.map_values(h).drop_last() =~= xs.drop_last().map_values(h));
    }
}


/// Sorting reordered texts gives the same sequence.
pub proof fn lemma_text_isort_perm(s1: Seq<Seq<char>>, s2: Seq<Seq<char>>)
    requires
        s1.to_multiset() == s2.to_multiset(),
    ensures
        text_isort(s1) == text_isort(s2),
{
    lemma_text_isort_multiset(s1);
    lemma_text_isort_multiset(s2);
    lemma_text_isort_sorted(s1);
    lemma_text_isort_sorted(s2);
    lemma_ascending_unique(text_isort(s1), text_isort(s2));
}

/// Sorting reordered rows gives the same sequence.
pub proof fn lemma_row_isort_perm(s1: Seq<Seq<Seq<char>>>, s2: Seq<Seq<Seq<char>>>)
    requires
        s1.to_multiset() == s2.to_multiset(),
    ensures
        row_isort(s1) == row_isort(s2),
{
    lemma_row_isort_is_isort_by(s1);
    lemma_row_isort_is_isort_by(s2);
    law_isort_by_sorts(s1, |x: Seq<Seq<char>>| row_key(x));
    law_isort_by_sorts(s2, |x: Seq<Seq<char>>| row_key(x));
    lemma_keys_sorted_unique(row_isort(s1), row_isort(s2));
}

proof fn lemma_strict_no_duplicates(s: Seq<Seq<char>>)
    requires
        strictly_ascending(s),
    ensures
        ascending(s),
        s.no_duplicates(),
{
    assert forall|i: int, j: int| 0 <= i < j < s.len() implies !text_lt(#[trigger] s[j], #[trigger] s[i]) by {
        if text_lt(s[j], s[i]) {
            lemma_text_lt_trans(s[i], s[j], s[i]);
            lemma_text_lt_irreflexive(s[i]);
        }
    }
    assert forall|i: int, j: int| 0 <= i < s.len() && 0 <= j < s.len() && i != j implies s[i] != s[j] by {
        if i < j {
            assert(text_lt(s[i], s[j]));
        } else {
            assert(text_lt(s[j], s[i]));
        }
        lemma_text_lt_irreflexive(s[i]);
    }
}

/// The sorted set of texts depends only on which texts occur.
pub proof fn lemma_sorted_set_perm(s1: Seq<Seq<char>>, s2: Seq<Seq<char>>)
    requires
        forall|y: Seq<char>| s1.contains(y) <==> s2.contains(y),
    ensures
        sorted_set(s1) == sorted_set(s2),
{
    broadcast use vstd::seq_lib::group_to_multiset_ensures;

    let a = sorted_set(s1);
    let b = sorted_set(s2);
    lemma_sorted_set_strict(s1);
    lemma_sorted_set_strict(s2);
    lemma_sorted_set_contains(s1);
    lemma_sorted_set_contains(s2);
    lemma_sorted_set_keeps(s1);
    lemma_sorted_set_keeps(s2);
    lemma_strict_no_duplicates(a);
    lemma_strict_no_duplicates(b);
    a.lemma_multiset_has_no_duplicates();
    b.lemma_multiset_has_no_duplicates();
    assert forall|y: Seq<char>| a.to_multiset().count(y) == b.to_multiset().count(y) by {
        if a.contains(y) {
            assert(s1.contains(y));
            assert(b.contains(y));
            assert(a.to_multiset().contains(y));
            assert(b.to_multiset().contains(y));
        } else {
            if b.contains(y) {
                assert(s2.contains(y));
                assert(a.contains(y));
            }
        }
    }
    assert(a.to_multiset() =~= b.to_multiset());
    lemma_ascending_unique(a, b);
}

} // verus!
