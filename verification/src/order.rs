//! Stable sorting by text keys, and sorted sets of texts.
use vstd::prelude::*;
use crate::text::{chars_eq, copy_chars, text_lt, text_lt_exec, texts};

verus! {

/// Lexicographic order of key tuples, each component compared as text
/// (the order of `Ord` on tuples of `String`s).
pub open spec fn keys_lt(a: Seq<Seq<char>>, b: Seq<Seq<char>>) -> bool
    decreases a.len(),
{
    if a.len() == 0 {
        b.len() > 0
    } else if b.len() == 0 {
        false
    } else if a[0] != b[0] {
        text_lt(a[0], b[0])
    } else {
        keys_lt(a.drop_first(), b.drop_first())
    }
}

/// A value ordered by a tuple of texts.
pub trait Keyed: Sized {
    spec fn key(&self) -> Seq<Seq<char>>;

    fn key_lt(&self, other: &Self) -> (r: bool)
        ensures
            r == keys_lt(self.key(), other.key()),
    ;
}

/// One-component keys compare as their texts.
pub proof fn lemma_keys_lt_single(a: Seq<char>, b: Seq<char>)
    ensures
        keys_lt(seq![a], seq![b]) == text_lt(a, b),
{
    if a == b {
        assert(seq![a].drop_first() =~= Seq::<Seq<char>>::empty());
        assert(seq![b].drop_first() =~= Seq::<Seq<char>>::empty());
        assert(!keys_lt(Seq::<Seq<char>>::empty(), Seq::<Seq<char>>::empty()));
        lemma_text_lt_irreflexive(a);
    }
}

/// Two-component keys compare by the first component, then the second.
pub proof fn lemma_keys_lt_pair(a: Seq<char>, b: Seq<char>, c: Seq<char>, d: Seq<char>)
    ensures
        keys_lt(seq![a, b], seq![c, d]) == (if a != c {
            text_lt(a, c)
        } else {
            text_lt(b, d)
        }),
{
    if a == c {
        assert(seq![a, b].drop_first() =~= seq![b]);
        assert(seq![c, d].drop_first() =~= seq![d]);
        lemma_keys_lt_single(b, d);
    }
}

/// No text is below itself.
pub proof fn lemma_text_lt_irreflexive(a: Seq<char>)
    ensures
        !text_lt(a, a),
    decreases a.len(),
{
    if a.len() > 0 {
        lemma_text_lt_irreflexive(a.drop_first());
    }
}

/// `s` with `x` placed after every element whose key is not above its own
/// (one step of a stable insertion sort).
pub open spec fn ins<T: Keyed>(s: Seq<T>, x: T) -> Seq<T>
    decreases s.len(),
{
    if s.len() == 0 || !keys_lt(x.key(), s.last().key()) {
        s.push(x)
    } else {
        ins(s.drop_last(), x).push(s.last())
    }
}

/// `s` stably sorted by key.
pub open spec fn isort<T: Keyed>(s: Seq<T>) -> Seq<T>
    decreases s.len(),
{
    if s.len() == 0 {
        s
    } else {
        ins(isort(s.drop_last()), s.last())
    }
}

proof fn lemma_ins_at<T: Keyed>(s: Seq<T>, x: T, p: int)
    requires
        0 <= p <= s.len(),
        forall|j: int| p <= j < s.len() ==> keys_lt(x.key(), #[trigger] s[j].key()),
        p == 0 || !keys_lt(x.key(), s[p - 1].key()),
    ensures
        ins(s, x) == s.take(p) + seq![x] + s.skip(p),
    decreases s.len(),
{
    if p == s.len() {
        assert(s.take(p) + seq![x] + s.skip(p) =~= s.push(x));
    } else {
        assert(keys_lt(x.key(), s[s.len() - 1].key()));
        lemma_ins_at(s.drop_last(), x, p);
        assert(s.drop_last().take(p) + seq![x] + s.drop_last().skip(p) + seq![s.last()] =~= s.take(
            p,
        ) + seq![x] + s.skip(p));
    }
}

/// Inserts `x` into `out` where `ins` places it.
pub fn insert_keyed<T: Keyed>(out: &mut Vec<T>, x: T)
    ensures
        final(out)@ == ins(old(out)@, x),
{
    let mut p = out.len();
    while p > 0 && x.key_lt(&out[p - 1])
        invariant
            p <= out@.len(),
            out@ == old(out)@,
            forall|j: int| p <= j < out@.len() ==> keys_lt(x.key(), #[trigger] out@[j].key()),
        decreases p,
    {
        p = p - 1;
    }
    proof {
        lemma_ins_at(out@, x, p as int);
    }
    out.insert(p, x);
    assert(out@ =~= old(out)@.take(p as int) + seq![x] + old(out)@.skip(p as int));
}

/// `v` stably sorted by key (what `sort_by` with the key order returns).
pub fn sort_keyed<T: Keyed>(v: Vec<T>) -> (r: Vec<T>)
    ensures
        r@ == isort(v@),
{
    let ghost orig = v@;
    let mut v = v;
    let mut out: Vec<T> = Vec::new();
    let mut i: usize = 0;
    let n = v.len();
    assert(orig.take(0) =~= Seq::<T>::empty());
    while v.len() > 0
        invariant
            n == orig.len(),
            i + v@.len() == n,
            v@ == orig.skip(i as int),
            out@ == isort(orig.take(i as int)),
        decreases v@.len(),
    {
        let x = v.remove(0);
        assert(orig.take(i + 1).drop_last() =~= orig.take(i as int));
        assert(orig.take(i + 1).last() == x);
        insert_keyed(&mut out, x);
        assert(v@ =~= orig.skip(i + 1));
        i = i + 1;
    }
    assert(orig.take(n as int) =~= orig);
    out
}

/// `s` with `x` placed after every element whose key under `k` is not above
/// its own (insertion by a key function).
pub open spec fn ins_by<A>(s: Seq<A>, x: A, k: spec_fn(A) -> Seq<Seq<char>>) -> Seq<A>
    decreases s.len(),
{
    if s.len() == 0 || !keys_lt(k(x), k(s.last())) {
        s.push(x)
    } else {
        ins_by(s.drop_last(), x, k).push(s.last())
    }
}

/// `s` stably sorted by the key function `k`.
pub open spec fn isort_by<A>(s: Seq<A>, k: spec_fn(A) -> Seq<Seq<char>>) -> Seq<A>
    decreases s.len(),
{
    if s.len() == 0 {
        s
    } else {
        ins_by(isort_by(s.drop_last(), k), s.last(), k)
    }
}

proof fn lemma_ins_map<T: Keyed, A>(
    s: Seq<T>,
    x: T,
    f: spec_fn(T) -> A,
    k: spec_fn(A) -> Seq<Seq<char>>,
)
    requires
        forall|y: T| #[trigger] k(f(y)) == y.key(),
    ensures
        ins(s, x).map_values(f) == ins_by(s.map_values(f), f(x), k),
    decreases s.len(),
{
    assert(k(f(x)) == x.key());
    if s.len() == 0 {
        assert(ins(s, x).map_values(f) =~= seq![f(x)]);
        assert(ins_by(s.map_values(f), f(x), k) =~= seq![f(x)]);
    } else {
        assert(k(f(s.last())) == s.last().key());
        assert(s.map_values(f).last() == f(s.last()));
        assert(s.map_values(f).drop_last() =~= s.drop_last().map_values(f));
        if !keys_lt(x.key(), s.last().key()) {
            assert(s.push(x).map_values(f) =~= s.map_values(f).push(f(x)));
        } else {
            lemma_ins_map(s.drop_last(), x, f, k);
            assert(ins(s.drop_last(), x).push(s.last()).map_values(f) =~= ins(
                s.drop_last(),
                x,
            ).map_values(f).push(f(s.last())));
        }
    }
}

/// Sorting by key commutes with a map `f` that keeps the keys (`k` of `f(y)`
/// is the key of `y`).
pub proof fn lemma_isort_map<T: Keyed, A>(
    s: Seq<T>,
    f: spec_fn(T) -> A,
    k: spec_fn(A) -> Seq<Seq<char>>,
)
    requires
        forall|y: T| #[trigger] k(f(y)) == y.key(),
    ensures
        isort(s).map_values(f) == isort_by(s.map_values(f), k),
    decreases s.len(),
{
    if s.len() == 0 {
        assert(isort(s).map_values(f) =~= s.map_values(f));
    } else {
        lemma_isort_map(s.drop_last(), f, k);
        assert(s.map_values(f).drop_last() =~= s.drop_last().map_values(f));
        assert(s.map_values(f).last() == f(s.last()));
        lemma_ins_map(isort(s.drop_last()), s.last(), f, k);
    }
}

// ── sorted sets of texts ─────────────────────────────────────────────────────

/// `r` with `x` added, unless already present (one insertion into an ordered set).
pub open spec fn set_ins(r: Seq<Seq<char>>, x: Seq<char>) -> Seq<Seq<char>> {
    if r.contains(x) {
        r
    } else {
        ins_text(r, x)
    }
}

/// `s` with `x` placed after every text not above it.
pub open spec fn ins_text(s: Seq<Seq<char>>, x: Seq<char>) -> Seq<Seq<char>>
    decreases s.len(),
{
    if s.len() == 0 || !text_lt(x, s.last()) {
        s.push(x)
    } else {
        ins_text(s.drop_last(), x).push(s.last())
    }
}

/// The distinct texts of `s` in ascending order (what iterating a `BTreeSet`
/// collected from `s` yields).
pub open spec fn sorted_set(s: Seq<Seq<char>>) -> Seq<Seq<char>>
    decreases s.len(),
{
    if s.len() == 0 {
        Seq::empty()
    } else {
        set_ins(sorted_set(s.drop_last()), s.last())
    }
}

proof fn lemma_ins_text_at(s: Seq<Seq<char>>, x: Seq<char>, p: int)
    requires
        0 <= p <= s.len(),
        forall|j: int| p <= j < s.len() ==> text_lt(x, #[trigger] s[j]),
        p == 0 || !text_lt(x, s[p - 1]),
    ensures
        ins_text(s, x) == s.take(p) + seq![x] + s.skip(p),
    decreases s.len(),
{
    if p == s.len() {
        assert(s.take(p) + seq![x] + s.skip(p) =~= s.push(x));
    } else {
        assert(text_lt(x, s[s.len() - 1]));
        lemma_ins_text_at(s.drop_last(), x, p);
        assert(s.drop_last().take(p) + seq![x] + s.drop_last().skip(p) + seq![s.last()] =~= s.take(
            p,
        ) + seq![x] + s.skip(p));
    }
}

/// Adds `x` to the ordered set `out` (held as ascending distinct texts).
pub fn set_insert(out: &mut Vec<Vec<char>>, x: Vec<char>)
    ensures
        texts(final(out)@) == set_ins(texts(old(out)@), x@),
{
    let mut k: usize = 0;
    while k < out.len()
        invariant
            k <= out@.len(),
            out@ == old(out)@,
            forall|j: int| 0 <= j < k ==> out@[j]@ != x@,
        decreases out@.len() - k,
    {
        if chars_eq(&out[k], &x) {
            assert(texts(out@)[k as int] == x@);
            return;
        }
        k = k + 1;
    }
    assert(!texts(out@).contains(x@));
    let mut p = out.len();
    while p > 0 && text_lt_exec(&x, &out[p - 1])
        invariant
            p <= out@.len(),
            out@ == old(out)@,
            forall|j: int| p <= j < out@.len() ==> text_lt(x@, #[trigger] texts(out@)[j]),
        decreases p,
    {
        p = p - 1;
    }
    proof {
        lemma_ins_text_at(texts(out@), x@, p as int);
    }
    let ghost xv = x@;
    out.insert(p, x);
    assert(texts(out@) =~= texts(old(out)@).take(p as int) + seq![xv] + texts(old(out)@).skip(
        p as int,
    ));
}

/// The distinct texts of `v` in ascending order.
pub fn sorted_set_of(v: &Vec<Vec<char>>) -> (r: Vec<Vec<char>>)
    ensures
        texts(r@) == sorted_set(texts(v@)),
{
    let mut out: Vec<Vec<char>> = Vec::new();
    let mut i: usize = 0;
    assert(texts(v@).take(0) =~= Seq::<Seq<char>>::empty());
    while i < v.len()
        invariant
            i <= v@.len(),
            texts(out@) == sorted_set(texts(v@).take(i as int)),
        decreases v@.len() - i,
    {
        assert(texts(v@).take(i + 1).drop_last() =~= texts(v@).take(i as int));
        assert(texts(v@).take(i + 1).last() == v@[i as int]@);
        let x = copy_chars(&v[i]);
        set_insert(&mut out, x);
        i = i + 1;
    }
    assert(texts(v@).take(v@.len() as int) =~= texts(v@));
    out
}

/// Whether the text `x` is in `v`.
pub fn texts_contain(v: &Vec<Vec<char>>, x: &Vec<char>) -> (r: bool)
    ensures
        r == texts(v@).contains(x@),
{
    let mut k: usize = 0;
    while k < v.len()
        invariant
            k <= v@.len(),
            forall|j: int| 0 <= j < k ==> v@[j]@ != x@,
        decreases v@.len() - k,
    {
        if chars_eq(&v[k], x) {
            assert(texts(v@)[k as int] == x@);
            return true;
        }
        k = k + 1;
    }
    assert(!texts(v@).contains(x@));
    false
}


/// `s` stably sorted as texts (what `sort` on a `Vec<String>` leaves).
pub open spec fn text_isort(s: Seq<Seq<char>>) -> Seq<Seq<char>>
    decreases s.len(),
{
    if s.len() == 0 {
        s
    } else {
        ins_text(text_isort(s.drop_last()), s.last())
    }
}

/// Inserts the text `x` into `out` where `ins_text` places it.
pub fn insert_text(out: &mut Vec<Vec<char>>, x: Vec<char>)
    ensures
        texts(final(out)@) == ins_text(texts(old(out)@), x@),
{
    let mut p = out.len();
    while p > 0 && text_lt_exec(&x, &out[p - 1])
        invariant
            p <= out@.len(),
            out@ == old(out)@,
            forall|j: int| p <= j < out@.len() ==> text_lt(x@, #[trigger] texts(out@)[j]),
        decreases p,
    {
        p = p - 1;
    }
    proof {
        lemma_ins_text_at(texts(out@), x@, p as int);
    }
    let ghost xv = x@;
    out.insert(p, x);
    assert(texts(out@) =~= texts(old(out)@).take(p as int) + seq![xv] + texts(old(out)@).skip(
        p as int,
    ));
}

/// `v` sorted as texts.
pub fn sort_texts(v: Vec<Vec<char>>) -> (r: Vec<Vec<char>>)
    ensures
        texts(r@) == text_isort(texts(v@)),
{
    let ghost orig = texts(v@);
    let mut v = v;
    let mut out: Vec<Vec<char>> = Vec::new();
    let mut i: usize = 0;
    let n = v.len();
    assert(orig.take(0) =~= Seq::<Seq<char>>::empty());
    while v.len() > 0
        invariant
            n == orig.len(),
            i + v@.len() == n,
            texts(v@) == orig.skip(i as int),
            texts(out@) == text_isort(orig.take(i as int)),
        decreases v@.len(),
    {
        let ghost before = v@;
        let x = v.remove(0);
        assert(texts(before)[0] == x@);
        assert(orig.take(i + 1).drop_last() =~= orig.take(i as int));
        assert(orig.take(i + 1).last() == x@);
        assert(v@ =~= before.skip(1));
        insert_text(&mut out, x);
        assert forall|j: int| 0 <= j < v@.len() implies texts(v@)[j] == orig.skip(i + 1)[j] by {
            assert(texts(before)[j + 1] == before[j + 1]@);
        }
        assert(texts(v@) =~= orig.skip(i + 1));
        i = i + 1;
    }
    assert(orig.take(n as int) =~= orig);
    out
}

// ── rows of texts ────────────────────────────────────────────────────────────

/// The texts held by a vector of rows.
pub open spec fn rows(v: Seq<Vec<Vec<char>>>) -> Seq<Seq<Seq<char>>> {
    v.map_values(|r: Vec<Vec<char>>| texts(r@))
}

/// `s` with the row `x` placed after every row not above it.
pub open spec fn ins_row(s: Seq<Seq<Seq<char>>>, x: Seq<Seq<char>>) -> Seq<Seq<Seq<char>>>
    decreases s.len(),
{
    if s.len() == 0 || !keys_lt(x, s.last()) {
        s.push(x)
    } else {
        ins_row(s.drop_last(), x).push(s.last())
    }
}

/// `s` stably sorted as tuples of texts (what `sort` on a `Vec` of `String`
/// tuples leaves).
pub open spec fn row_isort(s: Seq<Seq<Seq<char>>>) -> Seq<Seq<Seq<char>>>
    decreases s.len(),
{
    if s.len() == 0 {
        s
    } else {
        ins_row(row_isort(s.drop_last()), s.last())
    }
}

proof fn lemma_ins_row_at(s: Seq<Seq<Seq<char>>>, x: Seq<Seq<char>>, p: int)
    requires
        0 <= p <= s.len(),
        forall|j: int| p <= j < s.len() ==> keys_lt(x, #[trigger] s[j]),
        p == 0 || !keys_lt(x, s[p - 1]),
    ensures
        ins_row(s, x) == s.take(p) + seq![x] + s.skip(p),
    decreases s.len(),
{
    if p == s.len() {
        assert(s.take(p) + seq![x] + s.skip(p) =~= s.push(x));
    } else {
        assert(keys_lt(x, s[s.len() - 1]));
        lemma_ins_row_at(s.drop_last(), x, p);
        assert(s.drop_last().take(p) + seq![x] + s.drop_last().skip(p) + seq![s.last()] =~= s.take(
            p,
        ) + seq![x] + s.skip(p));
    }
}

/// Whether the row `a` is below the row `b`.
pub fn row_lt(a: &Vec<Vec<char>>, b: &Vec<Vec<char>>) -> (r: bool)
    ensures
        r == keys_lt(texts(a@), texts(b@)),
{
    let mut i: usize = 0;
    let ghost ta = texts(a@);
    let ghost tb = texts(b@);
    assert(ta.skip(0) =~= ta);
    assert(tb.skip(0) =~= tb);
    while i < a.len() && i < b.len() && chars_eq(&a[i], &b[i])
        invariant
            ta == texts(a@),
            tb == texts(b@),
            i <= a@.len(),
            i <= b@.len(),
            keys_lt(ta.skip(i as int), tb.skip(i as int)) == keys_lt(ta, tb),
        decreases a@.len() - i,
    {
        assert(ta.skip(i as int).drop_first() =~= ta.skip(i + 1));
        assert(tb.skip(i as int).drop_first() =~= tb.skip(i + 1));
        i = i + 1;
    }
    if i == a.len() {
        i < b.len()
    } else if i == b.len() {
        false
    } else {
        assert(ta.skip(i as int)[0] == a@[i as int]@);
        assert(tb.skip(i as int)[0] == b@[i as int]@);
        text_lt_exec(&a[i], &b[i])
    }
}

/// Inserts the row `x` into `out` where `ins_row` places it.
pub fn insert_row(out: &mut Vec<Vec<Vec<char>>>, x: Vec<Vec<char>>)
    ensures
        rows(final(out)@) == ins_row(rows(old(out)@), texts(x@)),
{
    let mut p = out.len();
    while p > 0 && row_lt(&x, &out[p - 1])
        invariant
            p <= out@.len(),
            out@ == old(out)@,
            forall|j: int| p <= j < out@.len() ==> keys_lt(texts(x@), #[trigger] rows(out@)[j]),
        decreases p,
    {
        p = p - 1;
    }
    proof {
        lemma_ins_row_at(rows(out@), texts(x@), p as int);
    }
    let ghost xv = texts(x@);
    out.insert(p, x);
    assert(rows(out@) =~= rows(old(out)@).take(p as int) + seq![xv] + rows(old(out)@).skip(
        p as int,
    ));
}

/// `v` sorted as rows of texts.
pub fn sort_rows(v: Vec<Vec<Vec<char>>>) -> (r: Vec<Vec<Vec<char>>>)
    ensures
        rows(r@) == row_isort(rows(v@)),
{
    let ghost orig = rows(v@);
    let mut v = v;
    let mut out: Vec<Vec<Vec<char>>> = Vec::new();
    let mut i: usize = 0;
    let n = v.len();
    assert(orig.take(0) =~= Seq::<Seq<Seq<char>>>::empty());
    while v.len() > 0
        invariant
            n == orig.len(),
            i + v@.len() == n,
            rows(v@) == orig.skip(i as int),
            rows(out@) == row_isort(orig.take(i as int)),
        decreases v@.len(),
    {
        let ghost before = v@;
        let x = v.remove(0);
        assert(rows(before)[0] == texts(x@));
        assert(orig.take(i + 1).drop_last() =~= orig.take(i as int));
        assert(orig.take(i + 1).last() == texts(x@));
        assert(v@ =~= before.skip(1));
        insert_row(&mut out, x);
        assert forall|j: int| 0 <= j < v@.len() implies rows(v@)[j] == orig.skip(i + 1)[j] by {
            assert(rows(before)[j + 1] == texts(before[j + 1]@));
        }
        assert(rows(v@) =~= orig.skip(i + 1));
        i = i + 1;
    }
    assert(orig.take(n as int) =~= orig);
    out
}

proof fn lemma_ins_row_lens(s: Seq<Seq<Seq<char>>>, x: Seq<Seq<char>>, n: nat)
    requires
        forall|i: int| 0 <= i < s.len() ==> (#[trigger] s[i]).len() == n,
        x.len() == n,
    ensures
        forall|i: int| 0 <= i < ins_row(s, x).len() ==> (#[trigger] ins_row(s, x)[i]).len() == n,
        ins_row(s, x).len() == s.len() + 1,
    decreases s.len(),
{
    if s.len() == 0 || !keys_lt(x, s.last()) {
    } else {
        lemma_ins_row_lens(s.drop_last(), x, n);
    }
}

/// Sorting rows keeps every row's length.
pub proof fn lemma_row_isort_lens(s: Seq<Seq<Seq<char>>>, n: nat)
    requires
        forall|i: int| 0 <= i < s.len() ==> (#[trigger] s[i]).len() == n,
    ensures
        forall|i: int| 0 <= i < row_isort(s).len() ==> (#[trigger] row_isort(s)[i]).len() == n,
        row_isort(s).len() == s.len(),
    decreases s.len(),
{
    if s.len() > 0 {
        lemma_row_isort_lens(s.drop_last(), n);
        lemma_ins_row_lens(row_isort(s.drop_last()), s.last(), n);
    }
}

/// One more element of `xs` taken through `filter_map`.
pub proof fn lemma_filter_map_step<A, B>(xs: Seq<A>, f: spec_fn(A) -> Option<B>, i: int)
    requires
        0 <= i < xs.len(),
    ensures
        xs.take(i + 1).filter_map(f) == match f(xs[i]) {
            Some(b) => xs.take(i).filter_map(f).push(b),
            None => xs.take(i).filter_map(f),
        },
{
    assert(xs.take(i + 1).drop_last() =~= xs.take(i));
    assert(xs.take(i + 1).last() == xs[i]);
    match f(xs[i]) {
        Some(b) => {
            assert(xs.take(i).filter_map(f) + seq![b] =~= xs.take(i).filter_map(f).push(b));
        },
        None => {},
    }
}

/// Every value of `xs.filter_map(f)` satisfies `p` when every value `f` gives
/// on `xs` does.
pub proof fn lemma_filter_map_forall<A, B>(xs: Seq<A>, f: spec_fn(A) -> Option<B>, p: spec_fn(B) -> bool)
    requires
        forall|i: int| 0 <= i < xs.len() ==> (f(#[trigger] xs[i]) matches Some(b) ==> p(b)),
    ensures
        forall|i: int| 0 <= i < xs.filter_map(f).len() ==> p(#[trigger] xs.filter_map(f)[i]),
    decreases xs.len(),
{
    if xs.len() > 0 {
        let rest = xs.drop_last();
        assert forall|i: int| 0 <= i < rest.len() implies (f(#[trigger] rest[i]) matches Some(b) ==> p(
            b,
        )) by {
            assert(rest[i] == xs[i]);
        }
        lemma_filter_map_forall(rest, f, p);
        let r = rest.filter_map(f);
        assert(xs.last() == xs[xs.len() - 1]);
        match f(xs.last()) {
            Some(b) => {
                assert forall|i: int| 0 <= i < (r + seq![b]).len() implies p(#[trigger] (r + seq![b])[i]) by {
                    if i < r.len() {
                        assert((r + seq![b])[i] == r[i]);
                    }
                }
            },
            None => {},
        }
    }
}

// ── The key order is a strict total order ───────────────────────────────────

/// The text order is transitive.
pub proof fn lemma_text_lt_trans(a: Seq<char>, b: Seq<char>, c: Seq<char>)
    requires
        text_lt(a, b),
        text_lt(b, c),
    ensures
        text_lt(a, c),
    decreases a.len(),
{
    if a.len() > 0 && b.len() > 0 && c.len() > 0 && a[0] == b[0] && b[0] == c[0] {
        lemma_text_lt_trans(a.drop_first(), b.drop_first(), c.drop_first());
    }
}

/// Any two different texts are ordered one way or the other.
pub proof fn lemma_text_lt_total(a: Seq<char>, b: Seq<char>)
    ensures
        a == b || text_lt(a, b) || text_lt(b, a),
    decreases a.len(),
{
    if a.len() == 0 && b.len() == 0 {
        assert(a =~= b);
    } else if a.len() > 0 && b.len() > 0 && a[0] == b[0] {
        lemma_text_lt_total(a.drop_first(), b.drop_first());
        if a.drop_first() == b.drop_first() {
            assert(a =~= seq![a[0]] + a.drop_first());
            assert(b =~= seq![b[0]] + b.drop_first());
        }
    } else if a.len() > 0 && b.len() > 0 {
        vstd::utf8::char_u32_cast(a[0], a[0] as u32);
        vstd::utf8::char_u32_cast(b[0], b[0] as u32);
        assert((a[0] as u32) != (b[0] as u32));
    }
}

/// No key is below itself.
pub proof fn lemma_keys_lt_irreflexive(a: Seq<Seq<char>>)
    ensures
        !keys_lt(a, a),
    decreases a.len(),
{
    if a.len() > 0 {
        lemma_keys_lt_irreflexive(a.drop_first());
    }
}

/// The key order is transitive.
pub proof fn lemma_keys_lt_trans(a: Seq<Seq<char>>, b: Seq<Seq<char>>, c: Seq<Seq<char>>)
    requires
        keys_lt(a, b),
        keys_lt(b, c),
    ensures
        keys_lt(a, c),
    decreases a.len(),
{
    if a.len() > 0 && b.len() > 0 && c.len() > 0 {
        if a[0] != b[0] && b[0] != c[0] {
            lemma_text_lt_trans(a[0], b[0], c[0]);
            lemma_text_lt_irreflexive(a[0]);
        } else if a[0] == b[0] && b[0] == c[0] {
            lemma_keys_lt_trans(a.drop_first(), b.drop_first(), c.drop_first());
        }
    }
}

/// Any two different keys are ordered one way or the other.
pub proof fn lemma_keys_lt_total(a: Seq<Seq<char>>, b: Seq<Seq<char>>)
    ensures
        a == b || keys_lt(a, b) || keys_lt(b, a),
    decreases a.len(),
{
    if a.len() == 0 && b.len() == 0 {
        assert(a =~= b);
    } else if a.len() > 0 && b.len() > 0 && a[0] == b[0] {
        lemma_keys_lt_total(a.drop_first(), b.drop_first());
        if a.drop_first() == b.drop_first() {
            assert(a =~= seq![a[0]] + a.drop_first());
            assert(b =~= seq![b[0]] + b.drop_first());
        }
    } else if a.len() > 0 && b.len() > 0 {
        lemma_text_lt_total(a[0], b[0]);
    }
}

/// Whether the keys of `s` under `k` never decrease.
pub open spec fn sorted_by<A>(s: Seq<A>, k: spec_fn(A) -> Seq<Seq<char>>) -> bool {
    forall|i: int, j: int| 0 <= i < j < s.len() ==> !keys_lt(k(#[trigger] s[j]), k(#[trigger] s[i]))
}

proof fn lemma_ins_by_multiset<A>(s: Seq<A>, x: A, k: spec_fn(A) -> Seq<Seq<char>>)
    ensures
        ins_by(s, x, k).to_multiset() == s.to_multiset().insert(x),
    decreases s.len(),
{
    broadcast use vstd::seq_lib::group_to_multiset_ensures;

    if s.len() > 0 && keys_lt(k(x), k(s.last())) {
        lemma_ins_by_multiset(s.drop_last(), x, k);
        assert(s =~= s.drop_last().push(s.last()));
        assert(ins_by(s, x, k).to_multiset() =~= s.to_multiset().insert(x));
    }
}

proof fn lemma_ins_by_sorted<A>(s: Seq<A>, x: A, k: spec_fn(A) -> Seq<Seq<char>>)
    requires
        sorted_by(s, k),
    ensures
        sorted_by(ins_by(s, x, k), k),
    decreases s.len(),
{
    broadcast use vstd::seq_lib::group_to_multiset_ensures;

    let r = ins_by(s, x, k);
    if s.len() == 0 {
    } else if !keys_lt(k(x), k(s.last())) {
        let l = s.last();
        assert forall|i: int, j: int| 0 <= i < j < r.len() implies !keys_lt(
            k(#[trigger] r[j]),
            k(#[trigger] r[i]),
        ) by {
            if j == s.len() {
                assert(r[j] == x);
                assert(r[i] == s[i]);
                if i < s.len() - 1 {
                    assert(!keys_lt(k(s[s.len() - 1]), k(s[i])));
                }
                if keys_lt(k(x), k(s[i])) {
                    lemma_keys_lt_total(k(x), k(l));
                    if k(x) != k(l) {
                        lemma_keys_lt_trans(k(l), k(x), k(s[i]));
                    }
                }
            } else {
                assert(r[j] == s[j]);
                assert(r[i] == s[i]);
            }
        }
    } else {
        let init = s.drop_last();
        let l = s.last();
        assert(sorted_by(init, k)) by {
            assert forall|i: int, j: int| 0 <= i < j < init.len() implies !keys_lt(
                k(#[trigger] init[j]),
                k(#[trigger] init[i]),
            ) by {
                assert(init[i] == s[i]);
                assert(init[j] == s[j]);
            }
        }
        lemma_ins_by_sorted(init, x, k);
        lemma_ins_by_multiset(init, x, k);
        let m = ins_by(init, x, k);
        assert(r == m.push(l));
        assert forall|i: int, j: int| 0 <= i < j < r.len() implies !keys_lt(
            k(#[trigger] r[j]),
            k(#[trigger] r[i]),
        ) by {
            if j == m.len() {
                assert(r[j] == l);
                assert(r[i] == m[i]);
                assert(m.contains(m[i]));
                assert(m.to_multiset().count(m[i]) > 0);
                if m[i] == x {
                    if keys_lt(k(l), k(x)) {
                        lemma_keys_lt_trans(k(x), k(l), k(x));
                        lemma_keys_lt_irreflexive(k(x));
                    }
                } else {
                    assert(init.to_multiset().count(m[i]) > 0);
                    assert(init.contains(m[i]));
                    let t = choose|t: int| 0 <= t < init.len() && init[t] == m[i];
                    assert(s[t] == init[t]);
                    assert(s[s.len() - 1] == l);
                }
            } else {
                assert(r[j] == m[j]);
                assert(r[i] == m[i]);
            }
        }
    }
}

/// Sorting by a key function keeps the elements and orders them by key: the
/// result holds the same elements as `s`, as often, and its keys never decrease.
pub proof fn law_isort_by_sorts<A>(s: Seq<A>, k: spec_fn(A) -> Seq<Seq<char>>)
    ensures
        isort_by(s, k).to_multiset() == s.to_multiset(),
        sorted_by(isort_by(s, k), k),
    decreases s.len(),
{
    broadcast use vstd::seq_lib::group_to_multiset_ensures;

    if s.len() > 0 {
        law_isort_by_sorts(s.drop_last(), k);
        lemma_ins_by_multiset(isort_by(s.drop_last(), k), s.last(), k);
        lemma_ins_by_sorted(isort_by(s.drop_last(), k), s.last(), k);
        assert(s =~= s.drop_last().push(s.last()));
    }
}

/// A row as its own sort key.
pub open spec fn row_key(r: Seq<Seq<char>>) -> Seq<Seq<char>> {
    r
}

proof fn lemma_ins_row_is_ins_by(s: Seq<Seq<Seq<char>>>, x: Seq<Seq<char>>)
    ensures
        ins_row(s, x) == ins_by(s, x, |r: Seq<Seq<char>>| row_key(r)),
    decreases s.len(),
{
    if s.len() > 0 && keys_lt(x, s.last()) {
        lemma_ins_row_is_ins_by(s.drop_last(), x);
    }
}

/// Sorting rows is sorting by the rows themselves as keys.
pub proof fn lemma_row_isort_is_isort_by(s: Seq<Seq<Seq<char>>>)
    ensures
        row_isort(s) == isort_by(s, |r: Seq<Seq<char>>| row_key(r)),
    decreases s.len(),
{
    if s.len() > 0 {
        lemma_row_isort_is_isort_by(s.drop_last());
        lemma_ins_row_is_ins_by(row_isort(s.drop_last()), s.last());
    }
}

proof fn lemma_ins_text_multiset(s: Seq<Seq<char>>, x: Seq<char>)
    ensures
        ins_text(s, x).to_multiset() == s.to_multiset().insert(x),
    decreases s.len(),
{
    broadcast use vstd::seq_lib::group_to_multiset_ensures;

    if s.len() > 0 && text_lt(x, s.last()) {
        lemma_ins_text_multiset(s.drop_last(), x);
        assert(s =~= s.drop_last().push(s.last()));
        assert(ins_text(s, x).to_multiset() =~= s.to_multiset().insert(x));
    }
}

/// Every text of the sorted set of `s` is a text of `s`.
pub proof fn lemma_sorted_set_contains(s: Seq<Seq<char>>)
    ensures
        forall|y: Seq<char>| #[trigger] sorted_set(s).contains(y) ==> s.contains(y),
    decreases s.len(),
{
    broadcast use vstd::seq_lib::group_to_multiset_ensures;

    if s.len() > 0 {
        let init = s.drop_last();
        lemma_sorted_set_contains(init);
        let r = sorted_set(init);
        assert(s =~= init.push(s.last()));
        if !r.contains(s.last()) {
            lemma_ins_text_multiset(r, s.last());
        }
        assert forall|y: Seq<char>| #[trigger] sorted_set(s).contains(y) implies s.contains(y) by {
            if y != s.last() {
                if !r.contains(s.last()) {
                    assert(ins_text(r, s.last()).to_multiset().count(y) > 0);
                    assert(r.to_multiset().count(y) > 0);
                }
                assert(r.contains(y));
                assert(init.contains(y));
                let j = choose|j: int| 0 <= j < init.len() && init[j] == y;
                assert(s[j] == y);
            } else {
                assert(s[s.len() - 1] == y);
            }
        }
    }
}


/// The texts of `text_isort(s)` are those of `s`, each as many times.
pub proof fn lemma_text_isort_multiset(s: Seq<Seq<char>>)
    ensures
        text_isort(s).to_multiset() == s.to_multiset(),
        text_isort(s).len() == s.len(),
    decreases s.len(),
{
    broadcast use vstd::seq_lib::group_to_multiset_ensures;

    if s.len() > 0 {
        lemma_text_isort_multiset(s.drop_last());
        lemma_ins_text_multiset(text_isort(s.drop_last()), s.last());
        assert(s =~= s.drop_last().push(s.last()));
    }
    assert(text_isort(s).len() == text_isort(s).to_multiset().len());
    assert(s.len() == s.to_multiset().len());
}

/// Every text of `s` is in `sorted_set(s)`.
pub proof fn lemma_sorted_set_keeps(s: Seq<Seq<char>>)
    ensures
        forall|y: Seq<char>| #[trigger] s.contains(y) ==> sorted_set(s).contains(y),
    decreases s.len(),
{
    broadcast use vstd::seq_lib::group_to_multiset_ensures;

    if s.len() > 0 {
        let init = s.drop_last();
        lemma_sorted_set_keeps(init);
        let r = sorted_set(init);
        if !r.contains(s.last()) {
            lemma_ins_text_multiset(r, s.last());
        }
        assert forall|y: Seq<char>| #[trigger] s.contains(y) implies sorted_set(s).contains(y) by {
            let j = choose|j: int| 0 <= j < s.len() && s[j] == y;
            if j < s.len() - 1 {
                assert(init[j] == y);
                assert(init.contains(y));
                assert(r.contains(y));
                if !r.contains(s.last()) {
                    assert(r.to_multiset().count(y) > 0);
                    assert(ins_text(r, s.last()).to_multiset().count(y) > 0);
                }
            } else if !r.contains(s.last()) {
                assert(ins_text(r, s.last()).to_multiset().count(y) > 0);
            }
        }
    }
}

/// The sorted set of texts that all equal `x` is `x` alone, or nothing when
/// there are none.
pub proof fn lemma_sorted_set_uniform(s: Seq<Seq<char>>, x: Seq<char>)
    requires
        forall|i: int| 0 <= i < s.len() ==> #[trigger] s[i] == x,
    ensures
        sorted_set(s) == (if s.len() == 0 {
            Seq::<Seq<char>>::empty()
        } else {
            seq![x]
        }),
    decreases s.len(),
{
    if s.len() > 0 {
        let init = s.drop_last();
        assert forall|i: int| 0 <= i < init.len() implies #[trigger] init[i] == x by {
            assert(s[i] == x);
        }
        lemma_sorted_set_uniform(init, x);
        assert(s.last() == x);
        if init.len() == 0 {
            assert(ins_text(Seq::<Seq<char>>::empty(), x) =~= seq![x]);
        } else {
            assert(seq![x][0] == x);
        }
    }
}

/// An element of `xs` that `f` keeps gives an element of `xs.filter_map(f)`.
pub proof fn lemma_filter_map_keeps<A, B>(xs: Seq<A>, f: spec_fn(A) -> Option<B>, i: int)
    requires
        0 <= i < xs.len(),
        f(xs[i]) is Some,
    ensures
        xs.filter_map(f).contains(f(xs[i])->0),
    decreases xs.len(),
{
    let b = f(xs[i])->0;
    let rest = xs.drop_last();
    if i == xs.len() - 1 {
        assert(xs.filter_map(f) == rest.filter_map(f) + seq![b]);
        assert((rest.filter_map(f) + seq![b])[rest.filter_map(f).len() as int] == b);
    } else {
        assert(rest[i] == xs[i]);
        lemma_filter_map_keeps(rest, f, i);
        let k = choose|k: int| 0 <= k < rest.filter_map(f).len() && rest.filter_map(f)[k] == b;
        match f(xs.last()) {
            Some(c) => {
                assert(xs.filter_map(f) == rest.filter_map(f) + seq![c]);
                assert((rest.filter_map(f) + seq![c])[k] == b);
            },
            None => {
                assert(xs.filter_map(f) == rest.filter_map(f));
            },
        }
    }
}


/// Whether the texts of `s` strictly ascend (so none occurs twice).
pub open spec fn strictly_ascending(s: Seq<Seq<char>>) -> bool {
    forall|i: int, j: int| 0 <= i < j < s.len() ==> text_lt(#[trigger] s[i], #[trigger] s[j])
}

proof fn lemma_ins_text_strict(s: Seq<Seq<char>>, x: Seq<char>)
    requires
        strictly_ascending(s),
        !s.contains(x),
    ensures
        strictly_ascending(ins_text(s, x)),
    decreases s.len(),
{
    broadcast use vstd::seq_lib::group_to_multiset_ensures;

    let r = ins_text(s, x);
    if s.len() == 0 {
    } else if !text_lt(x, s.last()) {
        let l = s.last();
        assert(s[s.len() - 1] == l);
        lemma_text_lt_total(x, l);
        assert(text_lt(l, x));
        assert forall|i: int, j: int| 0 <= i < j < r.len() implies text_lt(#[trigger] r[i], #[trigger] r[j]) by {
            if j == r.len() - 1 {
                if i < s.len() - 1 {
                    lemma_text_lt_trans(s[i], l, x);
                }
            }
        }
    } else {
        let init = s.drop_last();
        let l = s.last();
        assert(s[s.len() - 1] == l);
        assert(strictly_ascending(init)) by {
            assert forall|i: int, j: int| 0 <= i < j < init.len() implies text_lt(
                #[trigger] init[i],
                #[trigger] init[j],
            ) by {
                assert(init[i] == s[i] && init[j] == s[j]);
            }
        }
        assert(!init.contains(x)) by {
            if init.contains(x) {
                let k = choose|k: int| 0 <= k < init.len() && init[k] == x;
                assert(s[k] == x);
            }
        }
        lemma_ins_text_strict(init, x);
        let t = ins_text(init, x);
        lemma_ins_text_multiset(init, x);
        assert(r == t.push(l));
        assert forall|i: int, j: int| 0 <= i < j < r.len() implies text_lt(#[trigger] r[i], #[trigger] r[j]) by {
            if j == r.len() - 1 {
                let y = t[i];
                assert(t.contains(y));
                assert(t.to_multiset().count(y) > 0);
                if y != x {
                    assert(init.to_multiset().count(y) > 0);
                    assert(init.contains(y));
                    let k = choose|k: int| 0 <= k < init.len() && init[k] == y;
                    assert(s[k] == y);
                }
            } else {
                assert(r[i] == t[i] && r[j] == t[j]);
            }
        }
    }
}

/// `sorted_set(s)` strictly ascends, and holds one entry per distinct text
/// of `s`: as many as `s` when no text of `s` repeats.
pub proof fn lemma_sorted_set_strict(s: Seq<Seq<char>>)
    ensures
        strictly_ascending(sorted_set(s)),
        (forall|i: int, j: int| 0 <= i < j < s.len() ==> #[trigger] s[i] != #[trigger] s[j]) ==> sorted_set(
            s,
        ).len() == s.len(),
    decreases s.len(),
{
    broadcast use vstd::seq_lib::group_to_multiset_ensures;

    if s.len() > 0 {
        let init = s.drop_last();
        lemma_sorted_set_strict(init);
        lemma_sorted_set_contains(init);
        let r = sorted_set(init);
        if !r.contains(s.last()) {
            lemma_ins_text_strict(r, s.last());
            lemma_ins_text_multiset(r, s.last());
            assert(ins_text(r, s.last()).len() == ins_text(r, s.last()).to_multiset().len());
            assert(r.len() == r.to_multiset().len());
        }
        if forall|i: int, j: int| 0 <= i < j < s.len() ==> #[trigger] s[i] != #[trigger] s[j] {
            assert forall|i: int, j: int| 0 <= i < j < init.len() implies #[trigger] init[i] != #[trigger] init[j] by {
                assert(init[i] == s[i] && init[j] == s[j]);
            }
            if r.contains(s.last()) {
                assert(init.contains(s.last()));
                let k = choose|k: int| 0 <= k < init.len() && init[k] == s.last();
                assert(s[k] == s[s.len() - 1]);
            }
        }
    }
}


/// Whether the texts of `s` never descend.
pub open spec fn ascending(s: Seq<Seq<char>>) -> bool {
    forall|i: int, j: int| 0 <= i < j < s.len() ==> !text_lt(#[trigger] s[j], #[trigger] s[i])
}

pub proof fn lemma_text_le_trans(a: Seq<char>, b: Seq<char>, c: Seq<char>)
    requires
        !text_lt(b, a),
        !text_lt(c, b),
    ensures
        !text_lt(c, a),
{
    lemma_text_lt_total(a, b);
    lemma_text_lt_total(b, c);
    if text_lt(c, a) {
        if text_lt(a, b) {
            lemma_text_lt_trans(c, a, b);
            if text_lt(b, c) {
                lemma_text_lt_trans(c, b, c);
                lemma_text_lt_irreflexive(c);
            }
        } else if text_lt(b, c) {
            lemma_text_lt_trans(b, c, a);
        }
    }
}

proof fn lemma_ins_text_sorted(s: Seq<Seq<char>>, x: Seq<char>)
    requires
        ascending(s),
    ensures
        ascending(ins_text(s, x)),
    decreases s.len(),
{
    broadcast use vstd::seq_lib::group_to_multiset_ensures;

    let r = ins_text(s, x);
    if s.len() == 0 {
    } else if !text_lt(x, s.last()) {
        let l = s.last();
        assert(s[s.len() - 1] == l);
        assert forall|i: int, j: int| 0 <= i < j < r.len() implies !text_lt(#[trigger] r[j], #[trigger] r[i]) by {
            if j == r.len() - 1 && i < s.len() - 1 {
                lemma_text_le_trans(s[i], l, x);
            }
        }
    } else {
        let init = s.drop_last();
        let l = s.last();
        assert(s[s.len() - 1] == l);
        assert(ascending(init)) by {
            assert forall|i: int, j: int| 0 <= i < j < init.len() implies !text_lt(
                #[trigger] init[j],
                #[trigger] init[i],
            ) by {
                assert(init[i] == s[i] && init[j] == s[j]);
            }
        }
        lemma_ins_text_sorted(init, x);
        let t = ins_text(init, x);
        lemma_ins_text_multiset(init, x);
        assert(r == t.push(l));
        assert forall|i: int, j: int| 0 <= i < j < r.len() implies !text_lt(#[trigger] r[j], #[trigger] r[i]) by {
            if j == r.len() - 1 {
                let y = t[i];
                assert(t.contains(y));
                assert(t.to_multiset().count(y) > 0);
                if y != x {
                    assert(init.to_multiset().count(y) > 0);
                    assert(init.contains(y));
                    let k = choose|k: int| 0 <= k < init.len() && init[k] == y;
                    assert(s[k] == y);
                } else {
                    lemma_text_lt_total(x, l);
                    if text_lt(l, x) {
                        lemma_text_lt_trans(x, l, x);
                        lemma_text_lt_irreflexive(x);
                    }
                }
            } else {
                assert(r[i] == t[i] && r[j] == t[j]);
            }
        }
    }
}

/// `text_isort(s)` never descends.
pub proof fn lemma_text_isort_sorted(s: Seq<Seq<char>>)
    ensures
        ascending(text_isort(s)),
    decreases s.len(),
{
    if s.len() > 0 {
        lemma_text_isort_sorted(s.drop_last());
        lemma_ins_text_sorted(text_isort(s.drop_last()), s.last());
    }
}

} // verus!
