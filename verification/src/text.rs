//! Character-sequence primitives: the text operations the corpus parsers
//! and renderers are built from, each with its meaning stated over `Seq<char>`.
use vstd::prelude::*;

verus! {

// ── characters ───────────────────────────────────────────────────────────────

/// Whether `c` has the Unicode `White_Space` property (what `char::is_whitespace` tests).
pub open spec fn spec_is_whitespace(c: char) -> bool {
    let u = c as u32;
    ||| (0x09 <= u && u <= 0x0d)
    ||| u == 0x20
    ||| u == 0x85
    ||| u == 0xa0
    ||| u == 0x1680
    ||| (0x2000 <= u && u <= 0x200a)
    ||| u == 0x2028
    ||| u == 0x2029
    ||| u == 0x202f
    ||| u == 0x205f
    ||| u == 0x3000
}

/// Whether `c` is white space.
pub fn is_whitespace(c: char) -> (r: bool)
    ensures
        r == spec_is_whitespace(c),
{
    let u = c as u32;
    (0x09 <= u && u <= 0x0d) || u == 0x20 || u == 0x85 || u == 0xa0 || u == 0x1680 || (0x2000
        <= u && u <= 0x200a) || u == 0x2028 || u == 0x2029 || u == 0x202f || u == 0x205f || u
        == 0x3000
}

/// ASCII lower-casing of one character (non-ASCII-uppercase characters are unchanged).
pub open spec fn ascii_lower(c: char) -> char {
    if 'A' <= c && c <= 'Z' {
        (((c as u8) + 32) as u8) as char
    } else {
        c
    }
}

/// ASCII lower-casing of one character.
pub fn to_ascii_lower(c: char) -> (r: char)
    ensures
        r == ascii_lower(c),
{
    if 'A' <= c && c <= 'Z' {
        ((c as u8) + 32) as char
    } else {
        c
    }
}

/// Equality of two texts up to ASCII case (what `eq_ignore_ascii_case` tests).
pub open spec fn eq_ignore_ascii_case(a: Seq<char>, b: Seq<char>) -> bool {
    a.len() == b.len() && forall|i: int| 0 <= i < a.len() ==> ascii_lower(a[i]) == ascii_lower(b[i])
}

/// Equality of two texts up to ASCII case.
pub fn eq_ignore_case(a: &Vec<char>, b: &Vec<char>) -> (r: bool)
    ensures
        r == eq_ignore_ascii_case(a@, b@),
{
    if a.len() != b.len() {
        return false;
    }
    let mut i: usize = 0;
    while i < a.len()
        invariant
            a@.len() == b@.len(),
            i <= a@.len(),
            forall|j: int| 0 <= j < i ==> ascii_lower(a@[j]) == ascii_lower(b@[j]),
        decreases a@.len() - i,
    {
        if to_ascii_lower(a[i]) != to_ascii_lower(b[i]) {
            return false;
        }
        i = i + 1;
    }
    true
}

// ── conversion between `str`/`String` and character vectors ─────────────────

/// Appends one character to a `String` (`String::push`).
#[verifier::external_body]
fn string_push(s: &mut String, c: char)
    ensures
        final(s)@ == old(s)@.push(c),
{
    s.push(c);
}

/// The characters of `s`, in order.
pub fn chars_of(s: &str) -> (v: Vec<char>)
    ensures
        v@ == s@,
{
    broadcast use vstd::string::group_string_axioms;
    let mut v: Vec<char> = Vec::new();
    for c in it: s.chars()
        invariant
            it.seq() == s@,
            v@ == s@.take(it.index() as int),
    {
        v.push(c);
        assert(s@.take(it.index() + 1) =~= s@.take(it.index() as int).push(c));
    }
    assert(v@.len() == s@.len() ==> v@ =~= s@);
    v
}

/// A `String` holding exactly the characters of `v`.
pub fn string_of(v: &Vec<char>) -> (s: String)
    ensures
        s@ == v@,
{
    let mut s = String::new();
    let mut i: usize = 0;
    while i < v.len()
        invariant
            i <= v@.len(),
            s@ == v@.take(i as int),
        decreases v@.len() - i,
    {
        string_push(&mut s, v[i]);
        assert(v@.take(i + 1) =~= v@.take(i as int).push(v@[i as int]));
        i = i + 1;
    }
    assert(v@.take(v@.len() as int) =~= v@);
    s
}

/// Appends the characters of `t` to `out`.
pub fn push_str(out: &mut Vec<char>, t: &str)
    ensures
        final(out)@ == old(out)@ + t@,
{
    let mut v = chars_of(t);
    out.append(&mut v);
}

/// Appends the characters of `t` to `out`.
pub fn push_chars(out: &mut Vec<char>, t: &Vec<char>)
    ensures
        final(out)@ == old(out)@ + t@,
{
    let mut i: usize = 0;
    let ghost start = out@;
    while i < t.len()
        invariant
            i <= t@.len(),
            out@ == start + t@.take(i as int),
        decreases t@.len() - i,
    {
        out.push(t[i]);
        assert(t@.take(i + 1) =~= t@.take(i as int).push(t@[i as int]));
        assert(start + t@.take(i + 1) =~= (start + t@.take(i as int)).push(t@[i as int]));
        i = i + 1;
    }
    assert(t@.take(t@.len() as int) =~= t@);
}

/// A copy of `s[a..b]`.
pub fn subvec(s: &Vec<char>, a: usize, b: usize) -> (r: Vec<char>)
    requires
        a <= b <= s@.len(),
    ensures
        r@ == s@.subrange(a as int, b as int),
{
    let mut r: Vec<char> = Vec::new();
    let mut i = a;
    while i < b
        invariant
            a <= i <= b,
            b <= s@.len(),
            r@ == s@.subrange(a as int, i as int),
        decreases b - i,
    {
        r.push(s[i]);
        assert(s@.subrange(a as int, i + 1) =~= s@.subrange(a as int, i as int).push(s@[i as int]));
        i = i + 1;
    }
    r
}

/// A copy of `s`.
pub fn copy_chars(s: &Vec<char>) -> (r: Vec<char>)
    ensures
        r@ == s@,
{
    let r = subvec(s, 0, s.len());
    assert(s@.subrange(0, s@.len() as int) =~= s@);
    r
}

/// Equality of two texts.
pub fn chars_eq(a: &Vec<char>, b: &Vec<char>) -> (r: bool)
    ensures
        r == (a@ == b@),
{
    if a.len() != b.len() {
        return false;
    }
    let mut i: usize = 0;
    while i < a.len()
        invariant
            a@.len() == b@.len(),
            i <= a@.len(),
            forall|j: int| 0 <= j < i ==> a@[j] == b@[j],
        decreases a@.len() - i,
    {
        if a[i] != b[i] {
            return false;
        }
        i = i + 1;
    }
    assert(a@ =~= b@);
    true
}

/// Whether the text of `s` equals the literal `t`.
pub fn string_is(s: &String, t: &str) -> (r: bool)
    ensures
        r == (s@ == t@),
{
    let a = chars_of(s.as_str());
    let b = chars_of(t);
    chars_eq(&a, &b)
}

// ── trimming ─────────────────────────────────────────────────────────────────

/// `s` without its leading white space.
pub open spec fn trim_start(s: Seq<char>) -> Seq<char>
    decreases s.len(),
{
    if s.len() > 0 && spec_is_whitespace(s[0]) {
        trim_start(s.drop_first())
    } else {
        s
    }
}

/// `s` without its trailing white space.
pub open spec fn trim_end(s: Seq<char>) -> Seq<char>
    decreases s.len(),
{
    if s.len() > 0 && spec_is_whitespace(s.last()) {
        trim_end(s.drop_last())
    } else {
        s
    }
}

/// `s` without leading and trailing white space (what `str::trim` returns).
pub open spec fn trim(s: Seq<char>) -> Seq<char> {
    trim_end(trim_start(s))
}

/// `s` without its leading white space.
pub fn trim_start_chars(s: &Vec<char>) -> (r: Vec<char>)
    ensures
        r@ == trim_start(s@),
{
    let mut i: usize = 0;
    assert(s@.skip(0) =~= s@);
    while i < s.len() && is_whitespace(s[i])
        invariant
            i <= s@.len(),
            trim_start(s@.skip(i as int)) == trim_start(s@),
        decreases s@.len() - i,
    {
        assert(s@.skip(i as int).drop_first() =~= s@.skip(i + 1));
        i = i + 1;
    }
    subvec(s, i, s.len())
}

/// `s` without its trailing white space.
pub fn trim_end_chars(s: &Vec<char>) -> (r: Vec<char>)
    ensures
        r@ == trim_end(s@),
{
    let mut j: usize = s.len();
    assert(s@.take(j as int) =~= s@);
    while j > 0 && is_whitespace(s[j - 1])
        invariant
            j <= s@.len(),
            trim_end(s@.take(j as int)) == trim_end(s@),
        decreases j,
    {
        assert(s@.take(j as int).drop_last() =~= s@.take(j - 1));
        j = j - 1;
    }
    subvec(s, 0, j)
}

/// `s` without leading and trailing white space.
pub fn trim_chars(s: &Vec<char>) -> (r: Vec<char>)
    ensures
        r@ == trim(s@),
{
    let a = trim_start_chars(s);
    trim_end_chars(&a)
}

// ── prefixes and suffixes ────────────────────────────────────────────────────

/// Whether `s` begins with `p`.
pub open spec fn starts_with(s: Seq<char>, p: Seq<char>) -> bool {
    p.len() <= s.len() && s.take(p.len() as int) == p
}

/// Whether `s` ends with `p`.
pub open spec fn ends_with(s: Seq<char>, p: Seq<char>) -> bool {
    p.len() <= s.len() && s.skip(s.len() - p.len()) == p
}

/// `s` without the prefix `p`, if it has it (what `str::strip_prefix` returns).
pub open spec fn strip_prefix(s: Seq<char>, p: Seq<char>) -> Option<Seq<char>> {
    if starts_with(s, p) {
        Some(s.skip(p.len() as int))
    } else {
        None
    }
}

/// `s` without the suffix `p`, if it has it (what `str::strip_suffix` returns).
pub open spec fn strip_suffix(s: Seq<char>, p: Seq<char>) -> Option<Seq<char>> {
    if ends_with(s, p) {
        Some(s.take(s.len() - p.len()))
    } else {
        None
    }
}

/// Whether `p` occurs in `s` at position `i`.
pub open spec fn occurs_at(s: Seq<char>, p: Seq<char>, i: int) -> bool {
    0 <= i && i + p.len() <= s.len() && s.subrange(i, i + p.len()) == p
}

/// Whether `p` occurs in `s` at position `i`.
pub fn occurs_at_exec(s: &Vec<char>, p: &Vec<char>, i: usize) -> (r: bool)
    ensures
        r == occurs_at(s@, p@, i as int),
{
    if i > s.len() || p.len() > s.len() - i {
        return false;
    }
    let mut k: usize = 0;
    while k < p.len()
        invariant
            i + p@.len() <= s.len(),
            k <= p@.len(),
            forall|j: int| 0 <= j < k ==> s@[i + j] == p@[j],
        decreases p@.len() - k,
    {
        if s[i + k] != p[k] {
            assert(s@.subrange(i as int, i + p@.len())[k as int] != p@[k as int]);
            return false;
        }
        k = k + 1;
    }
    assert(s@.subrange(i as int, i + p@.len()) =~= p@);
    true
}

/// Whether `s` begins with `p`.
pub fn starts_with_chars(s: &Vec<char>, p: &Vec<char>) -> (r: bool)
    ensures
        r == starts_with(s@, p@),
{
    let r = occurs_at_exec(s, p, 0);
    assert(s@.subrange(0, p@.len() as int) =~= s@.take(p@.len() as int));
    r
}

/// Whether `s` begins with `p`.
pub fn starts_with_str(s: &Vec<char>, p: &str) -> (r: bool)
    ensures
        r == starts_with(s@, p@),
{
    let pv = chars_of(p);
    starts_with_chars(s, &pv)
}

/// Whether `s` ends with `p`.
pub fn ends_with_chars(s: &Vec<char>, p: &Vec<char>) -> (r: bool)
    ensures
        r == ends_with(s@, p@),
{
    if p.len() > s.len() {
        return false;
    }
    let r = occurs_at_exec(s, p, s.len() - p.len());
    assert(s@.subrange(s@.len() - p@.len(), s@.len() as int) =~= s@.skip(
        s@.len() - p@.len(),
    ));
    r
}

/// Whether `s` ends with `p`.
pub fn ends_with_str(s: &Vec<char>, p: &str) -> (r: bool)
    ensures
        r == ends_with(s@, p@),
{
    let pv = chars_of(p);
    ends_with_chars(s, &pv)
}

/// `s` without the prefix `p`, if it has it.
pub fn strip_prefix_chars(s: &Vec<char>, p: &Vec<char>) -> (r: Option<Vec<char>>)
    ensures
        match r {
            Some(v) => strip_prefix(s@, p@) == Some(v@),
            None => strip_prefix(s@, p@) is None,
        },
{
    if starts_with_chars(s, p) {
        Some(subvec(s, p.len(), s.len()))
    } else {
        None
    }
}

/// `s` without the suffix `p`, if it has it.
pub fn strip_suffix_chars(s: &Vec<char>, p: &Vec<char>) -> (r: Option<Vec<char>>)
    ensures
        match r {
            Some(v) => strip_suffix(s@, p@) == Some(v@),
            None => strip_suffix(s@, p@) is None,
        },
{
    if ends_with_chars(s, p) {
        let r = subvec(s, 0, s.len() - p.len());
        assert(r@ =~= s@.take(s@.len() - p@.len()));
        Some(r)
    } else {
        None
    }
}

/// `s` with every leading copy of `p` removed (what `str::trim_start_matches` returns).
pub open spec fn trim_start_matches(s: Seq<char>, p: Seq<char>) -> Seq<char>
    decreases s.len(),
{
    if p.len() > 0 && starts_with(s, p) {
        trim_start_matches(s.skip(p.len() as int), p)
    } else {
        s
    }
}

/// `s` with every leading copy of `p` removed.
pub fn trim_start_matches_chars(s: &Vec<char>, p: &Vec<char>) -> (r: Vec<char>)
    ensures
        r@ == trim_start_matches(s@, p@),
{
    let mut i: usize = 0;
    assert(s@.skip(0) =~= s@);
    while p.len() > 0 && i <= s.len() && occurs_at_exec(s, p, i)
        invariant
            i <= s@.len(),
            trim_start_matches(s@.skip(i as int), p@) == trim_start_matches(s@, p@),
        decreases s@.len() - i,
    {
        assert(s@.skip(i as int).take(p@.len() as int) =~= s@.subrange(i as int, i + p@.len()));
        assert(s@.skip(i as int).skip(p@.len() as int) =~= s@.skip(i + p@.len()));
        i = i + p.len();
    }
    if p.len() > 0 {
        assert(!occurs_at(s@, p@, i as int));
        assert(s@.skip(i as int).take(p@.len() as int) =~= s@.subrange(i as int, i + p@.len())
            || !starts_with(s@.skip(i as int), p@));
    }
    subvec(s, i, s.len())
}

/// `s` with every leading copy of `p` removed.
pub fn trim_start_matches_str(s: &Vec<char>, p: &str) -> (r: Vec<char>)
    ensures
        r@ == trim_start_matches(s@, p@),
{
    let pv = chars_of(p);
    trim_start_matches_chars(s, &pv)
}

// ── searching ────────────────────────────────────────────────────────────────

/// The first position at or after `i` where `p` occurs in `s`.
pub open spec fn find_from(s: Seq<char>, p: Seq<char>, i: int) -> Option<int>
    decreases s.len() + 1 - i,
{
    if i < 0 || i > s.len() {
        None
    } else if occurs_at(s, p, i) {
        Some(i)
    } else {
        find_from(s, p, i + 1)
    }
}

/// The first position where `p` occurs in `s` (what `str::find` returns, in characters).
pub open spec fn find(s: Seq<char>, p: Seq<char>) -> Option<int> {
    find_from(s, p, 0)
}

/// Whether `p` occurs in `s`.
pub open spec fn contains(s: Seq<char>, p: Seq<char>) -> bool {
    find(s, p) is Some
}

/// A found position holds `p`, and no earlier one from `i` on does.
pub proof fn lemma_find_from(s: Seq<char>, p: Seq<char>, i: int)
    requires
        0 <= i,
    ensures
        match find_from(s, p, i) {
            Some(k) => i <= k && occurs_at(s, p, k) && forall|j: int|
                i <= j < k ==> !occurs_at(s, p, j),
            None => forall|j: int| i <= j ==> !occurs_at(s, p, j),
        },
    decreases s.len() + 1 - i,
{
    if i > s.len() {
    } else if occurs_at(s, p, i) {
    } else {
        lemma_find_from(s, p, i + 1);
    }
}

/// The first position where `p` occurs in `s`.
pub fn find_chars(s: &Vec<char>, p: &Vec<char>) -> (r: Option<usize>)
    ensures
        match r {
            Some(k) => find(s@, p@) == Some(k as int),
            None => find(s@, p@) is None,
        },
{
    let mut i: usize = 0;
    while i < s.len()
        invariant
            i <= s@.len(),
            find_from(s@, p@, i as int) == find(s@, p@),
        decreases s@.len() - i,
    {
        if occurs_at_exec(s, p, i) {
            return Some(i);
        }
        i = i + 1;
    }
    if occurs_at_exec(s, p, i) {
        return Some(i);
    }
    assert(find_from(s@, p@, i + 1) is None);
    None
}

/// The first position where `p` occurs in `s`.
pub fn find_str(s: &Vec<char>, p: &str) -> (r: Option<usize>)
    ensures
        match r {
            Some(k) => find(s@, p@) == Some(k as int),
            None => find(s@, p@) is None,
        },
{
    let pv = chars_of(p);
    find_chars(s, &pv)
}

/// Whether `p` occurs in `s`.
pub fn contains_chars(s: &Vec<char>, p: &Vec<char>) -> (r: bool)
    ensures
        r == contains(s@, p@),
{
    find_chars(s, p).is_some()
}

/// Whether `p` occurs in `s`.
pub fn contains_str(s: &Vec<char>, p: &str) -> (r: bool)
    ensures
        r == contains(s@, p@),
{
    find_str(s, p).is_some()
}

/// The first position at or after `a` where `p` occurs in `s`.
pub fn find_from_exec(s: &Vec<char>, p: &Vec<char>, a: usize) -> (r: Option<usize>)
    requires
        a <= s@.len(),
    ensures
        match r {
            Some(k) => find_from(s@, p@, a as int) == Some(k as int),
            None => find_from(s@, p@, a as int) is None,
        },
{
    let mut i: usize = a;
    while i < s.len()
        invariant
            a <= i <= s@.len(),
            find_from(s@, p@, i as int) == find_from(s@, p@, a as int),
        decreases s@.len() - i,
    {
        if occurs_at_exec(s, p, i) {
            return Some(i);
        }
        i = i + 1;
    }
    if occurs_at_exec(s, p, i) {
        return Some(i);
    }
    assert(find_from(s@, p@, i + 1) is None);
    None
}

// ── splitting ────────────────────────────────────────────────────────────────

/// The texts held by a sequence of character vectors.
pub open spec fn texts(v: Seq<Vec<char>>) -> Seq<Seq<char>> {
    v.map_values(|x: Vec<char>| x@)
}

/// The pieces of `s[a..]` between the occurrences of `p`, left to right
/// (what `str::split` yields for a non-empty pattern).
pub open spec fn split_from(s: Seq<char>, p: Seq<char>, a: int) -> Seq<Seq<char>>
    recommends
        p.len() > 0,
        0 <= a <= s.len(),
    decreases s.len() - a,
{
    if p.len() == 0 || a < 0 || a > s.len() {
        seq![s.skip(a)]
    } else {
        match find_from(s, p, a) {
            Some(i) => {
                proof {
                    lemma_find_from(s, p, a);
                }
                seq![s.subrange(a, i)] + split_from(s, p, i + p.len())
            },
            None => seq![s.skip(a)],
        }
    }
}

/// The pieces of `s` between the occurrences of `p`.
pub open spec fn split(s: Seq<char>, p: Seq<char>) -> Seq<Seq<char>> {
    split_from(s, p, 0)
}

/// The pieces of `s` between the occurrences of `p`.
pub fn split_chars(s: &Vec<char>, p: &Vec<char>) -> (r: Vec<Vec<char>>)
    requires
        p@.len() > 0,
    ensures
        texts(r@) == split(s@, p@),
{
    let mut pieces: Vec<Vec<char>> = Vec::new();
    let mut a: usize = 0;
    loop
        invariant
            p@.len() > 0,
            a <= s@.len(),
            texts(pieces@) + split_from(s@, p@, a as int) == split(s@, p@),
        decreases s@.len() - a,
    {
        proof {
            lemma_find_from(s@, p@, a as int);
        }
        match find_from_exec(s, p, a) {
            Some(i) => {
                assert(occurs_at(s@, p@, i as int));
                assert(i + p@.len() <= s.len());
                let piece = subvec(s, a, i);
                let ghost old_pieces = texts(pieces@);
                pieces.push(piece);
                assert(texts(pieces@) =~= old_pieces.push(piece@));
                assert(texts(pieces@) + split_from(s@, p@, (i + p@.len()) as int) =~= old_pieces
                    + split_from(s@, p@, a as int));
                a = i + p.len();
            },
            None => {
                let piece = subvec(s, a, s.len());
                let ghost old_pieces = texts(pieces@);
                pieces.push(piece);
                assert(texts(pieces@) =~= old_pieces.push(piece@));
                assert(s@.subrange(a as int, s@.len() as int) =~= s@.skip(a as int));
                assert(texts(pieces@) =~= old_pieces + split_from(s@, p@, a as int));
                return pieces;
            },
        }
    }
}

/// The pieces of `s` between the occurrences of `p`.
pub fn split_str(s: &Vec<char>, p: &str) -> (r: Vec<Vec<char>>)
    requires
        p@.len() > 0,
    ensures
        texts(r@) == split(s@, p@),
{
    let pv = chars_of(p);
    split_chars(s, &pv)
}

/// `s` split once at the first occurrence of `p` (what `str::split_once` returns).
pub open spec fn split_once(s: Seq<char>, p: Seq<char>) -> Option<(Seq<char>, Seq<char>)> {
    match find(s, p) {
        Some(i) => Some((s.take(i), s.skip(i + p.len()))),
        None => None,
    }
}

/// `s` split at the first occurrence of `p`.
pub fn split_once_str(s: &Vec<char>, p: &str) -> (r: Option<(Vec<char>, Vec<char>)>)
    ensures
        match r {
            Some((x, y)) => split_once(s@, p@) == Some((x@, y@)),
            None => split_once(s@, p@) is None,
        },
{
    let pv = chars_of(p);
    proof {
        lemma_find_from(s@, p@, 0);
    }
    match find_chars(s, &pv) {
        Some(i) => {
            assert(occurs_at(s@, p@, i as int));
            assert(i + pv@.len() <= s.len());
            let x = subvec(s, 0, i);
            let y = subvec(s, i + pv.len(), s.len());
            assert(x@ =~= s@.take(i as int));
            assert(y@ =~= s@.skip(i + p@.len()));
            Some((x, y))
        },
        None => None,
    }
}

/// `t` without one trailing carriage return, if it ends in one.
pub open spec fn strip_cr(t: Seq<char>) -> Seq<char> {
    if t.len() > 0 && t.last() == '\r' {
        t.drop_last()
    } else {
        t
    }
}

/// The lines of `s[a..]`: pieces ended by `\n` (a `\r` before the `\n` dropped),
/// with no empty piece after a final line ending (what `str::lines` yields).
pub open spec fn lines_from(s: Seq<char>, a: int) -> Seq<Seq<char>>
    decreases s.len() - a,
{
    if a < 0 || a >= s.len() {
        Seq::empty()
    } else {
        match find_from(s, seq!['\n'], a) {
            Some(i) => {
                proof {
                    lemma_find_from(s, seq!['\n'], a);
                }
                seq![strip_cr(s.subrange(a, i))] + lines_from(s, i + 1)
            },
            None => seq![s.skip(a)],
        }
    }
}

/// The lines of `s`.
pub open spec fn lines(s: Seq<char>) -> Seq<Seq<char>> {
    lines_from(s, 0)
}

/// The lines of `s`.
pub fn lines_chars(s: &Vec<char>) -> (r: Vec<Vec<char>>)
    ensures
        texts(r@) == lines(s@),
{
    let nl: Vec<char> = vec!['\n'];
    assert(nl@ =~= seq!['\n']);
    let mut out: Vec<Vec<char>> = Vec::new();
    let mut a: usize = 0;
    while a < s.len()
        invariant
            nl@ == seq!['\n'],
            a <= s@.len(),
            texts(out@) + lines_from(s@, a as int) == lines(s@),
        decreases s@.len() - a,
    {
        proof {
            lemma_find_from(s@, nl@, a as int);
        }
        match find_from_exec(s, &nl, a) {
            Some(i) => {
                let mut piece = subvec(s, a, i);
                if piece.len() > 0 && piece[piece.len() - 1] == '\r' {
                    piece.pop();
                }
                assert(piece@ =~= strip_cr(s@.subrange(a as int, i as int)));
                let ghost old_out = texts(out@);
                out.push(piece);
                assert(texts(out@) =~= old_out.push(piece@));
                assert(texts(out@) + lines_from(s@, i + 1) =~= old_out + lines_from(
                    s@,
                    a as int,
                ));
                a = i + 1;
            },
            None => {
                let piece = subvec(s, a, s.len());
                let ghost old_out = texts(out@);
                out.push(piece);
                assert(texts(out@) =~= old_out.push(piece@));
                assert(s@.subrange(a as int, s@.len() as int) =~= s@.skip(a as int));
                assert(texts(out@) =~= old_out + lines_from(s@, a as int));
                return out;
            },
        }
    }
    assert(texts(out@) + lines_from(s@, a as int) =~= texts(out@));
    out
}

// ── replacing ────────────────────────────────────────────────────────────────

/// `s[a..]` with every occurrence of `f` (left to right, not overlapping)
/// replaced by `t` (what `str::replace` returns for a non-empty pattern).
pub open spec fn replace_from(s: Seq<char>, f: Seq<char>, t: Seq<char>, a: int) -> Seq<char>
    decreases s.len() - a,
{
    if f.len() == 0 || a < 0 || a > s.len() {
        s.skip(a)
    } else {
        match find_from(s, f, a) {
            Some(i) => {
                proof {
                    lemma_find_from(s, f, a);
                }
                s.subrange(a, i) + t + replace_from(s, f, t, i + f.len())
            },
            None => s.skip(a),
        }
    }
}

/// `s` with every occurrence of `f` replaced by `t`.
pub open spec fn replace(s: Seq<char>, f: Seq<char>, t: Seq<char>) -> Seq<char> {
    replace_from(s, f, t, 0)
}

/// `s` with every occurrence of `f` replaced by `t`.
pub fn replace_str(s: &Vec<char>, f: &str, t: &str) -> (r: Vec<char>)
    requires
        f@.len() > 0,
    ensures
        r@ == replace(s@, f@, t@),
{
    let fv = chars_of(f);
    let tv = chars_of(t);
    let mut out: Vec<char> = Vec::new();
    let mut a: usize = 0;
    loop
        invariant
            fv@ == f@,
            tv@ == t@,
            f@.len() > 0,
            a <= s@.len(),
            out@ + replace_from(s@, f@, t@, a as int) == replace(s@, f@, t@),
        decreases s@.len() - a,
    {
        proof {
            lemma_find_from(s@, f@, a as int);
        }
        match find_from_exec(s, &fv, a) {
            Some(i) => {
                assert(occurs_at(s@, f@, i as int));
                assert(i + fv@.len() <= s.len());
                let piece = subvec(s, a, i);
                let ghost old_out = out@;
                push_chars(&mut out, &piece);
                push_chars(&mut out, &tv);
                assert(out@ + replace_from(s@, f@, t@, i + f@.len()) =~= old_out + replace_from(
                    s@,
                    f@,
                    t@,
                    a as int,
                ));
                a = i + fv.len();
            },
            None => {
                let piece = subvec(s, a, s.len());
                let ghost old_out = out@;
                push_chars(&mut out, &piece);
                assert(s@.subrange(a as int, s@.len() as int) =~= s@.skip(a as int));
                assert(out@ =~= old_out + replace_from(s@, f@, t@, a as int));
                return out;
            },
        }
    }
}

// ── white-space separated tokens ─────────────────────────────────────────────

/// The first position at or after `a` that holds no white space (or `s.len()`).
pub open spec fn skip_ws(s: Seq<char>, a: int) -> int
    decreases s.len() - a,
{
    if a < 0 || a >= s.len() || !spec_is_whitespace(s[a]) {
        a
    } else {
        skip_ws(s, a + 1)
    }
}

/// The first position at or after `a` that holds white space (or `s.len()`).
pub open spec fn skip_word(s: Seq<char>, a: int) -> int
    decreases s.len() - a,
{
    if a < 0 || a >= s.len() || spec_is_whitespace(s[a]) {
        a
    } else {
        skip_word(s, a + 1)
    }
}

/// Skipping white space stays inside the text and stops at a non-space.
pub proof fn lemma_skip_ws(s: Seq<char>, a: int)
    requires
        0 <= a <= s.len(),
    ensures
        a <= skip_ws(s, a) <= s.len(),
        skip_ws(s, a) < s.len() ==> !spec_is_whitespace(s[skip_ws(s, a)]),
    decreases s.len() - a,
{
    if a < s.len() && spec_is_whitespace(s[a]) {
        lemma_skip_ws(s, a + 1);
    }
}

/// Skipping a word stays inside the text and stops at white space.
pub proof fn lemma_skip_word(s: Seq<char>, a: int)
    requires
        0 <= a <= s.len(),
    ensures
        a <= skip_word(s, a) <= s.len(),
        skip_word(s, a) < s.len() ==> spec_is_whitespace(s[skip_word(s, a)]),
        a < s.len() && !spec_is_whitespace(s[a]) ==> a < skip_word(s, a),
    decreases s.len() - a,
{
    if a < s.len() && !spec_is_whitespace(s[a]) {
        lemma_skip_word(s, a + 1);
    }
}

/// The maximal runs of non-white-space characters of `s[a..]`, in order
/// (what `str::split_whitespace` yields).
pub open spec fn words_from(s: Seq<char>, a: int) -> Seq<Seq<char>>
    decreases s.len() - a,
{
    if a < 0 || a > s.len() {
        Seq::empty()
    } else {
        let b = skip_ws(s, a);
        proof {
            lemma_skip_ws(s, a);
        }
        if b >= s.len() {
            Seq::empty()
        } else {
            let e = skip_word(s, b);
            proof {
                lemma_skip_word(s, b);
            }
            seq![s.subrange(b, e)] + words_from(s, e)
        }
    }
}

/// The white-space separated words of `s`.
pub open spec fn words(s: Seq<char>) -> Seq<Seq<char>> {
    words_from(s, 0)
}

/// The white-space separated words of `s`.
pub fn words_chars(s: &Vec<char>) -> (r: Vec<Vec<char>>)
    ensures
        texts(r@) == words(s@),
{
    let mut out: Vec<Vec<char>> = Vec::new();
    let mut a: usize = 0;
    loop
        invariant
            a <= s@.len(),
            texts(out@) + words_from(s@, a as int) == words(s@),
        decreases s@.len() - a,
    {
        let mut b = a;
        while b < s.len() && is_whitespace(s[b])
            invariant
                a <= b <= s@.len(),
                skip_ws(s@, b as int) == skip_ws(s@, a as int),
            decreases s@.len() - b,
        {
            b = b + 1;
        }
        if b >= s.len() {
            assert(texts(out@) + words_from(s@, a as int) =~= texts(out@));
            return out;
        }
        let mut e = b;
        while e < s.len() && !is_whitespace(s[e])
            invariant
                b <= e <= s@.len(),
                skip_word(s@, e as int) == skip_word(s@, b as int),
            decreases s@.len() - e,
        {
            e = e + 1;
        }
        proof {
            lemma_skip_word(s@, b as int);
        }
        let piece = subvec(s, b, e);
        let ghost old_out = texts(out@);
        out.push(piece);
        assert(texts(out@) =~= old_out.push(piece@));
        assert(texts(out@) + words_from(s@, e as int) =~= old_out + words_from(s@, a as int));
        a = e;
    }
}

// ── numbers ──────────────────────────────────────────────────────────────────

/// The decimal digit character of `d`.
pub open spec fn digit(d: nat) -> char {
    if d == 0 {
        '0'
    } else if d == 1 {
        '1'
    } else if d == 2 {
        '2'
    } else if d == 3 {
        '3'
    } else if d == 4 {
        '4'
    } else if d == 5 {
        '5'
    } else if d == 6 {
        '6'
    } else if d == 7 {
        '7'
    } else if d == 8 {
        '8'
    } else {
        '9'
    }
}

/// The decimal numeral of `n` (what `Display` writes for an unsigned integer).
pub open spec fn decimal(n: nat) -> Seq<char>
    decreases n,
{
    if n < 10 {
        seq![digit(n)]
    } else {
        decimal(n / 10).push(digit(n % 10))
    }
}

fn digit_exec(d: usize) -> (c: char)
    requires
        d < 10,
    ensures
        c == digit(d as nat),
{
    if d == 0 {
        '0'
    } else if d == 1 {
        '1'
    } else if d == 2 {
        '2'
    } else if d == 3 {
        '3'
    } else if d == 4 {
        '4'
    } else if d == 5 {
        '5'
    } else if d == 6 {
        '6'
    } else if d == 7 {
        '7'
    } else if d == 8 {
        '8'
    } else {
        '9'
    }
}

/// The decimal text of `n`.
pub fn decimal_chars(n: usize) -> (r: Vec<char>)
    ensures
        r@ == decimal(n as nat),
    decreases n,
{
    if n < 10 {
        let v = vec![digit_exec(n)];
        assert(v@ =~= seq![digit(n as nat)]);
        v
    } else {
        let mut v = decimal_chars(n / 10);
        v.push(digit_exec(n % 10));
        v
    }
}

// ── joining ──────────────────────────────────────────────────────────────────

/// The texts of `ls`, each followed by a line feed.
pub open spec fn text_lines(ls: Seq<Seq<char>>) -> Seq<char>
    decreases ls.len(),
{
    if ls.len() == 0 {
        Seq::empty()
    } else {
        text_lines(ls.drop_last()) + ls.last() + seq!['\n']
    }
}

/// The text of two runs of lines is the text of each, one after the other.
pub proof fn lemma_text_lines_add(a: Seq<Seq<char>>, b: Seq<Seq<char>>)
    ensures
        text_lines(a + b) == text_lines(a) + text_lines(b),
    decreases b.len(),
{
    if b.len() == 0 {
        assert(a + b =~= a);
        assert(text_lines(b) =~= Seq::<char>::empty());
        assert(text_lines(a) + text_lines(b) =~= text_lines(a));
    } else {
        lemma_text_lines_add(a, b.drop_last());
        assert((a + b).drop_last() =~= a + b.drop_last());
        assert((a + b).last() == b.last());
        assert(text_lines(a + b) =~= text_lines(a) + text_lines(b));
    }
}

/// The texts of `ls` with `sep` between consecutive ones (what `join` returns).
pub open spec fn join(ls: Seq<Seq<char>>, sep: Seq<char>) -> Seq<char>
    decreases ls.len(),
{
    if ls.len() == 0 {
        Seq::empty()
    } else if ls.len() == 1 {
        ls[0]
    } else {
        join(ls.drop_last(), sep) + sep + ls.last()
    }
}

/// The texts of `ls` with `sep` between consecutive ones.
pub fn join_chars(ls: &Vec<Vec<char>>, sep: &str) -> (r: Vec<char>)
    ensures
        r@ == join(texts(ls@), sep@),
{
    let sv = chars_of(sep);
    let mut out: Vec<char> = Vec::new();
    let mut i: usize = 0;
    while i < ls.len()
        invariant
            sv@ == sep@,
            i <= ls@.len(),
            out@ == join(texts(ls@).take(i as int), sep@),
        decreases ls@.len() - i,
    {
        let ghost dv = texts(ls@);
        assert(dv.take(i + 1).drop_last() =~= dv.take(i as int));
        if i > 0 {
            push_chars(&mut out, &sv);
        } else {
            assert(out@ =~= Seq::<char>::empty());
        }
        push_chars(&mut out, &ls[i]);
        assert(out@ =~= join(dv.take(i + 1), sep@));
        i = i + 1;
    }
    assert(texts(ls@).take(ls@.len() as int) =~= texts(ls@));
    out
}

// ── ordering ─────────────────────────────────────────────────────────────────

/// Lexicographic order of texts by character code (the order of `str`'s `Ord`,
/// which compares UTF-8 bytes and so agrees with code-point order).
pub open spec fn text_lt(a: Seq<char>, b: Seq<char>) -> bool
    decreases a.len(),
{
    if a.len() == 0 {
        b.len() > 0
    } else if b.len() == 0 {
        false
    } else if a[0] != b[0] {
        (a[0] as u32) < (b[0] as u32)
    } else {
        text_lt(a.drop_first(), b.drop_first())
    }
}

/// Whether `a` is below `b` in text order.
pub fn text_lt_exec(a: &Vec<char>, b: &Vec<char>) -> (r: bool)
    ensures
        r == text_lt(a@, b@),
{
    let mut i: usize = 0;
    assert(a@.skip(0) =~= a@);
    assert(b@.skip(0) =~= b@);
    while i < a.len() && i < b.len() && a[i] == b[i]
        invariant
            i <= a@.len(),
            i <= b@.len(),
            text_lt(a@.skip(i as int), b@.skip(i as int)) == text_lt(a@, b@),
        decreases a@.len() - i,
    {
        assert(a@.skip(i as int).drop_first() =~= a@.skip(i + 1));
        assert(b@.skip(i as int).drop_first() =~= b@.skip(i + 1));
        i = i + 1;
    }
    if i == a.len() {
        i < b.len()
    } else if i == b.len() {
        false
    } else {
        (a[i] as u32) < (b[i] as u32)
    }
}

// ── std functions whose meaning is Unicode tables ────────────────────────────

/// What `str::to_lowercase` returns for a text.
pub uninterp spec fn spec_to_lowercase(s: Seq<char>) -> Seq<char>;

/// Lower-cases `s` with `str::to_lowercase`. The contract names the result;
/// the Unicode case tables that decide it are not restated here.
#[verifier::external_body]
pub(crate) fn to_lowercase(s: &str) -> (r: String)
    ensures
        r@ == spec_to_lowercase(s@),
{
    s.to_lowercase()
}

/// What `char::is_alphanumeric` returns for a character.
pub uninterp spec fn spec_is_alphanumeric(c: char) -> bool;

/// Tests `c` with `char::is_alphanumeric`. The contract names the result;
/// the Unicode `Alphabetic` and `Numeric` tables that decide it are not restated.
#[verifier::external_body]
pub(crate) fn is_alphanumeric(c: char) -> (r: bool)
    ensures
        r == spec_is_alphanumeric(c),
{
    c.is_alphanumeric()
}

// ── assembling text ──────────────────────────────────────────────────────────

/// The texts `f(x)` for `x` in `xs`, concatenated in order.
pub open spec fn concat_map<A>(xs: Seq<A>, f: spec_fn(A) -> Seq<char>) -> Seq<char>
    decreases xs.len(),
{
    if xs.len() == 0 {
        Seq::empty()
    } else {
        concat_map(xs.drop_last(), f) + f(xs.last())
    }
}

/// One more element in a concatenation of texts.
pub proof fn lemma_concat_map_step<A>(xs: Seq<A>, f: spec_fn(A) -> Seq<char>, i: int)
    requires
        0 <= i < xs.len(),
    ensures
        concat_map(xs.take(i + 1), f) == concat_map(xs.take(i), f) + f(xs[i]),
{
    assert(xs.take(i + 1).drop_last() =~= xs.take(i));
    assert(xs.take(i + 1).last() == xs[i]);
}

/// Taking every element is taking the sequence.
pub proof fn lemma_concat_map_all<A>(xs: Seq<A>, f: spec_fn(A) -> Seq<char>)
    ensures
        concat_map(xs.take(xs.len() as int), f) == concat_map(xs, f),
{
    assert(xs.take(xs.len() as int) =~= xs);
}

/// Nothing taken, nothing concatenated.
pub proof fn lemma_concat_map_empty<A>(xs: Seq<A>, f: spec_fn(A) -> Seq<char>)
    ensures
        concat_map(xs.take(0), f) == Seq::<char>::empty(),
{
    assert(xs.take(0) =~= Seq::<A>::empty());
}

} // verus!
