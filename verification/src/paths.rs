//! Unix path text: the final component, its extension, and joining.
use vstd::prelude::*;
use crate::text::{chars_eq, chars_of, push_chars, push_str, split, split_str, starts_with_str, subvec, texts};

verus! {

/// Whether a `/`-separated segment names a component (not empty, not `.`).
pub open spec fn is_component(seg: Seq<char>) -> bool {
    seg.len() > 0 && seg != "."@
}

/// The last component of `p` (what `Path::file_name` returns on Unix): the
/// last `/`-separated segment that is neither empty nor `.`, unless it is `..`.
pub open spec fn file_name(p: Seq<char>) -> Option<Seq<char>> {
    let segs = split(p, "/"@).filter(|s: Seq<char>| is_component(s));
    if segs.len() == 0 || segs.last() == ".."@ {
        None
    } else {
        Some(segs.last())
    }
}

/// The position of the last `.` in `f`.
pub open spec fn last_dot(f: Seq<char>) -> Option<int>
    decreases f.len(),
{
    if f.len() == 0 {
        None
    } else if f.last() == '.' {
        Some(f.len() - 1)
    } else {
        last_dot(f.drop_last())
    }
}

/// The extension of `p` (what `Path::extension` returns): the text after the
/// last `.` of the file name, unless that `.` starts the name or there is none.
pub open spec fn extension(p: Seq<char>) -> Option<Seq<char>> {
    match file_name(p) {
        None => None,
        Some(f) => match last_dot(f) {
            None => None,
            Some(i) => if i == 0 {
                None
            } else {
                Some(f.skip(i + 1))
            },
        },
    }
}

/// `base` joined with `p` (what `Path::join` gives on Unix): `p` itself when it
/// is absolute, else `p` appended after a `/` unless `base` is empty or ends in one.
pub open spec fn join_path(base: Seq<char>, p: Seq<char>) -> Seq<char> {
    if p.len() > 0 && p[0] == '/' {
        p
    } else if base.len() > 0 && base.last() != '/' {
        base + "/"@ + p
    } else {
        base + p
    }
}

/// Whether a segment names a path component.
pub fn is_component_exec(seg: &Vec<char>) -> (r: bool)
    ensures
        r == is_component(seg@),
{
    let dot = chars_of(".");
    seg.len() > 0 && !chars_eq(seg, &dot)
}

/// The last component of a path.
pub fn file_name_chars(p: &Vec<char>) -> (r: Option<Vec<char>>)
    ensures
        match r {
            Some(v) => file_name(p@) == Some(v@),
            None => file_name(p@) is None,
        },
{
    proof {
        reveal_strlit("/");
    }
    let segs = split_str(p, "/");
    let ghost pred = |s: Seq<char>| is_component(s);
    let mut last: Option<usize> = None;
    let mut i: usize = 0;
    while i < segs.len()
        invariant
            pred == (|s: Seq<char>| is_component(s)),
            i <= segs@.len(),
            texts(segs@) == split(p@, "/"@),
            match last {
                Some(k) => k < i && texts(segs@).take(i as int).filter(pred).len() > 0
                    && texts(segs@).take(i as int).filter(pred).last() == segs@[k as int]@,
                None => texts(segs@).take(i as int).filter(pred).len() == 0,
            },
        decreases segs@.len() - i,
    {
        let ghost t = texts(segs@);
        assert(t.take(i + 1) =~= t.take(i as int).push(t[i as int]));
        proof {
            t.take(i as int).lemma_filter_push(t[i as int], pred);
        }
        assert(t[i as int] == segs@[i as int]@);
        assert(pred(t[i as int]) == is_component(segs@[i as int]@));
        if is_component_exec(&segs[i]) {
            last = Some(i);
        }
        i = i + 1;
    }
    let ghost t = texts(segs@);
    assert(t.take(segs@.len() as int) =~= t);
    match last {
        None => None,
        Some(k) => {
            let f = subvec(&segs[k], 0, segs[k].len());
            assert(f@ =~= segs@[k as int]@);
            let dd = chars_of("..");
            if chars_eq(&f, &dd) {
                None
            } else {
                Some(f)
            }
        },
    }
}

/// A found dot lies inside the name.
pub proof fn lemma_last_dot(f: Seq<char>)
    ensures
        last_dot(f) matches Some(k) ==> 0 <= k < f.len() && f[k] == '.',
    decreases f.len(),
{
    if f.len() > 0 && f.last() != '.' {
        lemma_last_dot(f.drop_last());
    }
}

/// The position of the last `.` in a name.
pub fn last_dot_exec(f: &Vec<char>) -> (r: Option<usize>)
    ensures
        match r {
            Some(k) => last_dot(f@) == Some(k as int),
            None => last_dot(f@) is None,
        },
{
    let mut j = f.len();
    assert(f@.take(j as int) =~= f@);
    while j > 0
        invariant
            j <= f@.len(),
            last_dot(f@.take(j as int)) == last_dot(f@),
        decreases j,
    {
        if f[j - 1] == '.' {
            return Some(j - 1);
        }
        assert(f@.take(j as int).drop_last() =~= f@.take(j - 1));
        j = j - 1;
    }
    None
}

/// The extension of a path.
pub fn extension_chars(p: &Vec<char>) -> (r: Option<Vec<char>>)
    ensures
        match r {
            Some(v) => extension(p@) == Some(v@),
            None => extension(p@) is None,
        },
{
    match file_name_chars(p) {
        None => None,
        Some(f) => match last_dot_exec(&f) {
            None => None,
            Some(i) => {
                proof {
                    lemma_last_dot(f@);
                }
                if i == 0 {
                    None
                } else {
                    let e = subvec(&f, i + 1, f.len());
                    assert(e@ =~= f@.skip(i + 1));
                    Some(e)
                }
            },
        },
    }
}

/// `base` joined with `p`.
pub fn join_path_chars(base: &Vec<char>, p: &Vec<char>) -> (r: Vec<char>)
    ensures
        r@ == join_path(base@, p@),
{
    let mut out: Vec<char> = Vec::new();
    if p.len() > 0 && p[0] == '/' {
        push_chars(&mut out, p);
        assert(out@ =~= p@);
        return out;
    }
    push_chars(&mut out, base);
    if base.len() > 0 && base[base.len() - 1] != '/' {
        push_str(&mut out, "/");
    }
    push_chars(&mut out, p);
    assert(out@ =~= join_path(base@, p@));
    out
}

} // verus!
