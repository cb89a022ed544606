//! Unix path strings: joining, and the final-component queries that file
//! naming relies on.  Paths are held as `String`s with `/` separators.
use vstd::prelude::*;
use crate::text::{chars_of, push_chars, push_char};

verus! {

/// `Path::join`: an absolute `comp` replaces `base`; otherwise a `/` is
/// inserted unless `base` is empty or already ends in one.
pub open spec fn join_spec(base: Seq<char>, comp: Seq<char>) -> Seq<char> {
    if comp.len() > 0 && comp[0] == '/' {
        comp
    } else if base.len() > 0 && base.last() != '/' {
        base + seq!['/'] + comp
    } else {
        base + comp
    }
}

/// `base.join(comp)`.
pub fn join(base: &str, comp: &str) -> (r: String)
    ensures
        r@ == join_spec(base@, comp@),
{
    let b = chars_of(base);
    let c = chars_of(comp);
    let mut r = String::new();
    if c.len() > 0 && c[0] == '/' {
        push_chars(&mut r, &c);
    } else if b.len() > 0 && b[b.len() - 1] != '/' {
        push_chars(&mut r, &b);
        push_char(&mut r, '/');
        push_chars(&mut r, &c);
    } else {
        push_chars(&mut r, &b);
        push_chars(&mut r, &c);
    }
    r
}

/// Index just past `s[..end]` once trailing `/`s are dropped.
pub open spec fn trim_end(s: Seq<char>, end: int) -> int
    decreases end,
{
    if end > 0 && s[end - 1] == '/' {
        trim_end(s, end - 1)
    } else {
        end
    }
}

/// Start of the last `/`-free run ending at `end`.
pub open spec fn seg_start(s: Seq<char>, end: int) -> int
    decreases end,
{
    if end > 0 && s[end - 1] != '/' {
        seg_start(s, end - 1)
    } else {
        end
    }
}

pub proof fn lemma_trim_end_bounds(s: Seq<char>, end: int)
    requires
        0 <= end <= s.len(),
    ensures
        0 <= trim_end(s, end) <= end,
        trim_end(s, end) > 0 ==> s[trim_end(s, end) - 1] != '/',
        forall|j: int| trim_end(s, end) <= j < end ==> s[j] == '/',
    decreases end,
{
    if end > 0 && s[end - 1] == '/' {
        lemma_trim_end_bounds(s, end - 1);
    }
}

pub proof fn lemma_seg_start_bounds(s: Seq<char>, end: int)
    requires
        0 <= end <= s.len(),
    ensures
        0 <= seg_start(s, end) <= end,
        seg_start(s, end) > 0 ==> s[seg_start(s, end) - 1] == '/',
        forall|j: int| seg_start(s, end) <= j < end ==> s[j] != '/',
    decreases end,
{
    if end > 0 && s[end - 1] != '/' {
        lemma_seg_start_bounds(s, end - 1);
    }
}

/// Position `(start, end)` in `s` of the final normal component of the path
/// `s[..end]`, as `Path::file_name` finds it: trailing `/`s and `.`
/// components are skipped, and a final `..` (or none at all) gives `None`.
pub open spec fn file_name_at(s: Seq<char>, end: int) -> Option<(int, int)>
    decreases end,
{
    if end <= 0 || end > s.len() {
        None
    } else {
        let t = trim_end(s, end);
        let st = seg_start(s, t);
        if t <= 0 || st < 0 || st > t {
            None
        } else if t - st == 1 && s[st] == '.' {
            if st <= 0 || st - 1 >= end {
                None
            } else {
                file_name_at(s, st - 1)
            }
        } else if t - st == 2 && s[st] == '.' && s[st + 1] == '.' {
            None
        } else {
            Some((st, t))
        }
    }
}

/// `Path::file_name`: the final component of the path, if it is a name.
pub open spec fn file_name_spec(s: Seq<char>) -> Option<Seq<char>> {
    match file_name_at(s, s.len() as int) {
        Some((a, b)) => Some(s.subrange(a, b)),
        None => None,
    }
}

/// Position of the final component of `v` (see [`file_name_at`]).
pub(crate) fn file_name_range(v: &Vec<char>) -> (r: Option<(usize, usize)>)
    ensures
        match r {
            Some((a, b)) => file_name_at(v@, v@.len() as int) == Some((a as int, b as int)) && a < b
                <= v@.len(),
            None => file_name_at(v@, v@.len() as int) is None,
        },
{
    let mut end = v.len();
    loop
        invariant
            end <= v@.len(),
            file_name_at(v@, v@.len() as int) == file_name_at(v@, end as int),
        decreases end,
    {
        if end == 0 {
            return None;
        }
        let mut t = end;
        while t > 0 && v[t - 1] == '/'
            invariant
                t <= end <= v@.len(),
                trim_end(v@, end as int) == trim_end(v@, t as int),
            decreases t,
        {
            t = t - 1;
        }
        proof {
            lemma_trim_end_bounds(v@, end as int);
        }
        if t == 0 {
            return None;
        }
        let mut st = t;
        while st > 0 && v[st - 1] != '/'
            invariant
                st <= t <= v@.len(),
                seg_start(v@, t as int) == seg_start(v@, st as int),
            decreases st,
        {
            st = st - 1;
        }
        proof {
            lemma_seg_start_bounds(v@, t as int);
        }
        if t - st == 1 && v[st] == '.' {
            if st == 0 {
                return None;
            }
            end = st - 1;
        } else if t - st == 2 && v[st] == '.' && v[st + 1] == '.' {
            return None;
        } else {
            return Some((st, t));
        }
    }
}

/// The chars `v[a..b]`.
pub(crate) fn slice_chars(v: &Vec<char>, a: usize, b: usize) -> (r: Vec<char>)
    requires
        a <= b <= v@.len(),
    ensures
        r@ == v@.subrange(a as int, b as int),
{
    let mut r: Vec<char> = Vec::new();
    for i in a..b
        invariant
            a <= b <= v@.len(),
            r@ == v@.subrange(a as int, i as int),
    {
        r.push(v[i]);
    }
    r
}

/// `path.file_name()` as a string.
pub fn file_name(path: &str) -> (r: Option<String>)
    ensures
        match r {
            Some(n) => file_name_spec(path@) == Some(n@),
            None => file_name_spec(path@) is None,
        },
{
    let v = chars_of(path);
    match file_name_range(&v) {
        Some((a, b)) => {
            let s = slice_chars(&v, a, b);
            let mut out = String::new();
            push_chars(&mut out, &s);
            Some(out)
        },
        None => None,
    }
}

/// Index of the last `.` in `s[a..b]`, or `a - 1` (as `None`) when there is none.
pub open spec fn last_dot(s: Seq<char>, a: int, b: int) -> Option<int>
    decreases b - a,
{
    if b <= a {
        None
    } else if s[b - 1] == '.' {
        Some(b - 1)
    } else {
        last_dot(s, a, b - 1)
    }
}

/// `Path::file_stem` applied to a final component `name`: the part before the
/// last `.`, unless that `.` is the first char (a dotfile) or there is none.
pub open spec fn stem_of_name(name: Seq<char>) -> Seq<char> {
    match last_dot(name, 0, name.len() as int) {
        Some(p) => if p == 0 {
            name
        } else {
            name.subrange(0, p)
        },
        None => name,
    }
}

/// `Path::file_stem`.
pub open spec fn file_stem_spec(s: Seq<char>) -> Option<Seq<char>> {
    match file_name_spec(s) {
        Some(n) => Some(stem_of_name(n)),
        None => None,
    }
}

pub proof fn lemma_last_dot_bounds_pub(s: Seq<char>, a: int, b: int)
    ensures
        last_dot(s, a, b) matches Some(p) ==> a <= p < b && s[p] == '.',
    decreases b - a,
{
    if b > a && s[b - 1] != '.' {
        lemma_last_dot_bounds_pub(s, a, b - 1);
    }
}

/// `path.file_stem()` as a string.
pub fn file_stem(path: &str) -> (r: Option<String>)
    ensures
        match r {
            Some(n) => file_stem_spec(path@) == Some(n@),
            None => file_stem_spec(path@) is None,
        },
{
    let name = match file_name(path) {
        Some(n) => n,
        None => return None,
    };
    let v = chars_of(name.as_str());
    let mut b = v.len();
    while b > 0 && v[b - 1] != '.'
        invariant
            b <= v@.len(),
            last_dot(v@, 0, v@.len() as int) == last_dot(v@, 0, b as int),
        decreases b,
    {
        b = b - 1;
    }
    proof {
        lemma_last_dot_bounds_pub(v@, 0, b as int);
    }
    if b <= 1 {
        // no dot, or only a leading one: the whole name
        Some(name)
    } else {
        let s = slice_chars(&v, 0, b - 1);
        let mut out = String::new();
        push_chars(&mut out, &s);
        Some(out)
    }
}

/// `s.replace(pat, rep)`: every non-overlapping occurrence of `pat`, scanning
/// from the left, is replaced by `rep`.  `pat` must be non-empty.
pub open spec fn replace_spec(s: Seq<char>, pat: Seq<char>, rep: Seq<char>) -> Seq<char>
    decreases s.len(),
{
    if pat.len() == 0 || s.len() < pat.len() {
        s
    } else if s.subrange(0, pat.len() as int) == pat {
        rep + replace_spec(s.subrange(pat.len() as int, s.len() as int), pat, rep)
    } else {
        seq![s[0]] + replace_spec(s.subrange(1, s.len() as int), pat, rep)
    }
}

/// Does `pat` occur in `v` at position `i`?
pub(crate) fn matches_at(v: &Vec<char>, i: usize, pat: &Vec<char>) -> (r: bool)
    requires
        i + pat.len() <= v.len(),
    ensures
        r == (v@.subrange(i as int, i + pat@.len()) == pat@),
{
    for k in 0..pat.len()
        invariant
            i + pat.len() <= v.len(),
            forall|j: int| 0 <= j < k ==> v@[i + j] == pat@[j],
    {
        if v[i + k] != pat[k] {
            assert(v@.subrange(i as int, i + pat@.len())[k as int] != pat@[k as int]);
            return false;
        }
    }
    assert(v@.subrange(i as int, i + pat@.len()) =~= pat@);
    true
}

/// `s.replace(pat, rep)` for a non-empty `pat`.
pub fn replace_all(s: &str, pat: &str, rep: &str) -> (r: String)
    requires
        pat@.len() > 0,
    ensures
        r@ == replace_spec(s@, pat@, rep@),
{
    let v = chars_of(s);
    let p = chars_of(pat);
    let q = chars_of(rep);
    let mut out = String::new();
    let mut i: usize = 0;
    assert(v@.subrange(0, v@.len() as int) =~= v@);
    assert(out@ + v@ =~= v@);
    while i < v.len()
        invariant
            i <= v@.len(),
            p@.len() > 0,
            replace_spec(v@, p@, q@) == out@ + replace_spec(v@.subrange(i as int, v@.len() as int), p@, q@),
        decreases v@.len() - i,
    {
        let ghost rest = v@.subrange(i as int, v@.len() as int);
        if p.len() <= v.len() - i && matches_at(&v, i, &p) {
            proof {
                assert(rest.subrange(0, p@.len() as int) =~= v@.subrange(i as int, i + p@.len()));
                assert(rest.subrange(p@.len() as int, rest.len() as int) =~= v@.subrange(
                    i + p@.len(),
                    v@.len() as int,
                ));
                assert(out@ + q@ + replace_spec(v@.subrange(i + p@.len(), v@.len() as int), p@, q@)
                    =~= out@ + (q@ + replace_spec(v@.subrange(i + p@.len(), v@.len() as int), p@, q@)));
            }
            push_chars(&mut out, &q);
            i = i + p.len();
        } else {
            proof {
                if rest.len() >= p@.len() {
                    assert(rest.subrange(0, p@.len() as int) =~= v@.subrange(i as int, i + p@.len()));
                }
                assert(rest.subrange(1, rest.len() as int) =~= v@.subrange(i + 1, v@.len() as int));
                assert(out@.push(v@[i as int]) + replace_spec(v@.subrange(i + 1, v@.len() as int), p@, q@)
                    =~= out@ + (seq![v@[i as int]] + replace_spec(v@.subrange(i + 1, v@.len() as int), p@, q@)));
            }
            push_char(&mut out, v[i]);
            i = i + 1;
        }
    }
    proof {
        assert(v@.subrange(i as int, v@.len() as int) =~= Seq::<char>::empty());
        assert(out@ + Seq::<char>::empty() =~= out@);
    }
    out
}


/// Index of the first `/` at or after `i`, or the length when there is none.
pub open spec fn first_slash(s: Seq<char>, i: int) -> int
    decreases s.len() - i,
{
    if i >= s.len() {
        s.len() as int
    } else if s[i] == '/' {
        i
    } else {
        first_slash(s, i + 1)
    }
}

pub proof fn lemma_first_slash_bounds(s: Seq<char>, i: int)
    requires
        0 <= i,
    ensures
        i <= first_slash(s, i) || (i > s.len() && first_slash(s, i) == s.len()),
        first_slash(s, i) <= s.len() || i > s.len(),
        i <= s.len() ==> i <= first_slash(s, i) <= s.len(),
        first_slash(s, i) < s.len() ==> s[first_slash(s, i)] == '/',
        forall|j: int| i <= j < first_slash(s, i) ==> s[j] != '/',
    decreases s.len() - i,
{
    if i < s.len() && s[i] != '/' {
        lemma_first_slash_bounds(s, i + 1);
    }
}

/// The normal components of `s[i..]`: the `/`-separated pieces, leaving out
/// empty pieces and `.`.
pub open spec fn segs_from(s: Seq<char>, i: int) -> Seq<Seq<char>>
    decreases s.len() - i,
{
    if i < 0 || i >= s.len() {
        Seq::empty()
    } else {
        let k = first_slash(s, i);
        if k < i || k > s.len() {
            Seq::empty()
        } else {
            let seg = s.subrange(i, k);
            let rest = if k < s.len() {
                segs_from(s, k + 1)
            } else {
                Seq::empty()
            };
            if seg.len() == 0 || seg == seq!['.'] {
                rest
            } else {
                seq![seg] + rest
            }
        }
    }
}

/// `Path::components` of a Unix path, each as its text: a leading `/` is the
/// root, a leading `.` (alone or before a `/`) is the current directory, and
/// the rest are the normal pieces.  Two paths are equal as `Path`s exactly when
/// these lists are equal.
pub open spec fn components_spec(s: Seq<char>) -> Seq<Seq<char>> {
    (if s.len() > 0 && s[0] == '/' {
        seq![seq!['/']]
    } else if s == seq!['.'] || (s.len() >= 2 && s[0] == '.' && s[1] == '/') {
        seq![seq!['.']]
    } else {
        Seq::empty()
    }) + segs_from(s, 0)
}

pub open spec fn vviews(v: Seq<Vec<char>>) -> Seq<Seq<char>> {
    v.map_values(|x: Vec<char>| x@)
}

/// The components of `path` (see [`components_spec`]).
pub fn components(path: &str) -> (r: Vec<Vec<char>>)
    ensures
        vviews(r@) == components_spec(path@),
{
    let v = chars_of(path);
    let mut out: Vec<Vec<char>> = Vec::new();
    if v.len() > 0 && v[0] == '/' {
        let mut root: Vec<char> = Vec::new();
        root.push('/');
        out.push(root);
    } else if (v.len() == 1 && v[0] == '.') || (v.len() >= 2 && v[0] == '.' && v[1] == '/') {
        let mut cur: Vec<char> = Vec::new();
        cur.push('.');
        out.push(cur);
        proof {
            if v.len() == 1 {
                assert(v@ =~= seq!['.']);
            }
        }
    }
    proof {
        if !(v@.len() == 1 && v@[0] == '.') {
            assert(v@ != seq!['.']);
        }
    }
    let ghost head = vviews(out@);
    assert(head == components_spec(v@).subrange(0, head.len() as int)) by {
        assert(components_spec(v@) =~= head + segs_from(v@, 0));
    }
    let mut i: usize = 0;
    while i < v.len()
        invariant
            i <= v@.len(),
            head + segs_from(v@, 0) == vviews(out@) + segs_from(v@, i as int),
        decreases v@.len() - i,
    {
        let mut k = i;
        while k < v.len() && v[k] != '/'
            invariant
                i <= k <= v@.len(),
                first_slash(v@, i as int) == first_slash(v@, k as int),
            decreases v@.len() - k,
        {
            k = k + 1;
        }
        proof {
            lemma_first_slash_bounds(v@, i as int);
        }
        let seg = slice_chars(&v, i, k);
        let ghost rest = if k < v@.len() { segs_from(v@, k + 1) } else { Seq::empty() };
        let is_dot = seg.len() == 1 && seg[0] == '.';
        proof {
            if seg@.len() == 1 {
                if seg@[0] == '.' {
                    assert(seg@ =~= seq!['.']);
                } else {
                    assert(seg@ != seq!['.']);
                }
            }
        }
        if seg.len() == 0 || is_dot {
            proof {
                assert(segs_from(v@, i as int) == rest);
            }
        } else {
            let ghost before = vviews(out@);
            out.push(seg);
            proof {
                assert(segs_from(v@, i as int) == seq![seg@] + rest);
                assert(vviews(out@) =~= before.push(seg@));
                assert(before + (seq![seg@] + rest) =~= before.push(seg@) + rest);
            }
        }
        if k < v.len() {
            i = k + 1;
        } else {
            proof {
                assert(rest =~= segs_from(v@, v@.len() as int));
            }
            i = k;
        }
    }
    proof {
        assert(segs_from(v@, i as int) =~= Seq::<Seq<char>>::empty());
        assert(vviews(out@) + Seq::<Seq<char>>::empty() =~= vviews(out@));
        assert(components_spec(v@) =~= head + segs_from(v@, 0));
    }
    out
}

/// Equality of two component lists.
pub fn components_eq(a: &Vec<Vec<char>>, b: &Vec<Vec<char>>) -> (r: bool)
    ensures
        r == (vviews(a@) == vviews(b@)),
{
    if a.len() != b.len() {
        proof {
            assert(vviews(a@).len() != vviews(b@).len());
        }
        return false;
    }
    for i in 0..a.len()
        invariant
            a.len() == b.len(),
            forall|j: int| 0 <= j < i ==> (#[trigger] a@[j])@ == b@[j]@,
    {
        if !crate::text::seq_chars_eq(&a[i], &b[i]) {
            proof {
                assert(vviews(a@)[i as int] != vviews(b@)[i as int]);
            }
            return false;
        }
    }
    proof {
        assert(vviews(a@) =~= vviews(b@));
    }
    true
}


/// A single normal path component: non-empty, free of `/`, and not `.`.
pub open spec fn is_plain_name(n: Seq<char>) -> bool {
    n.len() > 0 && n != seq!['.'] && forall|i: int| 0 <= i < n.len() ==> n[i] != '/'
}

proof fn lemma_first_slash_shift(d: Seq<char>, x: Seq<char>, j: int)
    requires
        0 <= j <= x.len(),
    ensures
        first_slash(d + x, d.len() + j) == d.len() + first_slash(x, j),
    decreases x.len() - j,
{
    if j < x.len() {
        assert((d + x)[d.len() + j] == x[j]);
        if x[j] != '/' {
            lemma_first_slash_shift(d, x, j + 1);
        }
    }
}

proof fn lemma_first_slash_append(d: Seq<char>, x: Seq<char>, i: int)
    requires
        0 <= i <= d.len(),
    ensures
        first_slash(d + x, i) == if first_slash(d, i) < d.len() {
            first_slash(d, i)
        } else {
            d.len() + first_slash(x, 0)
        },
    decreases d.len() - i,
{
    lemma_first_slash_bounds(d, i);
    if i < d.len() {
        assert((d + x)[i] == d[i]);
        if d[i] != '/' {
            lemma_first_slash_append(d, x, i + 1);
        }
    } else {
        lemma_first_slash_shift(d, x, 0);
    }
}

proof fn lemma_first_slash_none(x: Seq<char>, j: int)
    requires
        0 <= j <= x.len(),
        forall|k: int| j <= k < x.len() ==> x[k] != '/',
    ensures
        first_slash(x, j) == x.len(),
    decreases x.len() - j,
{
    if j < x.len() {
        lemma_first_slash_none(x, j + 1);
    }
}

proof fn lemma_segs_append(d: Seq<char>, x: Seq<char>, n: Seq<char>, i: int)
    requires
        0 <= i <= d.len(),
        segs_from(d + x, d.len() as int) == seq![n],
        (x.len() > 0 && x[0] == '/') || (d.len() > 0 && d.last() == '/') || d.len() == 0,
    ensures
        segs_from(d + x, i) == segs_from(d, i) + seq![n],
    decreases d.len() - i,
{
    let s = d + x;
    if i == d.len() {
        assert(segs_from(d, i) =~= Seq::<Seq<char>>::empty());
        assert(segs_from(d, i) + seq![n] =~= seq![n]);
    } else {
        lemma_first_slash_bounds(d, i);
        lemma_first_slash_append(d, x, i);
        let kd = first_slash(d, i);
        if kd < d.len() {
            lemma_segs_append(d, x, n, kd + 1);
            assert(s.subrange(i, kd) =~= d.subrange(i, kd));
            let seg = d.subrange(i, kd);
            if seg.len() == 0 || seg == seq!['.'] {
            } else {
                assert(seq![seg] + (segs_from(d, kd + 1) + seq![n]) =~= (seq![seg] + segs_from(d, kd + 1))
                    + seq![n]);
            }
        } else {
            assert(d.last() != '/') by {
                if d.len() > 0 {
                    assert(d[d.len() - 1] != '/');
                }
            }
            assert(x[0] == '/');
            assert(first_slash(x, 0) == 0);
            assert(s.subrange(i, d.len() as int) =~= d.subrange(i, d.len() as int));
            assert(s[d.len() as int] == '/');
            assert(first_slash(s, d.len() as int) == d.len());
            assert(s.subrange(d.len() as int, d.len() as int) =~= Seq::<char>::empty());
            assert(segs_from(s, d.len() as int) == segs_from(s, d.len() as int + 1));
            let seg = d.subrange(i, d.len() as int);
            if seg.len() == 0 || seg == seq!['.'] {
                assert(segs_from(d, i) =~= Seq::<Seq<char>>::empty());
                assert(segs_from(d, i) + seq![n] =~= seq![n]);
            } else {
                assert(segs_from(d, i) =~= seq![seg]);
                assert(segs_from(s, i) =~= seq![seg] + seq![n]);
            }
        }
    }
}

/// Joining a plain name onto a directory adds exactly that one component.
pub proof fn lemma_components_join(d: Seq<char>, n: Seq<char>)
    requires
        is_plain_name(n),
    ensures
        components_spec(join_spec(d, n)) == components_spec(d).push(n),
{
    let s = join_spec(d, n);
    assert(n[0] != '/');
    if d.len() > 0 && d.last() != '/' {
        let x = seq!['/'] + n;
        assert(s =~= d + x);
        assert(x[0] == '/');
        lemma_first_slash_none(s, d.len() as int + 1);
        assert forall|k: int| d.len() as int + 1 <= k < s.len() implies s[k] != '/' by {
            assert(s[k] == n[k - d.len() - 1]);
        }
        lemma_first_slash_none(s, d.len() as int + 1);
        assert(s.subrange(d.len() as int + 1, s.len() as int) =~= n);
        assert(s[d.len() as int] == '/');
        assert(s.subrange(d.len() as int, d.len() as int) =~= Seq::<char>::empty());
        assert(segs_from(s, d.len() as int + 1) =~= seq![n]);
        assert(segs_from(s, d.len() as int) =~= seq![n]);
        lemma_segs_append(d, x, n, 0);
        if d.len() == 1 {
            if d[0] == '.' {
                assert(d =~= seq!['.']);
            } else {
                assert(d != seq!['.']);
            }
        } else {
            assert(s[1] == d[1]);
            assert(d != seq!['.']);
        }
        assert(s[0] == d[0]);
        assert(s != seq!['.']);
    } else {
        assert(s =~= d + n);
        assert forall|k: int| d.len() <= k < s.len() implies s[k] != '/' by {
            assert(s[k] == n[k - d.len()]);
        }
        lemma_first_slash_none(s, d.len() as int);
        assert(s.subrange(d.len() as int, s.len() as int) =~= n);
        assert(segs_from(s, d.len() as int) =~= seq![n]);
        lemma_segs_append(d, n, n, 0);
        if d.len() == 0 {
            assert(s =~= n);
            assert(components_spec(d) =~= Seq::<Seq<char>>::empty());
            if n.len() >= 2 {
                assert(n[1] != '/');
            }
        } else {
            assert(s[0] == d[0]);
            if d.len() >= 2 {
                assert(s[1] == d[1]);
            }
            assert(d != seq!['.']);
            assert(s != seq!['.']);
        }
    }
    assert(components_spec(s) =~= components_spec(d).push(n));
}

/// What `Path::file_name` gives is a plain name.
pub proof fn lemma_file_name_plain(s: Seq<char>, end: int)
    requires
        0 <= end <= s.len(),
        file_name_at(s, end) matches Some((a, b)) && true,
    ensures
        file_name_at(s, end) matches Some((a, b)) && 0 <= a < b <= s.len() && is_plain_name(s.subrange(a, b)),
    decreases end,
{
    let t = trim_end(s, end);
    lemma_trim_end_bounds(s, end);
    lemma_seg_start_bounds(s, t);
    let st = seg_start(s, t);
    if t > 0 && st >= 0 && st <= t {
        if t - st == 1 && s[st] == '.' {
            if st > 0 && st - 1 < end {
                lemma_file_name_plain(s, st - 1);
            }
        } else if t - st == 2 && s[st] == '.' && s[st + 1] == '.' {
        } else {
            assert(st < t) by {
                if st == t {
                    assert(s[t - 1] != '/');
                    assert(seg_start(s, t) == seg_start(s, t - 1));
                    lemma_seg_start_bounds(s, t - 1);
                }
            }
            let n = s.subrange(st, t);
            assert forall|i: int| 0 <= i < n.len() implies n[i] != '/' by {
                assert(n[i] == s[st + i]);
            }
            if n.len() == 1 {
                assert(n[0] == s[st]);
                assert(n != seq!['.']) by {
                    if n == seq!['.'] {
                        assert(n[0] == '.');
                    }
                }
            } else {
                assert(n.len() != seq!['.'].len());
            }
        }
    }
}
/// A path that starts with a plain name and a `/` has that name as its
/// first component.
pub proof fn lemma_first_component(top: Seq<char>, x: Seq<char>)
    requires
        is_plain_name(top),
    ensures
        components_spec(top + seq!['/'] + x).len() > 0,
        components_spec(top + seq!['/'] + x)[0] == top,
{
    let s = top + seq!['/'] + x;
    assert(s[0] == top[0]);
    assert(top[0] != '/');
    if top.len() == 1 {
        assert(s[1] == '/');
        if top[0] == '.' {
            assert(top =~= seq!['.']);
        }
    } else {
        assert(s[1] == top[1]);
        assert(top[1] != '/');
    }
    assert(s != seq!['.']);
    assert(s =~= top + (seq!['/'] + x));
    lemma_first_slash_append(top, seq!['/'] + x, 0);
    lemma_first_slash_none(top, 0);
    assert((seq!['/'] + x)[0] == '/');
    assert(first_slash(seq!['/'] + x, 0) == 0);
    assert(first_slash(s, 0) == top.len());
    assert(s.subrange(0, top.len() as int) =~= top);
    assert(segs_from(s, 0) == seq![top] + segs_from(s, top.len() as int + 1));
    assert(components_spec(s) =~= segs_from(s, 0));
}

} // verus!
