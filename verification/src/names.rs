//! Collision-free file names within one output directory.
use vstd::prelude::*;
use vstd::seq_lib::*;
use vstd::set_lib::*;
use crate::path::{components, components_eq, components_spec, last_dot, vviews};
use crate::text::{chars_of, dec_chars, digit_char, push_char, push_chars, push_dec, seq_chars_eq};

verus! {

/// The names already handed out in one directory.  They are held in a
/// vector whose view is the set of names, so that membership and insertion
/// are proved over text, which std's hash set does not let Verus prove for
/// `String` keys.
pub struct TakenNames {
    names: Vec<String>,
}

impl View for TakenNames {
    type V = Set<Seq<char>>;

    closed spec fn view(&self) -> Set<Seq<char>> {
        self.names@.map_values(|s: String| s@).to_set()
    }
}

/// Split a file name at its last `.`: `("IMG_1", ".ARW")`; a name with no dot,
/// or whose only dot is its first char, has an empty extension.
pub open spec fn split_ext(name: Seq<char>) -> (Seq<char>, Seq<char>) {
    match last_dot(name, 0, name.len() as int) {
        Some(p) => if p > 0 {
            (name.subrange(0, p), name.subrange(p, name.len() as int))
        } else {
            (name, Seq::empty())
        },
        None => (name, Seq::empty()),
    }
}

/// `format!("{stem} ({n}){ext}")`.
pub open spec fn numbered(stem: Seq<char>, ext: Seq<char>, n: nat) -> Seq<char> {
    stem + seq![' ', '('] + dec_chars(n) + seq![')'] + ext
}

/// `n` is the first number from 2 up whose numbered variant of `name` is free.
pub open spec fn first_free(taken: Set<Seq<char>>, name: Seq<char>, n: nat) -> bool {
    &&& n >= 2
    &&& !taken.contains(numbered(split_ext(name).0, split_ext(name).1, n))
    &&& forall|k: nat|
        2 <= k < n ==> taken.contains(#[trigger] numbered(split_ext(name).0, split_ext(name).1, k))
}

/// The name `dedupe_name` hands out for `name` when `taken` are in use: the
/// name itself if free, otherwise the first free `"stem (n).ext"`, `n >= 2`.
pub open spec fn deduped(taken: Set<Seq<char>>, name: Seq<char>) -> Seq<char> {
    if !taken.contains(name) {
        name
    } else {
        let n = choose|n: nat| first_free(taken, name, n);
        numbered(split_ext(name).0, split_ext(name).1, n)
    }
}

proof fn lemma_digit_char_injective(a: nat, b: nat)
    requires
        a < 10,
        b < 10,
        digit_char(a) == digit_char(b),
    ensures
        a == b,
{
}

pub proof fn lemma_dec_chars_injective(a: nat, b: nat)
    requires
        dec_chars(a) == dec_chars(b),
    ensures
        a == b,
    decreases a,
{
    if a >= 10 && b >= 10 {
        assert(dec_chars(a).drop_last() == dec_chars(a / 10));
        assert(dec_chars(b).drop_last() == dec_chars(b / 10));
        lemma_dec_chars_injective(a / 10, b / 10);
        assert(dec_chars(a).last() == digit_char(a % 10));
        assert(dec_chars(b).last() == digit_char(b % 10));
        lemma_digit_char_injective(a % 10, b % 10);
        assert(a == 10 * (a / 10) + a % 10);
        assert(b == 10 * (b / 10) + b % 10);
    } else if a < 10 && b < 10 {
        assert(dec_chars(a) == seq![digit_char(a)]);
        assert(dec_chars(b) == seq![digit_char(b)]);
        assert(dec_chars(a)[0] == dec_chars(b)[0]);
        assert(seq![digit_char(a)][0] == digit_char(a));
        assert(seq![digit_char(b)][0] == digit_char(b));
        lemma_digit_char_injective(a, b);
    } else if a >= 10 {
        lemma_dec_len_ge2(a);
        assert(dec_chars(b).len() == 1);
    } else {
        lemma_dec_len_ge2(b);
        assert(dec_chars(a).len() == 1);
    }
}

proof fn lemma_dec_len_ge2(a: nat)
    requires
        a >= 10,
    ensures
        dec_chars(a).len() >= 2,
{
    crate::text::lemma_dec_chars_len_pos((a / 10) as nat);
}

pub proof fn lemma_numbered_injective(stem: Seq<char>, ext: Seq<char>, a: nat, b: nat)
    requires
        numbered(stem, ext, a) == numbered(stem, ext, b),
    ensures
        a == b,
{
    let x = numbered(stem, ext, a);
    let y = numbered(stem, ext, b);
    let da = dec_chars(a);
    let db = dec_chars(b);
    assert(x.len() == stem.len() + 2 + da.len() + 1 + ext.len());
    assert(y.len() == stem.len() + 2 + db.len() + 1 + ext.len());
    let lo = stem.len() + 2;
    assert(x.subrange(lo as int, (lo + da.len()) as int) =~= da);
    assert(y.subrange(lo as int, (lo + db.len()) as int) =~= db);
    lemma_dec_chars_injective(a, b);
}

impl TakenNames {
    /// No names taken.
    pub fn new() -> (t: Self)
        ensures
            t@ == Set::<Seq<char>>::empty(),
            t.len_spec() == 0,
    {
        let t = TakenNames { names: Vec::new() };
        assert(t@ =~= Set::<Seq<char>>::empty());
        t
    }

    /// How many names were handed out.
    pub closed spec fn len_spec(&self) -> nat {
        self.names@.len()
    }

    pub proof fn lemma_finite(&self)
        ensures
            self@.finite(),
            self@.len() <= self.len_spec(),
    {
        let s = self.names@.map_values(|s: String| s@);
        seq_to_set_is_finite(s);
        s.lemma_cardinality_of_set();
    }

    /// Whether `name` is taken.
    pub fn contains(&self, name: &str) -> (r: bool)
        ensures
            r == self@.contains(name@),
    {
        let v = chars_of(name);
        for i in 0..self.names.len()
            invariant
                v@ == name@,
                forall|j: int| 0 <= j < i ==> (#[trigger] self.names@[j])@ != name@,
        {
            let w = chars_of(self.names[i].as_str());
            if seq_chars_eq(&w, &v) {
                proof {
                    let s = self.names@.map_values(|s: String| s@);
                    assert(s[i as int] == name@);
                }
                return true;
            }
        }
        proof {
            let s = self.names@.map_values(|s: String| s@);
            if s.contains(name@) {
                let j = choose|j: int| 0 <= j < s.len() && s[j] == name@;
                assert(self.names@[j]@ == name@);
            }
        }
        false
    }

    fn insert_new(&mut self, name: String)
        ensures
            final(self)@ == old(self)@.insert(name@),
            final(self).len_spec() == old(self).len_spec() + 1,
    {
        let ghost before = self.names@.map_values(|s: String| s@);
        self.names.push(name);
        proof {
            let after = self.names@.map_values(|s: String| s@);
            assert(after =~= before.push(name@));
            assert(after.to_set() =~= before.to_set().insert(name@)) by {
                assert forall|x: Seq<char>| after.to_set().contains(x) <==> before.to_set().insert(
                    name@,
                ).contains(x) by {
                    if after.contains(x) && x != name@ {
                        let j = choose|j: int| 0 <= j < after.len() && after[j] == x;
                        assert(before[j] == x);
                    }
                    if before.contains(x) {
                        let j = choose|j: int| 0 <= j < before.len() && before[j] == x;
                        assert(after[j] == x);
                    }
                    if x == name@ {
                        assert(after[before.len() as int] == x);
                    }
                }
            }
        }
    }

    /// Return a collision-free name for `basename` and record it: the basename
    /// itself on first use, otherwise `"stem (n).ext"` with the smallest free
    /// `n >= 2`.
    pub fn dedupe_name(&mut self, basename: &str) -> (r: String)
        requires
            old(self).len_spec() < 0xffff_fff0,
        ensures
            r@ == deduped(old(self)@, basename@),
            !old(self)@.contains(r@),
            final(self)@ == old(self)@.insert(r@),
            final(self).len_spec() == old(self).len_spec() + 1,
    {
        if !self.contains(basename) {
            let s = chars_of(basename);
            let mut r = String::new();
            push_chars(&mut r, &s);
            self.insert_new(r.clone());
            return r;
        }
        let v = chars_of(basename);
        // split at the last '.', keeping the dot with the extension
        let mut b = v.len();
        while b > 0 && v[b - 1] != '.'
            invariant
                b <= v@.len(),
                last_dot(v@, 0, v@.len() as int) == last_dot(v@, 0, b as int),
            decreases b,
        {
            b = b - 1;
        }
        let ghost stem_ext = split_ext(v@);
        let mut stem: Vec<char> = Vec::new();
        let mut ext: Vec<char> = Vec::new();
        if b > 1 {
            let mut i: usize = 0;
            while i < b - 1
                invariant
                    1 < b <= v@.len(),
                    i <= b - 1,
                    stem@ == v@.subrange(0, i as int),
                decreases b - 1 - i,
            {
                stem.push(v[i]);
                i = i + 1;
            }
            let mut j: usize = b - 1;
            while j < v.len()
                invariant
                    1 < b <= v@.len(),
                    b - 1 <= j <= v@.len(),
                    ext@ == v@.subrange(b - 1, j as int),
                decreases v@.len() - j,
            {
                ext.push(v[j]);
                j = j + 1;
            }
        } else {
            for i in 0..v.len()
                invariant
                    stem@ == v@.subrange(0, i as int),
            {
                stem.push(v[i]);
            }
            assert(stem@ =~= v@);
        }
        proof {
            crate::path::lemma_last_dot_bounds_pub(v@, 0, b as int);
            assert(stem@ == stem_ext.0);
            assert(ext@ =~= stem_ext.1);
        }
        let ghost tk = self@;
        let ghost mut seen: Set<Seq<char>> = Set::empty();
        proof {
            self.lemma_finite();
        }
        let mut n: u32 = 2;
        loop
            invariant
                2 <= n,
                n <= self.len_spec() + 2,
                self.len_spec() < 0xffff_fff0,
                self@ == tk,
                tk == old(self)@,
                self.len_spec() == old(self).len_spec(),
                tk.finite(),
                tk.len() <= self.len_spec(),
                stem@ == split_ext(basename@).0,
                ext@ == split_ext(basename@).1,
                tk.contains(basename@),
                seen.finite(),
                seen.len() == n - 2,
                seen.subset_of(tk),
                forall|k: nat|
                    2 <= k < n ==> tk.contains(
                        #[trigger] numbered(split_ext(basename@).0, split_ext(basename@).1, k),
                    ),
                forall|x: Seq<char>|
                    #[trigger] seen.contains(x) ==> exists|k: nat|
                        2 <= k < n && x == numbered(split_ext(basename@).0, split_ext(basename@).1, k),
            decreases self.len_spec() + 2 - n,
        {
            let mut cand = String::new();
            push_chars(&mut cand, &stem);
            push_char(&mut cand, ' ');
            push_char(&mut cand, '(');
            push_dec(&mut cand, n as u64);
            push_char(&mut cand, ')');
            push_chars(&mut cand, &ext);
            proof {
                assert(cand@ =~= numbered(stem@, ext@, n as nat));
            }
            if !self.contains(cand.as_str()) {
                proof {
                    assert(first_free(tk, basename@, n as nat));
                    let m = choose|m: nat| first_free(tk, basename@, m);
                    if m < n {
                        assert(tk.contains(numbered(split_ext(basename@).0, split_ext(basename@).1, m)));
                    } else if m > n {
                        assert(tk.contains(numbered(split_ext(basename@).0, split_ext(basename@).1, n as nat)));
                    }
                    assert(deduped(tk, basename@) == cand@);
                }
                self.insert_new(cand.clone());
                return cand;
            }
            proof {
                let c = numbered(split_ext(basename@).0, split_ext(basename@).1, n as nat);
                assert(!seen.contains(c)) by {
                    if seen.contains(c) {
                        let k = choose|k: nat|
                            2 <= k < n && c == numbered(split_ext(basename@).0, split_ext(basename@).1, k);
                        lemma_numbered_injective(split_ext(basename@).0, split_ext(basename@).1, k, n as nat);
                    }
                }
                let seen2 = seen.insert(c);
                assert(seen2.len() == seen.len() + 1);
                assert(seen2.subset_of(tk));
                lemma_len_subset(seen2, tk);
                assert forall|x: Seq<char>| #[trigger] seen2.contains(x) implies exists|k: nat|
                    2 <= k < n + 1 && x == numbered(split_ext(basename@).0, split_ext(basename@).1, k) by {
                    if x == c {
                        assert(2 <= n < n + 1);
                    } else {
                        let k = choose|k: nat|
                            2 <= k < n && x == numbered(split_ext(basename@).0, split_ext(basename@).1, k);
                        assert(2 <= k < n + 1);
                    }
                }
                seen = seen2;
            }
            n = n + 1;
        }
    }
}


proof fn lemma_dec_chars_no_slash(n: nat)
    ensures
        forall|i: int| 0 <= i < dec_chars(n).len() ==> dec_chars(n)[i] != '/',
    decreases n,
{
    assert(digit_char(n % 10) != '/');
    if n >= 10 {
        lemma_dec_chars_no_slash(n / 10);
        let p = dec_chars(n / 10);
        assert forall|i: int| 0 <= i < dec_chars(n).len() implies dec_chars(n)[i] != '/' by {
            if i < p.len() {
                assert(dec_chars(n)[i] == p[i]);
            }
        }
    } else {
        assert(dec_chars(n) == seq![digit_char(n)]);
    }
}

/// De-duplicating a plain name gives a plain name.
pub proof fn lemma_deduped_plain(taken: Set<Seq<char>>, name: Seq<char>)
    requires
        crate::path::is_plain_name(name),
    ensures
        crate::path::is_plain_name(deduped(taken, name)),
{
    if taken.contains(name) {
        let n = choose|n: nat| first_free(taken, name, n);
        let (stem, ext) = split_ext(name);
        crate::path::lemma_last_dot_bounds_pub(name, 0, name.len() as int);
        lemma_dec_chars_no_slash(n);
        let r = numbered(stem, ext, n);
        let d = dec_chars(n);
        assert forall|i: int| 0 <= i < r.len() implies r[i] != '/' by {
            if i < stem.len() {
                assert(r[i] == stem[i]);
                assert(stem[i] == name[i]);
            } else if i < stem.len() + 2 {
            } else if i < stem.len() + 2 + d.len() {
                assert(r[i] == d[i - stem.len() - 2]);
            } else if i == stem.len() + 2 + d.len() {
            } else {
                assert(r[i] == ext[i - stem.len() - 3 - d.len()]);
                match last_dot(name, 0, name.len() as int) {
                    Some(p) => {
                        assert(ext[i - stem.len() - 3 - d.len()] == name[p + i - stem.len() - 3 - d.len()]);
                    },
                    None => {},
                }
            }
        }
        assert(r.len() > 1);
        assert(r != seq!['.']);
    }
}

/// The numbered variants `2..m` of a name.
spec fn numbered_upto(stem: Seq<char>, ext: Seq<char>, m: nat) -> Set<Seq<char>>
    decreases m,
{
    if m <= 2 {
        Set::empty()
    } else {
        numbered_upto(stem, ext, (m - 1) as nat).insert(numbered(stem, ext, (m - 1) as nat))
    }
}

proof fn lemma_numbered_upto(stem: Seq<char>, ext: Seq<char>, m: nat)
    ensures
        numbered_upto(stem, ext, m).finite(),
        numbered_upto(stem, ext, m).len() == if m >= 2 {
            m - 2
        } else {
            0
        },
        forall|k: nat| 2 <= k < m ==> numbered_upto(stem, ext, m).contains(#[trigger] numbered(stem, ext, k)),
    decreases m,
{
    if m > 2 {
        let prev = numbered_upto(stem, ext, (m - 1) as nat);
        lemma_numbered_upto(stem, ext, (m - 1) as nat);
        let x = numbered(stem, ext, (m - 1) as nat);
        if prev.contains(x) {
            // every member of `prev` is numbered below m - 1
            lemma_numbered_upto_members(stem, ext, (m - 1) as nat, x);
            let k = choose|k: nat| 2 <= k < m - 1 && x == numbered(stem, ext, k);
            lemma_numbered_injective(stem, ext, k, (m - 1) as nat);
        }
    }
}

proof fn lemma_numbered_upto_members(stem: Seq<char>, ext: Seq<char>, m: nat, x: Seq<char>)
    requires
        numbered_upto(stem, ext, m).contains(x),
    ensures
        exists|k: nat| 2 <= k < m && x == numbered(stem, ext, k),
    decreases m,
{
    if m > 2 {
        if x != numbered(stem, ext, (m - 1) as nat) {
            lemma_numbered_upto_members(stem, ext, (m - 1) as nat, x);
            let k = choose|k: nat| 2 <= k < m - 1 && x == numbered(stem, ext, k);
            assert(2 <= k < m);
        } else {
            assert(2 <= m - 1 < m);
        }
    }
}

proof fn lemma_first_free_exists(taken: Set<Seq<char>>, name: Seq<char>, k0: nat)
    requires
        k0 >= 2,
        !taken.contains(numbered(split_ext(name).0, split_ext(name).1, k0)),
    ensures
        exists|n: nat| first_free(taken, name, n),
    decreases k0,
{
    if exists|k: nat| 2 <= k < k0 && !taken.contains(numbered(split_ext(name).0, split_ext(name).1, k)) {
        let k = choose|k: nat| 2 <= k < k0 && !taken.contains(numbered(split_ext(name).0, split_ext(name).1, k));
        lemma_first_free_exists(taken, name, k);
    } else {
        assert(first_free(taken, name, k0));
    }
}

/// De-duplicating against a finite set of taken names never gives a taken name.
pub proof fn lemma_deduped_fresh(taken: Set<Seq<char>>, name: Seq<char>)
    requires
        taken.finite(),
    ensures
        !taken.contains(deduped(taken, name)),
{
    if taken.contains(name) {
        let stem = split_ext(name).0;
        let ext = split_ext(name).1;
        let m = taken.len() + 3;
        lemma_numbered_upto(stem, ext, m);
        let up = numbered_upto(stem, ext, m);
        if forall|k: nat| 2 <= k < m ==> taken.contains(#[trigger] numbered(stem, ext, k)) {
            assert(up.subset_of(taken)) by {
                assert forall|x: Seq<char>| up.contains(x) implies taken.contains(x) by {
                    lemma_numbered_upto_members(stem, ext, m, x);
                    let k = choose|k: nat| 2 <= k < m && x == numbered(stem, ext, k);
                    assert(taken.contains(numbered(stem, ext, k)));
                }
            }
            lemma_len_subset(up, taken);
            assert(false);
        }
        let k0 = choose|k: nat| 2 <= k < m && !taken.contains(#[trigger] numbered(stem, ext, k));
        lemma_first_free_exists(taken, name, k0);
    }
}

/// The names handed out in one directory, keyed by its path components.
struct DirEntry {
    key: Vec<Vec<char>>,
    taken: TakenNames,
}

/// Names handed out so far, per output directory.  Directories are told apart
/// by their path components, so two spellings of one directory (`/a/b` and
/// `/a//b/`) share one set of names.
pub struct DirNames {
    dirs: Vec<DirEntry>,
    model: Ghost<Map<Seq<Seq<char>>, Set<Seq<char>>>>,
    given: Ghost<nat>,
}

impl View for DirNames {
    type V = Map<Seq<Seq<char>>, Set<Seq<char>>>;

    closed spec fn view(&self) -> Map<Seq<Seq<char>>, Set<Seq<char>>> {
        self.model@
    }
}

/// The names taken in the directory with components `key`.
pub open spec fn taken_in(m: Map<Seq<Seq<char>>, Set<Seq<char>>>, key: Seq<Seq<char>>) -> Set<Seq<char>> {
    if m.dom().contains(key) {
        m[key]
    } else {
        Set::empty()
    }
}

/// The ledger after `name` was handed out in the directory with components `key`.
pub open spec fn record_name(
    m: Map<Seq<Seq<char>>, Set<Seq<char>>>,
    key: Seq<Seq<char>>,
    name: Seq<char>,
) -> Map<Seq<Seq<char>>, Set<Seq<char>>> {
    m.insert(key, taken_in(m, key).insert(name))
}

impl DirNames {
    /// The entries model the map one to one, and no directory has been handed
    /// more names than the ledger has handed out in all.
    pub closed spec fn wf(&self) -> bool {
        let ds = self.dirs@;
        let m = self.model@;
        &&& forall|j: int|
            0 <= j < ds.len() ==> #[trigger] m.dom().contains(vviews(ds[j].key@)) && m[vviews(
                ds[j].key@,
            )] == ds[j].taken@ && ds[j].taken.len_spec() <= self.given@
        &&& forall|k: Seq<Seq<char>>|
            #[trigger] m.dom().contains(k) ==> exists|j: int|
                0 <= j < ds.len() && vviews(ds[j].key@) == k
        &&& forall|j1: int, j2: int|
            0 <= j1 < ds.len() && 0 <= j2 < ds.len() && j1 != j2 ==> vviews(
                (#[trigger] ds[j1]).key@,
            ) != vviews((#[trigger] ds[j2]).key@)
    }

    /// How many names this ledger has handed out.
    pub closed spec fn given(&self) -> nat {
        self.given@
    }

    /// No names handed out anywhere.
    pub fn new() -> (d: Self)
        ensures
            d.wf(),
            d@ == Map::<Seq<Seq<char>>, Set<Seq<char>>>::empty(),
            d.given() == 0,
    {
        DirNames { dirs: Vec::new(), model: Ghost(Map::empty()), given: Ghost(0) }
    }

    /// Hand out a collision-free name for `basename` in directory `dir` (see
    /// [`TakenNames::dedupe_name`]) and record it.
    pub fn dedupe_in(&mut self, dir: &str, basename: &str) -> (r: String)
        requires
            old(self).wf(),
            old(self).given() < 0xffff_fff0,
        ensures
            final(self).wf(),
            final(self).given() == old(self).given() + 1,
            r@ == deduped(taken_in(old(self)@, components_spec(dir@)), basename@),
            !taken_in(old(self)@, components_spec(dir@)).contains(r@),
            final(self)@ == record_name(old(self)@, components_spec(dir@), r@),
    {
        let key = components(dir);
        let ghost kv = vviews(key@);
        let ghost m0 = self.model@;
        let ghost d0 = self.dirs@;
        let ghost g0 = self.given@;
        let ghost before = taken_in(m0, kv);
        let mut found: usize = 0;
        let mut hit = false;
        while found < self.dirs.len()
            invariant
                found <= self.dirs@.len(),
                self.dirs@ == d0,
                kv == vviews(key@),
                hit ==> found < self.dirs@.len() && vviews(self.dirs@[found as int].key@) == kv,
                !hit ==> forall|q: int| 0 <= q < found ==> vviews((#[trigger] self.dirs@[q]).key@) != kv,
            ensures
                !hit ==> found == self.dirs@.len(),
            decreases self.dirs@.len() - found,
        {
            if components_eq(&self.dirs[found].key, &key) {
                hit = true;
                break;
            }
            found = found + 1;
        }
        let name: String;
        if hit {
            proof {
                assert(m0[vviews(d0[found as int].key@)] == d0[found as int].taken@);
                assert(d0[found as int].taken@ == before);
            }
            name = self.dirs[found].taken.dedupe_name(basename);
            self.model = Ghost(record_name(m0, kv, name@));
            self.given = Ghost(g0 + 1);
            proof {
                let m1 = self.model@;
                let ds = self.dirs@;
                assert forall|j: int|
                    0 <= j < ds.len() implies #[trigger] m1.dom().contains(vviews(ds[j].key@))
                    && m1[vviews(ds[j].key@)] == ds[j].taken@ && ds[j].taken.len_spec() <= g0 + 1 by {
                    if j != found {
                        assert(ds[j] == d0[j]);
                        assert(vviews(d0[j].key@) != vviews(d0[found as int].key@));
                    }
                }
                assert forall|k: Seq<Seq<char>>| #[trigger] m1.dom().contains(k) implies exists|j: int|
                    0 <= j < ds.len() && vviews(ds[j].key@) == k by {
                    if k != kv {
                        let j = choose|j: int| 0 <= j < d0.len() && vviews(d0[j].key@) == k;
                        if j != found {
                            assert(ds[j] == d0[j]);
                        }
                    } else {
                        assert(vviews(ds[found as int].key@) == k);
                    }
                }
                assert forall|j1: int, j2: int|
                    0 <= j1 < ds.len() && 0 <= j2 < ds.len() && j1 != j2 implies vviews(
                    (#[trigger] ds[j1]).key@,
                ) != vviews((#[trigger] ds[j2]).key@) by {
                    assert(vviews(d0[j1].key@) != vviews(d0[j2].key@));
                }
            }
        } else {
            let mut taken = TakenNames::new();
            proof {
                if m0.dom().contains(kv) {
                    let j = choose|j: int| 0 <= j < d0.len() && vviews(d0[j].key@) == kv;
                    assert(vviews(self.dirs@[j].key@) != kv);
                }
                assert(taken@ =~= before);
            }
            name = taken.dedupe_name(basename);
            let ghost tk = taken;
            let ghost kk = key@;
            self.dirs.push(DirEntry { key, taken });
            self.model = Ghost(record_name(m0, kv, name@));
            self.given = Ghost(g0 + 1);
            proof {
                let m1 = self.model@;
                let ds = self.dirs@;
                let n = d0.len() as int;
                assert(ds[n].taken == tk);
                assert(ds[n].key@ == kk);
                assert(vviews(ds[n].key@) == kv);
                assert(tk@ == before.insert(name@));
                assert forall|j: int|
                    0 <= j < ds.len() implies #[trigger] m1.dom().contains(vviews(ds[j].key@))
                    && m1[vviews(ds[j].key@)] == ds[j].taken@ && ds[j].taken.len_spec() <= g0 + 1 by {
                    if j < n {
                        assert(ds[j] == d0[j]);
                        assert(vviews(d0[j].key@) != kv);
                    }
                }
                assert forall|k: Seq<Seq<char>>| #[trigger] m1.dom().contains(k) implies exists|j: int|
                    0 <= j < ds.len() && vviews(ds[j].key@) == k by {
                    if k != kv {
                        let j = choose|j: int| 0 <= j < d0.len() && vviews(d0[j].key@) == k;
                        assert(ds[j] == d0[j]);
                    } else {
                        assert(vviews(ds[n].key@) == k);
                    }
                }
                assert forall|j1: int, j2: int|
                    0 <= j1 < ds.len() && 0 <= j2 < ds.len() && j1 != j2 implies vviews(
                    (#[trigger] ds[j1]).key@,
                ) != vviews((#[trigger] ds[j2]).key@) by {
                    if j1 < n && j2 < n {
                        assert(vviews(d0[j1].key@) != vviews(d0[j2].key@));
                    } else if j1 < n {
                        assert(ds[j1] == d0[j1]);
                    } else if j2 < n {
                        assert(ds[j2] == d0[j2]);
                    }
                }
            }
        }
        name
    }
}

} // verus!
