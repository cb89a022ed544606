//! The folder browser: the roots it starts from and the order it lists
//! folders in.
use vstd::prelude::*;
use crate::config::owned;
use crate::serve::FsEntry;

verus! {

/// `str::to_lowercase` (full Unicode lowercasing) of `s`.
pub uninterp spec fn lowercase_of(s: Seq<char>) -> Seq<char>;

/// `str::to_lowercase`: its result depends on the text alone, so it is
/// named here rather than restated.
#[verifier::external_body]
fn to_lowercase(s: &str) -> (r: String)
    ensures
        r@ == lowercase_of(s@),
{
    s.to_lowercase()
}

/// `a < b` as `String`s compare: lexicographically by code point.
pub open spec fn lex_lt(a: Seq<char>, b: Seq<char>) -> bool
    decreases a.len(),
{
    if a.len() == 0 {
        b.len() > 0
    } else if b.len() == 0 {
        false
    } else if a[0] < b[0] {
        true
    } else if a[0] > b[0] {
        false
    } else {
        lex_lt(a.drop_first(), b.drop_first())
    }
}

proof fn lemma_lex_trichotomy(a: Seq<char>, b: Seq<char>)
    ensures
        lex_lt(a, b) || a == b || lex_lt(b, a),
        !(lex_lt(a, b) && lex_lt(b, a)),
        !(lex_lt(a, b) && a == b),
    decreases a.len(),
{
    if a.len() > 0 && b.len() > 0 && a[0] == b[0] {
        lemma_lex_trichotomy(a.drop_first(), b.drop_first());
        if a.drop_first() == b.drop_first() {
            assert(a =~= seq![a[0]] + a.drop_first());
            assert(b =~= seq![b[0]] + b.drop_first());
        }
    } else if a.len() == 0 && b.len() == 0 {
        assert(a =~= b);
    }
}

proof fn lemma_lex_transitive(a: Seq<char>, b: Seq<char>, c: Seq<char>)
    requires
        lex_lt(a, b),
        lex_lt(b, c),
    ensures
        lex_lt(a, c),
    decreases a.len(),
{
    if a.len() > 0 && b.len() > 0 && c.len() > 0 && a[0] == b[0] && b[0] == c[0] {
        lemma_lex_transitive(a.drop_first(), b.drop_first(), c.drop_first());
    }
}

/// `a` lists before `b`: its lowercased name sorts first.
pub open spec fn name_before(a: FsEntry, b: FsEntry) -> bool {
    lex_lt(lowercase_of(a.name@), lowercase_of(b.name@))
}

/// `s` with `x` placed after every entry that it does not list before.
pub open spec fn insert_by_name(s: Seq<FsEntry>, x: FsEntry) -> Seq<FsEntry>
    decreases s.len(),
{
    if s.len() == 0 {
        seq![x]
    } else if name_before(x, s.last()) {
        insert_by_name(s.drop_last(), x).push(s.last())
    } else {
        s.push(x)
    }
}

/// The browser's order: a stable sort by lowercased name.
pub open spec fn name_order(s: Seq<FsEntry>) -> Seq<FsEntry>
    decreases s.len(),
{
    if s.len() == 0 {
        Seq::empty()
    } else {
        insert_by_name(name_order(s.drop_last()), s.last())
    }
}

pub open spec fn is_name_sorted(s: Seq<FsEntry>) -> bool {
    forall|i: int, j: int| 0 <= i < j < s.len() ==> !name_before(#[trigger] s[j], #[trigger] s[i])
}

proof fn lemma_not_before_transitive(a: FsEntry, b: FsEntry, c: FsEntry)
    requires
        !name_before(b, a),
        !name_before(c, b),
    ensures
        !name_before(c, a),
{
    let ka = lowercase_of(a.name@);
    let kb = lowercase_of(b.name@);
    let kc = lowercase_of(c.name@);
    lemma_lex_trichotomy(ka, kb);
    lemma_lex_trichotomy(kb, kc);
    lemma_lex_trichotomy(ka, kc);
    if lex_lt(kc, ka) {
        if lex_lt(ka, kb) {
            lemma_lex_transitive(kc, ka, kb);
        }
    }
}

proof fn lemma_insert_by_name(s: Seq<FsEntry>, x: FsEntry)
    requires
        is_name_sorted(s),
    ensures
        is_name_sorted(insert_by_name(s, x)),
        insert_by_name(s, x).to_multiset() == s.to_multiset().insert(x),
        insert_by_name(s, x).len() == s.len() + 1,
    decreases s.len(),
{
    broadcast use vstd::seq_lib::group_to_multiset_ensures;

    if s.len() == 0 {
        assert(seq![x] =~= Seq::<FsEntry>::empty().push(x));
    } else {
        let l = s.last();
        let p = s.drop_last();
        assert(s =~= p.push(l));
        if name_before(x, l) {
            assert(is_name_sorted(p));
            lemma_insert_by_name(p, x);
            let q = insert_by_name(p, x);
            let r = q.push(l);
            assert forall|i: int, j: int| 0 <= i < j < r.len() implies !name_before(#[trigger] r[j], #[trigger] r[i]) by {
                if j == r.len() - 1 {
                    assert(r[j] == l);
                    assert(q.to_multiset().contains(q[i]));
                    assert(s.to_multiset().insert(x).contains(q[i]));
                    if q[i] != x {
                        assert(p.to_multiset().contains(q[i]));
                        let k = choose|k: int| 0 <= k < p.len() && p[k] == q[i];
                        assert(s[k] == q[i]);
                        assert(s[s.len() - 1] == l);
                    } else {
                        lemma_lex_trichotomy(lowercase_of(x.name@), lowercase_of(l.name@));
                    }
                } else {
                    assert(r[i] == q[i] && r[j] == q[j]);
                }
            }
        } else {
            let r = s.push(x);
            assert forall|i: int, j: int| 0 <= i < j < r.len() implies !name_before(#[trigger] r[j], #[trigger] r[i]) by {
                if j == r.len() - 1 {
                    if i < s.len() - 1 {
                        assert(!name_before(s[s.len() - 1], s[i]));
                        lemma_not_before_transitive(s[i], l, x);
                    }
                } else {
                    assert(r[i] == s[i] && r[j] == s[j]);
                }
            }
        }
    }
}

/// Listing by name sorts the entries and keeps every one of them.
pub proof fn lemma_name_order(s: Seq<FsEntry>)
    ensures
        is_name_sorted(name_order(s)),
        name_order(s).to_multiset() == s.to_multiset(),
        name_order(s).len() == s.len(),
    decreases s.len(),
{
    broadcast use vstd::seq_lib::group_to_multiset_ensures;

    if s.len() > 0 {
        lemma_name_order(s.drop_last());
        lemma_insert_by_name(name_order(s.drop_last()), s.last());
        assert(s =~= s.drop_last().push(s.last()));
    }
}

proof fn lemma_insert_by_name_at(s: Seq<FsEntry>, x: FsEntry, k: int)
    requires
        0 <= k <= s.len(),
        forall|j: int| k <= j < s.len() ==> name_before(x, #[trigger] s[j]),
        k == 0 || !name_before(x, s[k - 1]),
    ensures
        insert_by_name(s, x) == s.insert(k, x),
    decreases s.len(),
{
    if s.len() == 0 {
        assert(seq![x] =~= s.insert(k, x));
    } else if k == s.len() {
        assert(s.push(x) =~= s.insert(k, x));
    } else {
        let p = s.drop_last();
        assert(name_before(x, s[s.len() - 1]));
        assert forall|j: int| k <= j < p.len() implies name_before(x, #[trigger] p[j]) by {
            assert(p[j] == s[j]);
        }
        lemma_insert_by_name_at(p, x, k);
        assert(p.insert(k, x).push(s.last()) =~= s.insert(k, x));
    }
}

fn lex_less(a: &Vec<char>, b: &Vec<char>) -> (r: bool)
    ensures
        r == lex_lt(a@, b@),
{
    let mut i: usize = 0;
    proof {
        assert(a@.skip(0) =~= a@);
        assert(b@.skip(0) =~= b@);
    }
    while i < a.len() && i < b.len()
        invariant
            i <= a@.len(),
            i <= b@.len(),
            lex_lt(a@, b@) == lex_lt(a@.skip(i as int), b@.skip(i as int)),
        decreases a@.len() - i,
    {
        proof {
            assert(a@.skip(i as int)[0] == a@[i as int]);
            assert(b@.skip(i as int)[0] == b@[i as int]);
            assert(a@.skip(i as int).drop_first() =~= a@.skip(i + 1));
            assert(b@.skip(i as int).drop_first() =~= b@.skip(i + 1));
        }
        if a[i] < b[i] {
            return true;
        }
        if a[i] > b[i] {
            return false;
        }
        i = i + 1;
    }
    proof {
        assert(a@.skip(i as int).len() == a@.len() - i);
        assert(b@.skip(i as int).len() == b@.len() - i);
    }
    i == a.len() && i < b.len()
}

/// Order folder entries by their lowercased names, keeping ties in the
/// order given.
pub fn sort_by_name(entries: Vec<FsEntry>) -> (r: Vec<FsEntry>)
    ensures
        r@ == name_order(entries@),
        is_name_sorted(r@),
        r@.to_multiset() == entries@.to_multiset(),
{
    let ghost orig = entries@;
    let mut rest = entries;
    let mut out: Vec<FsEntry> = Vec::new();
    let mut keys: Vec<Vec<char>> = Vec::new();
    proof {
        assert(orig.take(0) =~= Seq::<FsEntry>::empty());
        assert(orig.skip(0) =~= orig);
    }
    while rest.len() > 0
        invariant
            rest@.len() <= orig.len(),
            out@ == name_order(orig.take(orig.len() - rest@.len())),
            rest@ == orig.skip(orig.len() - rest@.len()),
            keys@.len() == out@.len(),
            forall|j: int| 0 <= j < keys@.len() ==> (#[trigger] keys@[j])@ == lowercase_of(out@[j].name@),
        decreases rest.len(),
    {
        let ghost done = (orig.len() - rest@.len()) as int;
        let x = rest.remove(0);
        proof {
            assert(x == orig[done]);
            assert(rest@ =~= orig.skip(done + 1));
            assert(orig.take(done + 1).drop_last() =~= orig.take(done));
            assert(orig.take(done + 1).last() == x);
        }
        let kx = crate::text::chars_of(to_lowercase(x.name.as_str()).as_str());
        let mut k = out.len();
        while k > 0 && lex_less(&kx, &keys[k - 1])
            invariant
                k <= out@.len(),
                keys@.len() == out@.len(),
                kx@ == lowercase_of(x.name@),
                forall|j: int| 0 <= j < keys@.len() ==> (#[trigger] keys@[j])@ == lowercase_of(out@[j].name@),
                forall|j: int| k <= j < out@.len() ==> name_before(x, #[trigger] out@[j]),
            decreases k,
        {
            proof {
                assert(keys@[k - 1]@ == lowercase_of(out@[k - 1].name@));
            }
            k = k - 1;
        }
        proof {
            if k > 0 {
                assert(keys@[k - 1]@ == lowercase_of(out@[k - 1].name@));
            }
            lemma_insert_by_name_at(out@, x, k as int);
        }
        let ghost out0 = out@;
        let ghost keys0 = keys@;
        out.insert(k, x);
        keys.insert(k, kx);
        proof {
            assert forall|j: int| 0 <= j < keys@.len() implies (#[trigger] keys@[j])@ == lowercase_of(out@[j].name@) by {
                if j < k {
                    assert(keys@[j] == keys0[j] && out@[j] == out0[j]);
                } else if j > k {
                    assert(keys@[j] == keys0[j - 1] && out@[j] == out0[j - 1]);
                }
            }
        }
    }
    proof {
        assert(orig.take(orig.len() as int) =~= orig);
        lemma_name_order(orig);
    }
    out
}

/// Where the browser starts on Unix: the home directory (shown as `~`), when
/// known, then `/`.
pub fn fs_roots(home: Option<String>) -> (r: Vec<FsEntry>)
    ensures
        home is Some ==> r@.len() == 2 && r@[0].name@ == "~"@ && r@[0].path@ == home->0@
            && r@[0].photo_count == 0 && r@[1].name@ == "/"@ && r@[1].path@ == "/"@ && r@[1].photo_count == 0,
        home is None ==> r@.len() == 1 && r@[0].name@ == "/"@ && r@[0].path@ == "/"@ && r@[0].photo_count == 0,
{
    let mut r: Vec<FsEntry> = Vec::new();
    match home {
        Some(h) => r.push(FsEntry { name: owned("~"), path: h, photo_count: 0 }),
        None => {},
    }
    r.push(FsEntry { name: owned("/"), path: owned("/"), photo_count: 0 });
    r
}

/// The root of the drive with letter `A` + `i`: `"X:\\"`.
pub open spec fn drive_root_spec(i: int) -> Seq<char> {
    seq![((65 + i) as u8) as char, ':', '\\']
}

/// The root of the drive with letter `A` + `i`, for `i` below 26.
pub fn drive_root(i: u8) -> (r: String)
    requires
        i < 26,
    ensures
        r@ == drive_root_spec(i as int),
{
    let mut r = String::new();
    crate::text::push_char(&mut r, (65u8 + i) as char);
    crate::text::push_char(&mut r, ':');
    crate::text::push_char(&mut r, '\\');
    proof {
        assert(r@ =~= drive_root_spec(i as int));
    }
    r
}

/// The drive roots that exist, in letter order: `exists[i]` says whether the
/// drive with letter `A` + `i` does.
pub open spec fn drive_roots_spec(exists: Seq<bool>) -> Seq<Seq<char>>
    decreases exists.len(),
{
    if exists.len() == 0 {
        Seq::empty()
    } else {
        drive_roots_spec(exists.drop_last()) + if exists.last() {
            seq![drive_root_spec(exists.len() - 1)]
        } else {
            Seq::empty()
        }
    }
}

/// Where the browser starts on Windows: each existing drive root, named and
/// addressed by itself, with no photo count.
pub fn drive_roots(exists: &[bool]) -> (r: Vec<FsEntry>)
    requires
        exists@.len() <= 26,
    ensures
        r@.map_values(|e: FsEntry| e.name@) == drive_roots_spec(exists@),
        forall|k: int| 0 <= k < r@.len() ==> (#[trigger] r@[k]).path@ == r@[k].name@ && r@[k].photo_count == 0,
{
    let mut r: Vec<FsEntry> = Vec::new();
    for i in 0..exists.len()
        invariant
            exists@.len() <= 26,
            r@.map_values(|e: FsEntry| e.name@) == drive_roots_spec(exists@.take(i as int)),
            forall|k: int| 0 <= k < r@.len() ==> (#[trigger] r@[k]).path@ == r@[k].name@ && r@[k].photo_count == 0,
    {
        proof {
            assert(exists@.take(i + 1).drop_last() =~= exists@.take(i as int));
        }
        if exists[i] {
            let name = drive_root(i as u8);
            let path = drive_root(i as u8);
            r.push(FsEntry { name, path, photo_count: 0 });
            proof {
                assert(r@.map_values(|e: FsEntry| e.name@) =~= drive_roots_spec(exists@.take(i as int)).push(
                    drive_root_spec(i as int),
                ));
                assert(drive_roots_spec(exists@.take(i + 1)) =~= drive_roots_spec(exists@.take(i as int))
                    + seq![drive_root_spec(i as int)]);
            }
        } else {
            proof {
                assert(drive_roots_spec(exists@.take(i + 1)) =~= drive_roots_spec(exists@.take(i as int)));
            }
        }
    }
    proof {
        assert(exists@.take(exists@.len() as int) =~= exists@);
    }
    r
}

/// How many of the extensions `files` the ingest settings accept.
pub open spec fn accepted_count(extensions: Seq<Seq<char>>, files: Seq<Seq<char>>) -> nat
    decreases files.len(),
{
    if files.len() == 0 {
        0
    } else {
        accepted_count(extensions, files.drop_last()) + if crate::ingest::accepted(extensions, files.last()) {
            1nat
        } else {
            0nat
        }
    }
}

/// How many of a folder's files are photos: those whose extension the ingest
/// settings accept (`file_extensions` holds the extension of each regular file).
pub fn count_photos(extensions: &[String], file_extensions: &[String]) -> (n: u64)
    ensures
        n == accepted_count(crate::output::views(extensions@), crate::output::views(file_extensions@)),
{
    let ghost fs = crate::output::views(file_extensions@);
    let ghost es = crate::output::views(extensions@);
    let mut n: u64 = 0;
    for i in 0..file_extensions.len()
        invariant
            fs == crate::output::views(file_extensions@),
            es == crate::output::views(extensions@),
            n == accepted_count(es, fs.take(i as int)),
            n <= i,
    {
        proof {
            assert(fs.take(i + 1).drop_last() =~= fs.take(i as int));
            assert(fs.take(i + 1).last() == file_extensions@[i as int]@);
        }
        if crate::ingest::extension_accepted(extensions, file_extensions[i].as_str()) {
            n = n + 1;
        }
    }
    proof {
        assert(fs.take(file_extensions@.len() as int) =~= fs);
    }
    n
}

} // verus!
