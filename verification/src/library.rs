//! Per-folder libraries: where a folder's catalog and preview cache live, the
//! folder's stable key, and the order in which libraries are listed.
use vstd::prelude::*;
use crate::path::{join, join_spec};
use crate::output::{pair_views, views};
use crate::text::{hex32, hex_fixed, str_eq};

verus! {

/// The 128-bit xxh3 hash of `bytes` (`xxhash_rust::xxh3::xxh3_128`).
pub uninterp spec fn xxh3_128_of(bytes: Seq<u8>) -> u128;

/// `xxhash_rust::xxh3::xxh3_128`: a pure function of its input bytes, named
/// here rather than restated.
#[verifier::external_body]
fn xxh3_128_bytes(data: &[u8]) -> (h: u128)
    ensures
        h == xxh3_128_of(data@),
{
    xxhash_rust::xxh3::xxh3_128(data)
}

/// `dirs::data_dir`, as text.  It reads the environment, so nothing is
/// promised of what comes back. The library keeps paths as
/// UTF-8 text, so a directory whose name is not valid UTF-8 comes back with
/// its invalid bytes replaced by U+FFFD.
#[verifier::external_body]
fn os_data_dir() -> Option<String> {
    match dirs::data_dir() {
        Some(p) => Some(p.to_string_lossy().into_owned()),
        None => None,
    }
}

/// `dirs::cache_dir`, as text.  It reads the environment, so nothing is
/// promised of what comes back. The library keeps paths as
/// UTF-8 text, so a directory whose name is not valid UTF-8 comes back with
/// its invalid bytes replaced by U+FFFD.
#[verifier::external_body]
fn os_cache_dir() -> Option<String> {
    match dirs::cache_dir() {
        Some(p) => Some(p.to_string_lossy().into_owned()),
        None => None,
    }
}

/// Root directories under which all libraries live.
pub struct LibraryRoots {
    /// Holds catalogs: `<data>/libraries/<key>/catalog.duckdb`.
    pub data: String,
    /// Holds preview caches: `<cache>/libraries/<key>/`.
    pub cache: String,
}

/// Why the OS roots could not be determined.
#[derive(PartialEq, Eq, Structural, Clone, Copy)]
pub enum RootsError {
    NoDataDir,
    NoCacheDir,
}

impl RootsError {
    /// The message for this error.
    pub fn message(&self) -> (r: &'static str)
        ensures
            *self == RootsError::NoDataDir ==> r@ == "cannot determine OS data dir"@,
            *self == RootsError::NoCacheDir ==> r@ == "cannot determine OS cache dir"@,
    {
        match self {
            RootsError::NoDataDir => "cannot determine OS data dir",
            RootsError::NoCacheDir => "cannot determine OS cache dir",
        }
    }
}

/// The roots under the OS data and cache directories: each gets `photopipe`
/// appended; the data directory is needed first.
pub open spec fn roots_spec(data: Option<Seq<char>>, cache: Option<Seq<char>>) -> Result<
    (Seq<char>, Seq<char>),
    RootsError,
> {
    match data {
        None => Err(RootsError::NoDataDir),
        Some(d) => match cache {
            None => Err(RootsError::NoCacheDir),
            Some(c) => Ok((join_spec(d, "photopipe"@), join_spec(c, "photopipe"@))),
        },
    }
}

pub open spec fn roots_view(r: Result<LibraryRoots, RootsError>) -> Result<(Seq<char>, Seq<char>), RootsError> {
    match r {
        Ok(x) => Ok((x.data@, x.cache@)),
        Err(e) => Err(e),
    }
}

pub open spec fn opt_view(o: Option<String>) -> Option<Seq<char>> {
    match o {
        Some(s) => Some(s@),
        None => None,
    }
}

impl LibraryRoots {
    /// Roots under the given OS data and cache directories.
    pub fn under(data_dir: Option<String>, cache_dir: Option<String>) -> (r: Result<Self, RootsError>)
        ensures
            roots_view(r) == roots_spec(opt_view(data_dir), opt_view(cache_dir)),
    {
        let d = match data_dir {
            Some(d) => d,
            None => return Err(RootsError::NoDataDir),
        };
        let c = match cache_dir {
            Some(c) => c,
            None => return Err(RootsError::NoCacheDir),
        };
        Ok(LibraryRoots { data: join(d.as_str(), "photopipe"), cache: join(c.as_str(), "photopipe") })
    }

    /// OS-appropriate roots: the data and cache directories, each under
    /// `photopipe/`.
    pub fn from_dirs() -> (r: Result<Self, RootsError>)
        ensures
            exists|d: Option<Seq<char>>, c: Option<Seq<char>>| roots_view(r) == roots_spec(d, c),
    {
        let d = os_data_dir();
        let c = os_cache_dir();
        let r = Self::under(d, c);
        proof {
            assert(roots_view(r) == roots_spec(opt_view(d), opt_view(c)));
        }
        r
    }

    /// `<data>/libraries`.
    pub fn libraries_dir(&self) -> (p: String)
        ensures
            p@ == join_spec(self.data@, "libraries"@),
    {
        join(self.data.as_str(), "libraries")
    }

    /// `<data>/libraries/<key>/catalog.duckdb`.
    pub fn catalog_path(&self, key: &str) -> (p: String)
        ensures
            p@ == join_spec(join_spec(join_spec(self.data@, "libraries"@), key@), "catalog.duckdb"@),
    {
        let libs = join(self.data.as_str(), "libraries");
        let dir = join(libs.as_str(), key);
        join(dir.as_str(), "catalog.duckdb")
    }

    /// `<cache>/libraries/<key>`.
    pub fn cache_dir(&self, key: &str) -> (p: String)
        ensures
            p@ == join_spec(join_spec(self.cache@, "libraries"@), key@),
    {
        let libs = join(self.cache.as_str(), "libraries");
        join(libs.as_str(), key)
    }
}

/// The key of the library for the folder whose canonical path is `canonical`.
pub open spec fn library_key_spec(canonical: Seq<char>) -> Seq<char> {
    hex_fixed(xxh3_128_of(vstd::utf8::encode_utf8(canonical)) as nat, 32)
}

/// Stable per-folder key: the 128-bit xxh3 of the folder's canonical path
/// (its UTF-8 bytes), as 32 lowercase hex digits.
pub fn library_key(canonical: &str) -> (k: String)
    ensures
        k@ == library_key_spec(canonical@),
        k@.len() == 32,
{
    let h = xxh3_128_bytes(canonical.as_bytes());
    hex32(h)
}

/// `<data>/libraries/<key>/catalog.duckdb` for the folder whose canonical
/// path is `canonical`.
pub open spec fn catalog_of(data: Seq<char>, canonical: Seq<char>) -> Seq<char> {
    join_spec(join_spec(join_spec(data, "libraries"@), library_key_spec(canonical)), "catalog.duckdb"@)
}

/// The first of `dirs` (each a directory and its canonical path) whose
/// catalog is among `present`.
pub open spec fn first_with_catalog(
    data: Seq<char>,
    dirs: Seq<(Seq<char>, Seq<char>)>,
    present: Seq<Seq<char>>,
) -> Option<Seq<char>>
    decreases dirs.len(),
{
    if dirs.len() == 0 {
        None
    } else if present.contains(catalog_of(data, dirs[0].1)) {
        Some(dirs[0].0)
    } else {
        first_with_catalog(data, dirs.drop_first(), present)
    }
}

fn contains_path(paths: &[String], p: &str) -> (r: bool)
    ensures
        r == views(paths@).contains(p@),
{
    for i in 0..paths.len()
        invariant
            forall|j: int| 0 <= j < i ==> views(paths@)[j] != p@,
    {
        if str_eq(paths[i].as_str(), p) {
            proof {
                assert(views(paths@)[i as int] == p@);
            }
            return true;
        }
    }
    false
}

/// The library that holds a file: of the directories searched for it, nearest
/// first (the file's own directory, then each ancestor, each with its
/// canonical path), the first whose catalog is among the catalog files
/// `present` on disk.
pub fn find_library_for_file(roots: &LibraryRoots, searched: &[(String, String)], present: &[String]) -> (r: Option<
    String,
>)
    ensures
        opt_view(r) == first_with_catalog(roots.data@, pair_views(searched@), views(present@)),
{
    let ghost dirs = pair_views(searched@);
    proof {
        assert(dirs.skip(0) =~= dirs);
    }
    for i in 0..searched.len()
        invariant
            dirs == pair_views(searched@),
            first_with_catalog(roots.data@, dirs, views(present@)) == first_with_catalog(
                roots.data@,
                dirs.skip(i as int),
                views(present@),
            ),
    {
        proof {
            assert(dirs.skip(i + 1) =~= dirs.skip(i as int).drop_first());
            assert(dirs.skip(i as int)[0] == (searched@[i as int].0@, searched@[i as int].1@));
        }
        let key = library_key(searched[i].1.as_str());
        let catalog = roots.catalog_path(key.as_str());
        if contains_path(present, catalog.as_str()) {
            return Some(searched[i].0.clone());
        }
    }
    proof {
        assert(dirs.skip(searched.len() as int) =~= Seq::<(Seq<char>, Seq<char>)>::empty());
    }
    None
}

/// Summary of a library, for listing.
pub struct LibraryInfo {
    pub folder: String,
    pub key: String,
    pub created_at: i64,
    pub last_analyzed: Option<i64>,
    pub photo_count: i64,
}

/// `a` lists before `b`: libraries analyzed more recently come first, and
/// those never analyzed come last.
pub open spec fn analyzed_after(a: Option<i64>, b: Option<i64>) -> bool {
    match (a, b) {
        (Some(x), Some(y)) => x > y,
        (Some(_), None) => true,
        _ => false,
    }
}

/// `s` with `x` placed after every element that does not list after it.
pub open spec fn insert_sorted(s: Seq<LibraryInfo>, x: LibraryInfo) -> Seq<LibraryInfo>
    decreases s.len(),
{
    if s.len() == 0 {
        seq![x]
    } else if analyzed_after(x.last_analyzed, s.last().last_analyzed) {
        insert_sorted(s.drop_last(), x).push(s.last())
    } else {
        s.push(x)
    }
}

/// The listing order: a stable sort, most recently analyzed first.
pub open spec fn listing_order(s: Seq<LibraryInfo>) -> Seq<LibraryInfo>
    decreases s.len(),
{
    if s.len() == 0 {
        Seq::empty()
    } else {
        insert_sorted(listing_order(s.drop_last()), s.last())
    }
}

/// No library lists after one that precedes it.
pub open spec fn is_listing_sorted(s: Seq<LibraryInfo>) -> bool {
    forall|i: int, j: int|
        0 <= i < j < s.len() ==> !analyzed_after((#[trigger] s[j]).last_analyzed, (#[trigger] s[i]).last_analyzed)
}

proof fn lemma_insert_sorted(s: Seq<LibraryInfo>, x: LibraryInfo)
    requires
        is_listing_sorted(s),
    ensures
        is_listing_sorted(insert_sorted(s, x)),
        insert_sorted(s, x).to_multiset() == s.to_multiset().insert(x),
        insert_sorted(s, x).len() == s.len() + 1,
    decreases s.len(),
{
    broadcast use vstd::seq_lib::group_to_multiset_ensures;

    if s.len() == 0 {
        assert(seq![x] =~= Seq::<LibraryInfo>::empty().push(x));
    } else {
        let l = s.last();
        let p = s.drop_last();
        assert(s =~= p.push(l));
        if analyzed_after(x.last_analyzed, l.last_analyzed) {
            assert(is_listing_sorted(p));
            lemma_insert_sorted(p, x);
            let q = insert_sorted(p, x);
            let r = q.push(l);
            assert forall|i: int, j: int| 0 <= i < j < r.len() implies !analyzed_after(
                (#[trigger] r[j]).last_analyzed,
                (#[trigger] r[i]).last_analyzed,
            ) by {
                if j == r.len() - 1 {
                    assert(r[j] == l);
                    assert(q.to_multiset().contains(q[i]));
                    assert(s.to_multiset().insert(x).contains(q[i]));
                    if q[i] != x {
                        assert(p.to_multiset().contains(q[i]));
                        let k = choose|k: int| 0 <= k < p.len() && p[k] == q[i];
                        assert(s[k] == q[i]);
                        assert(s[s.len() - 1] == l);
                    }
                } else {
                    assert(r[i] == q[i] && r[j] == q[j]);
                }
            }
        } else {
            let r = s.push(x);
            assert forall|i: int, j: int| 0 <= i < j < r.len() implies !analyzed_after(
                (#[trigger] r[j]).last_analyzed,
                (#[trigger] r[i]).last_analyzed,
            ) by {
                if j == r.len() - 1 {
                    if i < s.len() - 1 {
                        assert(!analyzed_after(s[s.len() - 1].last_analyzed, s[i].last_analyzed));
                    }
                } else {
                    assert(r[i] == s[i] && r[j] == s[j]);
                }
            }
        }
    }
}

/// The listing order sorts the libraries and keeps every one of them.
pub proof fn lemma_listing_order(s: Seq<LibraryInfo>)
    ensures
        is_listing_sorted(listing_order(s)),
        listing_order(s).to_multiset() == s.to_multiset(),
        listing_order(s).len() == s.len(),
    decreases s.len(),
{
    broadcast use vstd::seq_lib::group_to_multiset_ensures;

    if s.len() > 0 {
        lemma_listing_order(s.drop_last());
        lemma_insert_sorted(listing_order(s.drop_last()), s.last());
        assert(s =~= s.drop_last().push(s.last()));
    }
}

fn lists_after(a: Option<i64>, b: Option<i64>) -> (r: bool)
    ensures
        r == analyzed_after(a, b),
{
    match (a, b) {
        (Some(x), Some(y)) => x > y,
        (Some(_), None) => true,
        _ => false,
    }
}

proof fn lemma_insert_at(s: Seq<LibraryInfo>, x: LibraryInfo, k: int)
    requires
        0 <= k <= s.len(),
        forall|j: int| k <= j < s.len() ==> analyzed_after(x.last_analyzed, (#[trigger] s[j]).last_analyzed),
        k == 0 || !analyzed_after(x.last_analyzed, s[k - 1].last_analyzed),
    ensures
        insert_sorted(s, x) == s.insert(k, x),
    decreases s.len(),
{
    if s.len() == 0 {
        assert(seq![x] =~= s.insert(k, x));
    } else if k == s.len() {
        assert(s.push(x) =~= s.insert(k, x));
    } else {
        let p = s.drop_last();
        assert(analyzed_after(x.last_analyzed, s[s.len() - 1].last_analyzed));
        assert forall|j: int| k <= j < p.len() implies analyzed_after(x.last_analyzed, (#[trigger] p[j]).last_analyzed) by {
            assert(p[j] == s[j]);
        }
        lemma_insert_at(p, x, k);
        assert(p.insert(k, x).push(s.last()) =~= s.insert(k, x));
    }
}

/// Put libraries in listing order: most recently analyzed first, never-analyzed
/// last, ties kept in their given order.
pub fn sort_libraries(libs: Vec<LibraryInfo>) -> (r: Vec<LibraryInfo>)
    ensures
        r@ == listing_order(libs@),
        is_listing_sorted(r@),
        r@.to_multiset() == libs@.to_multiset(),
{
    let ghost orig = libs@;
    let mut rest = libs;
    let mut out: Vec<LibraryInfo> = Vec::new();
    proof {
        assert(orig.take(0) =~= Seq::<LibraryInfo>::empty());
        assert(orig.skip(0) =~= orig);
    }
    while rest.len() > 0
        invariant
            rest@.len() <= orig.len(),
            out@ == listing_order(orig.take(orig.len() - rest@.len())),
            rest@ == orig.skip(orig.len() - rest@.len()),
        decreases rest.len(),
    {
        let ghost done = (orig.len() - rest@.len()) as int;
        let x = rest.remove(0);
        proof {
            assert(x == orig[done]);
            assert(rest@ =~= orig.skip(done + 1));
            assert(orig.take(done + 1).drop_last() =~= orig.take(done));
            assert(orig.take(done + 1).last() == x);
        }
        let mut k = out.len();
        while k > 0 && lists_after(x.last_analyzed, out[k - 1].last_analyzed)
            invariant
                k <= out@.len(),
                forall|j: int| k <= j < out@.len() ==> analyzed_after(x.last_analyzed, (#[trigger] out@[j]).last_analyzed),
            decreases k,
        {
            k = k - 1;
        }
        proof {
            lemma_insert_at(out@, x, k as int);
        }
        out.insert(k, x);
    }
    proof {
        assert(orig.take(orig.len() as int) =~= orig);
        lemma_listing_order(orig);
    }
    out
}

} // verus!
