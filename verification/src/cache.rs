//! Where a library's previews and thumbnails live: content-addressed files
//! under the cache root, bucketed by the first two hex digits of the hash.
use vstd::prelude::*;
use crate::path::{join, join_spec};
use crate::text::{chars_of, hex32, hex_char, hex_fixed, lemma_hex_fixed_len, push_char, push_str};

verus! {

/// A library's preview cache.
pub struct Cache {
    pub root: String,
}

/// `<root>/<ns>/<hex[..2]>/<hex>.webp`, where `hex` is the hash as 32
/// lowercase hex digits.
pub open spec fn cache_file(root: Seq<char>, ns: Seq<char>, hash: u128) -> Seq<char> {
    let hex = hex_fixed(hash as nat, 32);
    join_spec(join_spec(join_spec(root, ns), hex.take(2)), hex + ".webp"@)
}

fn cache_entry(root: &str, ns: &str, hash: u128) -> (r: String)
    ensures
        r@ == cache_file(root@, ns@, hash),
{
    let hex = hex32(hash);
    let hv = chars_of(hex.as_str());
    let mut bucket = String::new();
    push_char(&mut bucket, hv[0]);
    push_char(&mut bucket, hv[1]);
    proof {
        assert(bucket@ =~= hex@.take(2));
    }
    let mut name = String::new();
    push_str(&mut name, hex.as_str());
    push_str(&mut name, ".webp");
    let top = join(root, ns);
    let dir = join(top.as_str(), bucket.as_str());
    join(dir.as_str(), name.as_str())
}

impl Cache {
    /// Path where the WebP preview for `hash` is stored.
    pub fn path(&self, hash: u128) -> (p: String)
        ensures
            p@ == cache_file(self.root@, "previews"@, hash),
    {
        proof {
            reveal_strlit("previews");
        }
        cache_entry(self.root.as_str(), "previews", hash)
    }

    /// Path where the small grid thumbnail for `hash` is stored.
    pub fn thumb_path(&self, hash: u128) -> (p: String)
        ensures
            p@ == cache_file(self.root@, "thumbs"@, hash),
    {
        proof {
            reveal_strlit("thumbs");
        }
        cache_entry(self.root.as_str(), "thumbs", hash)
    }
}

/// `16^w`.
pub open spec fn pow16(w: nat) -> nat
    decreases w,
{
    if w == 0 {
        1
    } else {
        16 * pow16((w - 1) as nat)
    }
}

proof fn lemma_hex_char_injective(a: nat, b: nat)
    requires
        a < 16,
        b < 16,
        hex_char(a) == hex_char(b),
    ensures
        a == b,
{
}

proof fn lemma_hex_fixed_injective(u: nat, v: nat, w: nat)
    requires
        u < pow16(w),
        v < pow16(w),
        hex_fixed(u, w) == hex_fixed(v, w),
    ensures
        u == v,
    decreases w,
{
    if w > 0 {
        let hu = hex_fixed(u, w);
        let hv = hex_fixed(v, w);
        assert(hu.last() == hex_char(u % 16));
        assert(hv.last() == hex_char(v % 16));
        lemma_hex_char_injective(u % 16, v % 16);
        assert(hu.drop_last() =~= hex_fixed(u / 16, (w - 1) as nat));
        assert(hv.drop_last() =~= hex_fixed(v / 16, (w - 1) as nat));
        assert(u / 16 < pow16((w - 1) as nat));
        assert(v / 16 < pow16((w - 1) as nat));
        lemma_hex_fixed_injective(u / 16, v / 16, (w - 1) as nat);
    }
}

proof fn lemma_hex_fixed_no_slash(v: nat, w: nat, i: int)
    requires
        0 <= i < w,
    ensures
        hex_fixed(v, w)[i] != '/',
    decreases w,
{
    lemma_hex_fixed_len(v, w);
    if i < w - 1 {
        lemma_hex_fixed_len(v / 16, (w - 1) as nat);
        lemma_hex_fixed_no_slash(v / 16, (w - 1) as nat, i);
    }
}

/// Joining a relative, non-empty `c` onto `b` ends with `c`, and adds a
/// separator exactly when `b` is non-empty and does not already end in one.
proof fn lemma_join_suffix(b: Seq<char>, c: Seq<char>)
    requires
        c.len() > 0,
        c[0] != '/',
    ensures
        join_spec(b, c).len() == b.len() + c.len() + if b.len() > 0 && b.last() != '/' {
            1int
        } else {
            0int
        },
        join_spec(b, c).subrange(join_spec(b, c).len() - c.len(), join_spec(b, c).len() as int) == c,
{
    let j = join_spec(b, c);
    assert(j.subrange(j.len() - c.len(), j.len() as int) =~= c);
}

proof fn lemma_cache_file_shape(root: Seq<char>, ns: Seq<char>, hash: u128)
    requires
        ns.len() > 0,
        ns[0] != '/',
        ns.last() != '/',
    ensures
        cache_file(root, ns, hash).len() == root.len() + ns.len() + 41 + if root.len() > 0
            && root.last() != '/' {
            1int
        } else {
            0int
        },
        cache_file(root, ns, hash).subrange(
            cache_file(root, ns, hash).len() - 37,
            cache_file(root, ns, hash).len() as int,
        ) == hex_fixed(hash as nat, 32) + ".webp"@,
{
    reveal_strlit(".webp");
    let hex = hex_fixed(hash as nat, 32);
    lemma_hex_fixed_len(hash as nat, 32);
    lemma_hex_fixed_no_slash(hash as nat, 32, 0);
    lemma_hex_fixed_no_slash(hash as nat, 32, 1);
    let a = join_spec(root, ns);
    lemma_join_suffix(root, ns);
    assert(a.last() == a.subrange(a.len() - ns.len(), a.len() as int)[ns.len() - 1]);
    let bucket = hex.take(2);
    let b = join_spec(a, bucket);
    lemma_join_suffix(a, bucket);
    assert(b.last() == b.subrange(b.len() - 2, b.len() as int)[1]);
    let name = hex + ".webp"@;
    assert(name[0] == hex[0]);
    lemma_join_suffix(b, name);
}

/// Distinct hashes never share a preview file (nor a thumbnail file): the
/// cache is content-addressed.
pub proof fn lemma_cache_file_injective(root: Seq<char>, h1: u128, h2: u128)
    requires
        h1 != h2,
    ensures
        cache_file(root, "previews"@, h1) != cache_file(root, "previews"@, h2),
        cache_file(root, "thumbs"@, h1) != cache_file(root, "thumbs"@, h2),
{
    reveal_strlit("previews");
    reveal_strlit("thumbs");
    reveal_with_fuel(pow16, 33);
    assert(pow16(32) == 0x1_0000_0000_0000_0000_0000_0000_0000_0000);
    lemma_cache_file_shape(root, "previews"@, h1);
    lemma_cache_file_shape(root, "previews"@, h2);
    lemma_cache_file_shape(root, "thumbs"@, h1);
    lemma_cache_file_shape(root, "thumbs"@, h2);
    let e1 = hex_fixed(h1 as nat, 32) + ".webp"@;
    let e2 = hex_fixed(h2 as nat, 32) + ".webp"@;
    lemma_hex_fixed_len(h1 as nat, 32);
    lemma_hex_fixed_len(h2 as nat, 32);
    if hex_fixed(h1 as nat, 32) == hex_fixed(h2 as nat, 32) {
        lemma_hex_fixed_injective(h1 as nat, h2 as nat, 32);
    }
    assert(hex_fixed(h1 as nat, 32) != hex_fixed(h2 as nat, 32));
    if e1 == e2 {
        assert(e1.take(32) =~= hex_fixed(h1 as nat, 32));
        assert(e2.take(32) =~= hex_fixed(h2 as nat, 32));
    }
    assert(e1 != e2);
}

/// Previews and thumbnails live in separate namespaces: no preview path is
/// ever a thumbnail path, whatever the two hashes.
pub proof fn lemma_previews_and_thumbs_disjoint(root: Seq<char>, h1: u128, h2: u128)
    ensures
        cache_file(root, "previews"@, h1) != cache_file(root, "thumbs"@, h2),
{
    reveal_strlit("previews");
    reveal_strlit("thumbs");
    lemma_cache_file_shape(root, "previews"@, h1);
    lemma_cache_file_shape(root, "thumbs"@, h2);
}

} // verus!
