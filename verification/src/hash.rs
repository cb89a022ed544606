//! Content hashing: the XXH3-128 digest that keys the preview cache, the
//! catalog's file rows and the render identity, computed over a file's bytes
//! as they are read, chunk by chunk.
use vstd::prelude::*;
use xxhash_rust::xxh3::Xxh3;
use crate::library::xxh3_128_of;

verus! {

#[verifier::external_type_specification]
#[verifier::external_body]
pub struct ExXxh3(Xxh3);

/// A running XXH3-128 hash; its view is every byte fed to it so far.
pub struct ContentHasher {
    state: Xxh3,
    fed: Ghost<Seq<u8>>,
}

impl View for ContentHasher {
    type V = Seq<u8>;

    closed spec fn view(&self) -> Seq<u8> {
        self.fed@
    }
}

/// `xxhash_rust::xxh3::Xxh3::new`: a hasher that has absorbed nothing.
#[verifier::external_body]
fn hasher_new() -> (h: ContentHasher)
    ensures
        h.fed@ == Seq::<u8>::empty(),
{
    ContentHasher { state: Xxh3::new(), fed: Ghost(Seq::empty()) }
}

/// `xxhash_rust::xxh3::Xxh3::update`: absorbs `chunk` after what came before.
/// The running length is a `u64` that the crate lets wrap, so the total is
/// kept within it.
#[verifier::external_body]
fn hasher_update(h: &mut ContentHasher, chunk: &[u8])
    requires
        old(h).fed@.len() + chunk@.len() <= u64::MAX,
    ensures
        final(h).fed@ == old(h).fed@ + chunk@,
{
    h.state.update(chunk)
}

/// `xxhash_rust::xxh3::Xxh3::digest128`: the streaming digest equals the
/// one-shot `xxh3_128` of all the bytes absorbed, in order (the crate's own
/// correctness tests compare the two on every input length).
#[verifier::external_body]
fn hasher_digest(h: &ContentHasher) -> (d: u128)
    ensures
        d == xxh3_128_of(h.fed@),
{
    h.state.digest128()
}

impl ContentHasher {
    /// A hasher that has seen no bytes.
    pub fn new() -> (h: Self)
        ensures
            h@ == Seq::<u8>::empty(),
    {
        hasher_new()
    }

    /// Feed the next chunk of the content.
    pub fn update(&mut self, chunk: &[u8])
        requires
            old(self)@.len() + chunk@.len() <= u64::MAX,
        ensures
            final(self)@ == old(self)@ + chunk@,
    {
        hasher_update(self, chunk)
    }

    /// The XXH3-128 of everything fed so far.
    pub fn digest(&self) -> (d: u128)
        ensures
            d == xxh3_128_of(self@),
    {
        hasher_digest(self)
    }
}

/// XXH3-128 of a file's content, given whole.
pub fn content_hash(data: &[u8]) -> (h: u128)
    ensures
        h == xxh3_128_of(data@),
{
    let mut hasher = ContentHasher::new();
    assert(data@.len() == data.len() && data.len() <= usize::MAX);
    hasher.update(data);
    proof {
        assert(Seq::<u8>::empty() + data@ =~= data@);
    }
    hasher.digest()
}

} // verus!
