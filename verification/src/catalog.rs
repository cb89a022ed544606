//! Catalog schema upgrades: which migrations a catalog still needs.
use vstd::prelude::*;

verus! {

/// The versions still to apply, in order, to a catalog at `current_version`
/// when `migration_count` migrations exist (migration `i` brings the schema to
/// version `i + 1`).
pub open spec fn pending_spec(current_version: nat, migration_count: nat) -> Seq<nat> {
    if current_version >= migration_count {
        Seq::empty()
    } else {
        Seq::new((migration_count - current_version) as nat, |i: int| (current_version + 1 + i) as nat)
    }
}

pub fn pending_migrations(current_version: u32, migration_count: u32) -> (r: Vec<u32>)
    ensures
        r@.map_values(|v: u32| v as nat) == pending_spec(current_version as nat, migration_count as nat),
{
    let mut r: Vec<u32> = Vec::new();
    let mut v: u32 = current_version;
    while v < migration_count
        invariant
            current_version <= v || migration_count <= current_version,
            v >= current_version,
            v <= migration_count || v == current_version,
            r@.len() == v - current_version,
            forall|i: int| 0 <= i < r@.len() ==> r@[i] == current_version + 1 + i,
        decreases migration_count - v,
    {
        v = v + 1;
        r.push(v);
    }
    proof {
        assert(r@.map_values(|v: u32| v as nat) =~= pending_spec(current_version as nat, migration_count as nat));
    }
    r
}

} // verus!
