use std::collections::HashSet;
use vstd::prelude::*;

verus! {

broadcast use vstd::std_specs::hash::group_hash_axioms;

/// The number under which a position is kept in a set: its two coordinates
/// side by side.
pub open spec fn key(c: (int, int)) -> u64 {
    (c.0 * 0x1_0000_0000 + c.1) as u64
}

/// The coordinate fits in 32 bits.
pub open spec fn is_u32(x: int) -> bool {
    0 <= x <= u32::MAX
}

/// The positions that the set holds.
pub open spec fn cells(keys: Set<u64>) -> Set<(int, int)> {
    Set::new(|c: (int, int)| is_u32(c.0) && is_u32(c.1) && keys.contains(key(c)))
}

/// The number under which a position is kept.
pub fn key_of(c: (u32, u32)) -> (k: u64)
    ensures
        k == key((c.0 as int, c.1 as int)),
{
    (c.0 as u64) * 0x1_0000_0000 + c.1 as u64
}

/// Different positions have different numbers.
pub proof fn lemma_key_injective(a: (int, int), b: (int, int))
    requires
        is_u32(a.0) && is_u32(a.1) && is_u32(b.0) && is_u32(b.1),
        key(a) == key(b),
    ensures
        a == b,
{
}

/// Adds a position to the set.
pub fn occupy(coords: &mut HashSet<u64>, c: (u32, u32))
    ensures
        cells(final(coords)@) == cells(old(coords)@).insert((c.0 as int, c.1 as int)),
{
    coords.insert(key_of(c));
    proof {
        let p = (c.0 as int, c.1 as int);
        assert forall|q: (int, int)| cells(coords@).contains(q) <==> cells(old(coords)@).insert(
            p,
        ).contains(q) by {
            if is_u32(q.0) && is_u32(q.1) && key(q) == key(p) {
                lemma_key_injective(q, p);
            }
        }
        assert(cells(coords@) =~= cells(old(coords)@).insert(p));
    }
}

/// Whether the position is in the set.
pub fn occupied(coords: &HashSet<u64>, c: (u32, u32)) -> (b: bool)
    ensures
        b == cells(coords@).contains((c.0 as int, c.1 as int)),
{
    let k = key_of(c);
    coords.contains(&k)
}

} // verus!
