use vstd::prelude::*;
use crate::hashing::{
    ConsistentHasher, Router, key_position,
    lemma_str_order, lemma_successor_after, lemma_successor_before, lemma_successor_range, ring_add_vnodes, ring_holds, ring_map, ring_owner, ring_sorted,
    ring_successor, ring_walk, str_lt, strictly_sorted, vnode_position,
};

verus! {

/// Whether one of the first `vnodes` virtual nodes of `node` sits at `p`.
#[verifier::opaque]
pub open spec fn has_vnode_at(node: Seq<char>, vnodes: nat, p: u64) -> bool {
    exists|v: nat| v < vnodes && #[trigger] vnode_position(node, v) == p
}

/// Placing the first `v` virtual nodes of node `i` keeps what `base` holds
/// at `p`, and gives node `i` the position `p` if it is new and one of
/// them sits there.
proof fn lemma_add_vnodes(names: Seq<Seq<char>>, i: nat, v: nat, base: Map<u64, usize>, p: u64)
    ensures
        ring_add_vnodes(names, i, v, base).contains_key(p) <==> (base.contains_key(p) || has_vnode_at(names[i as int], v, p)),
        base.contains_key(p) ==> ring_add_vnodes(names, i, v, base)[p] == base[p],
        !base.contains_key(p) && ring_add_vnodes(names, i, v, base).contains_key(p) ==> ring_add_vnodes(names, i, v, base)[p] == i as usize,
    decreases v,
{
    reveal(has_vnode_at);
    if v > 0 {
        let w = (v - 1) as nat;
        lemma_add_vnodes(names, i, w, base, p);
        let q = vnode_position(names[i as int], w);
        if has_vnode_at(names[i as int], v, p) {
            let u = choose|u: nat| u < v && #[trigger] vnode_position(names[i as int], u) == p;
            if u < w {
                assert(has_vnode_at(names[i as int], w, p));
            }
        }
        if has_vnode_at(names[i as int], w, p) {
            let u = choose|u: nat| u < w && #[trigger] vnode_position(names[i as int], u) == p;
            assert(has_vnode_at(names[i as int], v, p));
        }
        if p == q {
            assert(has_vnode_at(names[i as int], v, p));
        }
    }
}

/// Whether one of the first `n` nodes has a virtual node at `p`.
pub open spec fn held_by_first(names: Seq<Seq<char>>, vnodes: nat, n: nat, p: u64) -> bool {
    exists|i: int| 0 <= i < n && #[trigger] has_vnode_at(names[i], vnodes, p)
}

/// The ring of the first `n` nodes holds exactly the positions one of
/// them has a virtual node at.
proof fn lemma_ring_map_positions(names: Seq<Seq<char>>, vnodes: nat, n: nat)
    requires
        n <= names.len(),
    ensures
        forall|p: u64| #[trigger] ring_map(names, vnodes, n).contains_key(p) <==> held_by_first(names, vnodes, n, p),
    decreases n,
{
    if n > 0 {
        let k = (n - 1) as nat;
        lemma_ring_map_positions(names, vnodes, k);
        let base = ring_map(names, vnodes, k);
        let m = ring_map(names, vnodes, n);
        assert forall|p: u64| #[trigger] m.contains_key(p) <==> held_by_first(names, vnodes, n, p) by {
            lemma_add_vnodes(names, k, vnodes, base, p);
            if held_by_first(names, vnodes, n, p) {
                let i = choose|i: int| 0 <= i < n && #[trigger] has_vnode_at(names[i], vnodes, p);
                if i < k {
                    assert(held_by_first(names, vnodes, k, p));
                }
            }
            if base.contains_key(p) {
                let i = choose|i: int| 0 <= i < k && #[trigger] has_vnode_at(names[i], vnodes, p);
                assert(0 <= i < n && has_vnode_at(names[i], vnodes, p));
            }
            if has_vnode_at(names[k as int], vnodes, p) {
                assert(held_by_first(names, vnodes, n, p));
            }
        }
    }
}

/// Whether node `o` is the first of `names` with a virtual node at `p`.
pub open spec fn first_holder(names: Seq<Seq<char>>, vnodes: nat, o: int, p: u64) -> bool {
    &&& 0 <= o < names.len()
    &&& has_vnode_at(names[o], vnodes, p)
    &&& forall|i: int| 0 <= i < o ==> !#[trigger] has_vnode_at(names[i], vnodes, p)
}

/// A position of the ring of the first `n` nodes is owned by the first
/// node that has a virtual node there.
proof fn lemma_owner_at(names: Seq<Seq<char>>, vnodes: nat, n: nat, p: u64)
    requires
        n <= names.len() <= usize::MAX,
        ring_map(names, vnodes, n).contains_key(p),
    ensures
        ring_map(names, vnodes, n)[p] < n,
        first_holder(names, vnodes, ring_map(names, vnodes, n)[p] as int, p),
    decreases n,
{
    if n == 0 {
        assert(!ring_map(names, vnodes, 0).contains_key(p));
        return;
    }
    let k = (n - 1) as nat;
    let base = ring_map(names, vnodes, k);
    assert(ring_map(names, vnodes, n) == ring_add_vnodes(names, k, vnodes, base));
    lemma_add_vnodes(names, k, vnodes, base, p);
    if base.contains_key(p) {
        lemma_owner_at(names, vnodes, k, p);
    } else {
        lemma_ring_map_positions(names, vnodes, k);
        let m = ring_map(names, vnodes, n);
        assert(m[p] == k);
        assert(has_vnode_at(names[k as int], vnodes, p));
        assert forall|i: int| 0 <= i < k implies !#[trigger] has_vnode_at(names[i], vnodes, p) by {
            if has_vnode_at(names[i], vnodes, p) {
                assert(held_by_first(names, vnodes, k, p));
            }
        }
    }
}

/// Each position of the ring of the first `n` nodes is owned by the first
/// node that has a virtual node there.
proof fn lemma_ring_map_owner(names: Seq<Seq<char>>, vnodes: nat, n: nat)
    requires
        n <= names.len() <= usize::MAX,
    ensures
        forall|p: u64| #[trigger] ring_map(names, vnodes, n).contains_key(p) <==> held_by_first(names, vnodes, n, p),
        forall|p: u64| #[trigger] ring_map(names, vnodes, n).contains_key(p) ==> ring_map(names, vnodes, n)[p] < n
            && first_holder(names, vnodes, ring_map(names, vnodes, n)[p] as int, p),
{
    lemma_ring_map_positions(names, vnodes, n);
    assert forall|p: u64| #[trigger] ring_map(names, vnodes, n).contains_key(p) implies ring_map(names, vnodes, n)[p] < n
        && first_holder(names, vnodes, ring_map(names, vnodes, n)[p] as int, p) by {
        lemma_owner_at(names, vnodes, n, p);
    }
}

/// In a ring of strictly sorted nodes, the owner of a position sorts no
/// later than any node with a virtual node there.
proof fn lemma_owner_first(names: Seq<Seq<char>>, vnodes: nat, p: u64, j: int)
    requires
        strictly_sorted(names),
        names.len() <= usize::MAX,
        0 <= j < names.len(),
        has_vnode_at(names[j], vnodes, p),
    ensures
        ring_map(names, vnodes, names.len()).contains_key(p),
        ({
            let o = names[ring_map(names, vnodes, names.len())[p] as int];
            o == names[j] || str_lt(o, names[j])
        }),
{
    lemma_ring_map_owner(names, vnodes, names.len());
    let m = ring_map(names, vnodes, names.len());
    assert(m.contains_key(p));
    let o = m[p] as int;
    if o != j {
        assert(o < j);
        assert(str_lt(names[o], names[j]));
    }
}

/// When a node joins, every position of the old ring stays on the new one,
/// and the owner of a position on the new ring is either the joining node
/// or the position's old owner.
proof fn lemma_join_owners(names: Seq<Seq<char>>, names2: Seq<Seq<char>>, vnodes: nat, x: Seq<char>, p: u64)
    requires
        strictly_sorted(names),
        strictly_sorted(names2),
        names.len() <= usize::MAX,
        names2.len() <= usize::MAX,
        names2.to_set() == names.to_set().insert(x),
    ensures
        ring_map(names, vnodes, names.len()).contains_key(p) ==> ring_map(names2, vnodes, names2.len()).contains_key(p),
        ring_map(names2, vnodes, names2.len()).contains_key(p) ==> {
            let m1 = ring_map(names, vnodes, names.len());
            let m2 = ring_map(names2, vnodes, names2.len());
            ||| names2[m2[p] as int] == x
            ||| m1.contains_key(p) && names2[m2[p] as int] == names[m1[p] as int]
        },
{
    lemma_ring_map_owner(names, vnodes, names.len());
    lemma_ring_map_owner(names2, vnodes, names2.len());
    let m1 = ring_map(names, vnodes, names.len());
    let m2 = ring_map(names2, vnodes, names2.len());
    if m1.contains_key(p) {
        let i = m1[p] as int;
        assert(names.to_set().contains(names[i]));
        assert(names2.to_set().contains(names[i]));
        assert(names2.contains(names[i]));
        let j = choose|j: int| 0 <= j < names2.len() && names2[j] == names[i];
        assert(has_vnode_at(names2[j], vnodes, p));
    }
    if m2.contains_key(p) {
        let j2 = m2[p] as int;
        let n2 = names2[j2];
        if n2 != x {
            assert(names2.to_set().contains(n2));
            assert(names.to_set().contains(n2));
            assert(names.contains(n2));
            let i = choose|i: int| 0 <= i < names.len() && names[i] == n2;
            lemma_owner_first(names, vnodes, p, i);
            let o1 = names[m1[p] as int];
            assert(names2.to_set().contains(o1));
            assert(names2.contains(o1));
            let j = choose|j: int| 0 <= j < names2.len() && names2[j] == o1;
            assert(has_vnode_at(names2[j], vnodes, p));
            lemma_owner_first(names2, vnodes, p, j);
            lemma_str_order(n2, o1, n2);
            lemma_str_order(o1, n2, o1);
        }
    }
}

/// The position of the entry a walk of `ring` from `h` starts at.
pub open spec fn walk_start(ring: Seq<(u64, usize)>, h: u64) -> u64 {
    let i = ring_successor(ring, h);
    if i < ring.len() {
        ring[i].0
    } else {
        ring[0].0
    }
}

/// The walk from `h` starts at the first position at or after `h`, or,
/// when there is none, at the first position of all; its owner is the
/// owner of that position.
proof fn lemma_walk_start(ring: Seq<(u64, usize)>, m: Map<u64, usize>, h: u64)
    requires
        ring_sorted(ring),
        ring_holds(ring, m),
        ring.len() > 0,
    ensures
        m.contains_key(walk_start(ring, h)),
        ring_owner(ring, h) == m[walk_start(ring, h)],
        ({
            let s = walk_start(ring, h);
            ||| s >= h && forall|q: u64| #[trigger] m.contains_key(q) && q >= h ==> s <= q
            ||| forall|q: u64| #[trigger] m.contains_key(q) ==> q < h && s <= q
        }),
{
    let i = ring_successor(ring, h);
    lemma_successor_range(ring, h);
    let walk = ring.skip(i) + ring.take(i);
    assert(ring_walk(ring, h) == walk.map_values(|e: (u64, usize)| e.1));
    if i < ring.len() {
        assert(walk[0] == ring[i]);
        assert(ring_owner(ring, h) == ring[i].1);
        assert(m.contains_key(ring[i].0) && m[ring[i].0] == ring[i].1);
        lemma_successor_after(ring, h, i);
        assert forall|q: u64| #[trigger] m.contains_key(q) && q >= h implies ring[i].0 <= q by {
            let j = choose|j: int| 0 <= j < ring.len() && ring[j].0 == q;
            if j < i {
                lemma_successor_before(ring, h, j);
            } else if j > i {
                assert(ring[i].0 < ring[j].0);
            }
        }
    } else {
        assert(ring.skip(i).len() == 0);
        assert(walk[0] == ring[0]);
        assert(ring_owner(ring, h) == ring[0].1);
        assert(m.contains_key(ring[0].0) && m[ring[0].0] == ring[0].1);
        assert forall|q: u64| #[trigger] m.contains_key(q) implies q < h && ring[0].0 <= q by {
            let j = choose|j: int| 0 <= j < ring.len() && ring[j].0 == q;
            lemma_successor_before(ring, h, j);
            if j > 0 {
                assert(ring[0].0 < ring[j].0);
            }
        }
    }
}

/// When a node `x` joins a consistent-hash ring (the same virtual nodes
/// per node), every key either keeps its primary or moves to `x`: no key
/// moves between the nodes that were already there.
pub proof fn lemma_join_moves_keys_only_to_joiner(
    names: Seq<Seq<char>>,
    ring: Seq<(u64, usize)>,
    names2: Seq<Seq<char>>,
    ring2: Seq<(u64, usize)>,
    vnodes: nat,
    x: Seq<char>,
    h: u64,
)
    requires
        strictly_sorted(names),
        names.len() <= usize::MAX,
        names2.len() <= usize::MAX,
        ring_sorted(ring),
        ring.len() > 0,
        ring_holds(ring, ring_map(names, vnodes, names.len())),
        strictly_sorted(names2),
        ring_sorted(ring2),
        ring2.len() > 0,
        ring_holds(ring2, ring_map(names2, vnodes, names2.len())),
        names2.to_set() == names.to_set().insert(x),
    ensures
        names2[ring_owner(ring2, h) as int] == x || names2[ring_owner(ring2, h) as int] == names[ring_owner(ring, h) as int],
{
    let m1 = ring_map(names, vnodes, names.len());
    let m2 = ring_map(names2, vnodes, names2.len());
    lemma_walk_start(ring, m1, h);
    lemma_walk_start(ring2, m2, h);
    let s1 = walk_start(ring, h);
    let s2 = walk_start(ring2, h);
    lemma_join_owners(names, names2, vnodes, x, s2);
    lemma_join_owners(names, names2, vnodes, x, s1);
    if names2[m2[s2] as int] != x {
        assert(m1.contains_key(s2));
        assert(m2.contains_key(s1));
        if s2 >= h && (forall|q: u64| #[trigger] m2.contains_key(q) && q >= h ==> s2 <= q) {
            if !(s1 >= h) {
                assert(m1.contains_key(s2) && s2 >= h);
            }
        } else {
            assert(s1 < h);
        }
        assert(s1 == s2);
    }
}

/// When a node `x` leaves a consistent-hash ring (the same virtual nodes
/// per node), every key whose primary was not `x` keeps its primary.
pub proof fn lemma_leave_keeps_other_keys(
    names: Seq<Seq<char>>,
    ring: Seq<(u64, usize)>,
    names2: Seq<Seq<char>>,
    ring2: Seq<(u64, usize)>,
    vnodes: nat,
    x: Seq<char>,
    h: u64,
)
    requires
        strictly_sorted(names),
        names.len() <= usize::MAX,
        names2.len() <= usize::MAX,
        ring_sorted(ring),
        ring.len() > 0,
        ring_holds(ring, ring_map(names, vnodes, names.len())),
        strictly_sorted(names2),
        ring_sorted(ring2),
        ring2.len() > 0,
        ring_holds(ring2, ring_map(names2, vnodes, names2.len())),
        names.to_set() == names2.to_set().insert(x),
        names[ring_owner(ring, h) as int] != x,
    ensures
        names2[ring_owner(ring2, h) as int] == names[ring_owner(ring, h) as int],
{
    lemma_join_moves_keys_only_to_joiner(names2, ring2, names, ring, vnodes, x, h);
}


/// A node joining moves keys only onto itself: for two rings built with the
/// same number of virtual nodes, the second over the first's nodes and `x`,
/// every key's primary on the second is `x` or its primary on the first.
pub proof fn lemma_join_keeps_primaries(a: ConsistentHasher, b: ConsistentHasher, x: Seq<char>, key: Seq<char>)
    requires
        strictly_sorted(a.node_list()),
        a.node_list().len() <= usize::MAX,
        ring_sorted(a.ring_entries()),
        a.ring_entries().len() > 0,
        ring_holds(a.ring_entries(), ring_map(a.node_list(), a.vnode_count(), a.node_list().len())),
        strictly_sorted(b.node_list()),
        b.node_list().len() <= usize::MAX,
        ring_sorted(b.ring_entries()),
        b.ring_entries().len() > 0,
        ring_holds(b.ring_entries(), ring_map(b.node_list(), b.vnode_count(), b.node_list().len())),
        b.vnode_count() == a.vnode_count(),
        b.node_list().to_set() == a.node_list().to_set().insert(x),
    ensures
        b.node_names()[b.primary_of(key)] == x || b.node_names()[b.primary_of(key)] == a.node_names()[a.primary_of(key)],
{
    lemma_join_moves_keys_only_to_joiner(
        a.node_list(),
        a.ring_entries(),
        b.node_list(),
        b.ring_entries(),
        a.vnode_count(),
        x,
        key_position(key),
    );
}

} // verus!
