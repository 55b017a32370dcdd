use vstd::prelude::*;
use vstd::string::*;
use vstd::utf8::*;
use crate::text::{decimal, lemma_decimal_ascii, lemma_encode_utf8_concat, push_decimal};

verus! {

/// Offset basis of the 64-bit FNV-1a hash.
pub const FNV_OFFSET: u64 = 0xcbf29ce484222325;

/// Prime multiplier of the 64-bit FNV-1a hash.
pub const FNV_PRIME: u64 = 0x1_0000_0001_b3;

/// First multiplier of the avalanche finalizer applied after FNV-1a.
pub const MIX_1: u64 = 0xbf58_476d_1ce4_e5b9;

/// Second multiplier of the avalanche finalizer applied after FNV-1a.
pub const MIX_2: u64 = 0x94d0_49bb_1331_11eb;

/// Default number of virtual nodes each server gets on the ring.
pub const DEFAULT_VIRTUAL_NODES: usize = 100;

/// The plain FNV-1a fold over `bytes`, before finalization.
pub open spec fn fnv1a_fold(bytes: Seq<u8>) -> u64
    decreases bytes.len(),
{
    if bytes.len() == 0 {
        FNV_OFFSET
    } else {
        (fnv1a_fold(bytes.drop_last()) ^ (bytes.last() as u64)).wrapping_mul(FNV_PRIME)
    }
}

/// The avalanche finalizer that spreads the high bits of the fold.
pub open spec fn fnv_mix(h: u64) -> u64 {
    let h1 = (h ^ (h >> 30u64)).wrapping_mul(MIX_1);
    let h2 = (h1 ^ (h1 >> 27u64)).wrapping_mul(MIX_2);
    h2 ^ (h2 >> 31u64)
}

/// The finalized FNV-1a hash of `bytes`.
pub open spec fn spec_fnv1a64(bytes: Seq<u8>) -> u64 {
    fnv_mix(fnv1a_fold(bytes))
}

/// FNV-1a over `bytes`, followed by a 64-bit avalanche finalizer.
pub fn fnv1a64(bytes: &[u8]) -> (hash: u64)
    ensures
        hash == spec_fnv1a64(bytes@),
{
    let mut hash: u64 = FNV_OFFSET;
    let n = bytes.len();
    let mut i: usize = 0;
    while i < n
        invariant
            n == bytes@.len(),
            i <= n,
            hash == fnv1a_fold(bytes@.take(i as int)),
        decreases n - i,
    {
        assert(bytes@.take(i + 1).drop_last() =~= bytes@.take(i as int));
        hash = hash ^ (bytes[i] as u64);
        hash = hash.wrapping_mul(FNV_PRIME);
        i = i + 1;
    }
    assert(bytes@.take(n as int) =~= bytes@);
    hash = (hash ^ (hash >> 30u64)).wrapping_mul(MIX_1);
    hash = (hash ^ (hash >> 27u64)).wrapping_mul(MIX_2);
    hash ^ (hash >> 31u64)
}

/// Byte-wise lexicographic order: `a` sorts before `b`.
pub open spec fn lex_lt(a: Seq<u8>, b: Seq<u8>) -> bool
    decreases a.len(),
{
    if b.len() == 0 {
        false
    } else if a.len() == 0 {
        true
    } else if a[0] != b[0] {
        a[0] < b[0]
    } else {
        lex_lt(a.drop_first(), b.drop_first())
    }
}

/// The order of `String`: byte-wise on the UTF-8 encodings.
pub open spec fn str_lt(a: Seq<char>, b: Seq<char>) -> bool {
    lex_lt(encode_utf8(a), encode_utf8(b))
}

/// Nothing sorts before itself.
pub proof fn lemma_lex_irreflexive(a: Seq<u8>)
    ensures
        !lex_lt(a, a),
    decreases a.len(),
{
    if a.len() > 0 {
        lemma_lex_irreflexive(a.drop_first());
    }
}

/// The order is transitive.
pub proof fn lemma_lex_transitive(a: Seq<u8>, b: Seq<u8>, c: Seq<u8>)
    requires
        lex_lt(a, b),
        lex_lt(b, c),
    ensures
        lex_lt(a, c),
    decreases a.len(),
{
    if a.len() > 0 && a[0] == b[0] && b[0] == c[0] {
        lemma_lex_transitive(a.drop_first(), b.drop_first(), c.drop_first());
    }
}

/// Two byte strings are equal or one sorts before the other.
pub proof fn lemma_lex_total(a: Seq<u8>, b: Seq<u8>)
    ensures
        a == b || lex_lt(a, b) || lex_lt(b, a),
    decreases a.len(),
{
    if a.len() > 0 && b.len() > 0 && a[0] == b[0] {
        lemma_lex_total(a.drop_first(), b.drop_first());
        if a.drop_first() == b.drop_first() {
            assert(a =~= seq![a[0]] + a.drop_first());
            assert(b =~= seq![b[0]] + b.drop_first());
        }
    } else if a.len() == 0 && b.len() == 0 {
        assert(a =~= b);
    }
}

/// The order of strings is a strict total order.
pub proof fn lemma_str_order(a: Seq<char>, b: Seq<char>, c: Seq<char>)
    ensures
        !str_lt(a, a),
        a == b || str_lt(a, b) || str_lt(b, a),
        str_lt(a, b) && str_lt(b, c) ==> str_lt(a, c),
{
    lemma_lex_irreflexive(encode_utf8(a));
    lemma_lex_total(encode_utf8(a), encode_utf8(b));
    if encode_utf8(a) == encode_utf8(b) {
        encode_utf8_decode_utf8(a);
        encode_utf8_decode_utf8(b);
    }
    if str_lt(a, b) && str_lt(b, c) {
        lemma_lex_transitive(encode_utf8(a), encode_utf8(b), encode_utf8(c));
    }
}

/// Whether `a` sorts before `b`, compared byte by byte.
pub fn bytes_lt(a: &[u8], b: &[u8]) -> (lt: bool)
    ensures
        lt == lex_lt(a@, b@),
{
    let mut i: usize = 0;
    assert(a@.skip(0) =~= a@);
    assert(b@.skip(0) =~= b@);
    while i < a.len() && i < b.len()
        invariant
            i <= a@.len(),
            i <= b@.len(),
            lex_lt(a@, b@) == lex_lt(a@.skip(i as int), b@.skip(i as int)),
        decreases a@.len() - i,
    {
        if a[i] != b[i] {
            return a[i] < b[i];
        }
        assert(a@.skip(i as int).drop_first() =~= a@.skip(i + 1));
        assert(b@.skip(i as int).drop_first() =~= b@.skip(i + 1));
        i = i + 1;
    }
    a.len() < b.len()
}

/// Whether string `a` sorts before string `b`.
pub fn string_lt(a: &str, b: &str) -> (lt: bool)
    ensures
        lt == str_lt(a@, b@),
{
    bytes_lt(a.as_bytes(), b.as_bytes())
}

/// The characters of each string of `v`.
pub open spec fn string_views(v: Seq<String>) -> Seq<Seq<char>> {
    v.map_values(|s: String| s@)
}

/// Every string sorts before all that follow it, so none appears twice.
pub open spec fn strictly_sorted(s: Seq<Seq<char>>) -> bool {
    forall|i: int, j: int| 0 <= i < j < s.len() ==> str_lt(#[trigger] s[i], #[trigger] s[j])
}

/// A strictly sorted sequence is fixed by the set of its elements.
pub proof fn lemma_sorted_by_set(a: Seq<Seq<char>>, b: Seq<Seq<char>>)
    requires
        strictly_sorted(a),
        strictly_sorted(b),
        a.to_set() == b.to_set(),
    ensures
        a == b,
    decreases a.len(),
{
    if a.len() == 0 {
        if b.len() > 0 {
            assert(b.to_set().contains(b[0]));
        }
        assert(a =~= b);
    } else {
        assert(a.to_set().contains(a[0]));
        assert(b.len() > 0);
        assert(b.to_set().contains(b[0]));
        let j = choose|j: int| 0 <= j < b.len() && b[j] == a[0];
        let i = choose|i: int| 0 <= i < a.len() && a[i] == b[0];
        lemma_str_order(a[0], a[0], a[0]);
        if j > 0 {
            assert(str_lt(b[0], b[j]));
            if i > 0 {
                assert(str_lt(a[0], a[i]));
                lemma_str_order(a[0], a[i], a[0]);
            }
        }
        assert(a[0] == b[0]);
        let ta = a.drop_first();
        let tb = b.drop_first();
        assert forall|x: Seq<char>| ta.to_set().contains(x) <==> tb.to_set().contains(x) by {
            if ta.to_set().contains(x) {
                let k = choose|k: int| 0 <= k < ta.len() && ta[k] == x;
                assert(a[k + 1] == x);
                assert(str_lt(a[0], a[k + 1]));
                assert(a.to_set().contains(x));
                let l = choose|l: int| 0 <= l < b.len() && b[l] == x;
                if l == 0 {
                    lemma_str_order(a[0], a[0], a[0]);
                }
                assert(tb[l - 1] == x);
            }
            if tb.to_set().contains(x) {
                let k = choose|k: int| 0 <= k < tb.len() && tb[k] == x;
                assert(b[k + 1] == x);
                assert(str_lt(b[0], b[k + 1]));
                assert(b.to_set().contains(x));
                let l = choose|l: int| 0 <= l < a.len() && a[l] == x;
                if l == 0 {
                    lemma_str_order(b[0], b[0], b[0]);
                }
                assert(ta[l - 1] == x);
            }
        }
        assert(ta.to_set() =~= tb.to_set());
        lemma_sorted_by_set(ta, tb);
        assert(a =~= b) by {
            assert forall|k: int| 0 <= k < a.len() implies a[k] == b[k] by {
                if k > 0 {
                    assert(a[k] == ta[k - 1]);
                    assert(b[k] == tb[k - 1]);
                }
            }
        }
    }
}

/// A ring sorted by position is fixed by the map of positions to owners it
/// holds.
pub proof fn lemma_ring_by_map(r1: Seq<(u64, usize)>, r2: Seq<(u64, usize)>, m: Map<u64, usize>)
    requires
        ring_sorted(r1),
        ring_sorted(r2),
        ring_holds(r1, m),
        ring_holds(r2, m),
    ensures
        r1 == r2,
    decreases r1.len(),
{
    if r1.len() == 0 {
        if r2.len() > 0 {
            assert(m.contains_key(r2[0].0));
        }
        assert(r1 =~= r2);
    } else {
        let p = r1[0].0;
        assert(m.contains_key(p));
        assert(r2.len() > 0);
        assert(m.contains_key(r2[0].0));
        let j = choose|j: int| 0 <= j < r2.len() && r2[j].0 == p;
        let i = choose|i: int| 0 <= i < r1.len() && r1[i].0 == r2[0].0;
        if j > 0 {
            assert(r2[0].0 < r2[j].0);
            if i > 0 {
                assert(r1[0].0 < r1[i].0);
            }
        }
        assert(r1[0] == r2[0]);
        let t1 = r1.drop_first();
        let t2 = r2.drop_first();
        let mt = m.remove(p);
        assert forall|k: int| 0 <= k < t1.len() implies #[trigger] mt.contains_key(t1[k].0) && mt[t1[k].0] == t1[k].1 by {
            assert(t1[k] == r1[k + 1]);
            assert(r1[0].0 < r1[k + 1].0);
            assert(m.contains_key(r1[k + 1].0) && m[r1[k + 1].0] == r1[k + 1].1);
        }
        assert forall|q: u64| #[trigger] mt.contains_key(q) implies exists|k: int| 0 <= k < t1.len() && t1[k].0 == q by {
            let k = choose|k: int| 0 <= k < r1.len() && r1[k].0 == q;
            assert(k > 0);
            assert(t1[k - 1].0 == q);
        }
        assert forall|k: int| 0 <= k < t2.len() implies #[trigger] mt.contains_key(t2[k].0) && mt[t2[k].0] == t2[k].1 by {
            assert(t2[k] == r2[k + 1]);
            assert(r2[0].0 == p);
            assert(r2[0].0 < r2[k + 1].0);
            assert(m.contains_key(r2[k + 1].0) && m[r2[k + 1].0] == r2[k + 1].1);
        }
        assert forall|q: u64| #[trigger] mt.contains_key(q) implies exists|k: int| 0 <= k < t2.len() && t2[k].0 == q by {
            let k = choose|k: int| 0 <= k < r2.len() && r2[k].0 == q;
            assert(k > 0);
            assert(t2[k - 1].0 == q);
        }
        lemma_ring_by_map(t1, t2, mt);
        assert(r1.len() == r2.len()) by {
            assert(t1.len() == t2.len());
        }
        assert(r1 =~= r2) by {
            assert forall|k: int| 0 <= k < r1.len() implies r1[k] == r2[k] by {
                if k > 0 {
                    assert(r1[k] == t1[k - 1]);
                    assert(r2[k] == t2[k - 1]);
                }
            }
        }
    }
}

/// `nodes` sorted, with duplicates dropped.
pub fn sorted_unique(nodes: Vec<String>) -> (out: Vec<String>)
    ensures
        strictly_sorted(string_views(out@)),
        string_views(out@).to_set() == string_views(nodes@).to_set(),
{
    let mut out: Vec<String> = Vec::new();
    let mut i: usize = 0;
    while i < nodes.len()
        invariant
            i <= nodes@.len(),
            strictly_sorted(string_views(out@)),
            string_views(out@).to_set() == string_views(nodes@.take(i as int)).to_set(),
        decreases nodes@.len() - i,
    {
        let x = &nodes[i];
        let ghost sv = string_views(out@);
        let mut p: usize = 0;
        while p < out.len() && string_lt(out[p].as_str(), x.as_str())
            invariant
                p <= out@.len(),
                sv == string_views(out@),
                forall|k: int| 0 <= k < p ==> str_lt(#[trigger] sv[k], x@),
            decreases out@.len() - p,
        {
            p = p + 1;
        }
        proof {
            assert(string_views(nodes@.take(i + 1)) =~= string_views(nodes@.take(i as int)).push(x@));
            lemma_push_to_set(string_views(nodes@.take(i as int)), x@);
        }
        if p < out.len() && str_equal_bytes(out[p].as_str(), x.as_str()) {
            proof {
                assert(sv.to_set().contains(x@)) by {
                    assert(sv[p as int] == x@);
                }
                assert(sv.to_set() =~= string_views(nodes@.take(i + 1)).to_set());
            }
        } else {
            let ghost before = out@;
            out.insert(p, x.clone());
            proof {
                let nv = string_views(out@);
                assert(nv =~= sv.insert(p as int, x@));
                if p < sv.len() {
                    lemma_str_order(x@, sv[p as int], x@);
                }
                assert forall|a: int, b: int| 0 <= a < b < nv.len() implies str_lt(#[trigger] nv[a], #[trigger] nv[b]) by {
                    if b < p {
                    } else if b == p {
                    } else if a < p {
                        lemma_str_order(nv[a], x@, nv[b]);
                        lemma_str_order(x@, sv[p as int], nv[b]);
                        if b > p + 1 {
                            assert(str_lt(sv[p as int], sv[b - 1]));
                        }
                    } else if a == p {
                        lemma_str_order(x@, sv[p as int], nv[b]);
                        if b > p + 1 {
                            assert(str_lt(sv[p as int], sv[b - 1]));
                        }
                    } else {
                        assert(str_lt(sv[a - 1], sv[b - 1]));
                    }
                }
                assert(nv.to_set() =~= sv.to_set().insert(x@)) by {
                    assert forall|y: Seq<char>| nv.contains(y) <==> (sv.contains(y) || y == x@) by {
                        if nv.contains(y) {
                            let k = nv.index_of(y);
                            if k < p {
                                assert(sv[k] == y);
                            } else if k > p {
                                assert(sv[k - 1] == y);
                            }
                        }
                        if sv.contains(y) {
                            let k = sv.index_of(y);
                            if k < p {
                                assert(nv[k] == y);
                            } else {
                                assert(nv[k + 1] == y);
                            }
                        }
                        if y == x@ {
                            assert(nv[p as int] == y);
                        }
                    }
                }
                assert(string_views(nodes@.take(i + 1)).to_set() =~= string_views(nodes@.take(i as int)).to_set().insert(x@));
            }
        }
        i = i + 1;
    }
    assert(nodes@.take(nodes@.len() as int) =~= nodes@);
    out
}

/// The elements of `s` with `x` pushed are those of `s` and `x`.
pub proof fn lemma_push_to_set<A>(s: Seq<A>, x: A)
    ensures
        s.push(x).to_set() == s.to_set().insert(x),
{
    assert forall|y: A| #[trigger] s.push(x).to_set().contains(y) <==> s.to_set().insert(x).contains(y) by {
        if s.push(x).contains(y) && y != x {
            let k = s.push(x).index_of(y);
            assert(s[k] == y);
        }
        if s.contains(y) {
            let k = s.index_of(y);
            assert(s.push(x)[k] == y);
        }
        if y == x {
            assert(s.push(x)[s.len() as int] == y);
        }
    }
    assert(s.push(x).to_set() =~= s.to_set().insert(x));
}

/// Whether two strings hold the same characters.
fn str_equal_bytes(a: &str, b: &str) -> (eq: bool)
    ensures
        eq == (a@ == b@),
{
    crate::text::str_equal(a, b)
}

/// The label hashed for virtual node `v` of `node`: the node, `#`, and `v` in decimal.
pub open spec fn vnode_label(node: Seq<char>, v: nat) -> Seq<u8> {
    encode_utf8(node + "#"@ + decimal(v))
}

/// Where virtual node `v` of `node` sits on the ring.
pub open spec fn vnode_position(node: Seq<char>, v: nat) -> u64 {
    spec_fnv1a64(vnode_label(node, v))
}

/// Where `key` falls on the ring.
pub open spec fn key_position(key: Seq<char>) -> u64 {
    spec_fnv1a64(encode_utf8(key))
}

/// The ring after the first `v` virtual nodes of node `i` were placed on
/// `base`; a position already taken keeps its first owner.
pub open spec fn ring_add_vnodes(nodes: Seq<Seq<char>>, i: nat, v: nat, base: Map<u64, usize>) -> Map<u64, usize>
    decreases v,
{
    if v == 0 {
        base
    } else {
        let m = ring_add_vnodes(nodes, i, (v - 1) as nat, base);
        let p = vnode_position(nodes[i as int], (v - 1) as nat);
        if m.contains_key(p) {
            m
        } else {
            m.insert(p, i as usize)
        }
    }
}

/// The ring holding `vnodes` virtual nodes of each of the first `n` nodes,
/// placed node by node: each position to the owner placed there first.
pub open spec fn ring_map(nodes: Seq<Seq<char>>, vnodes: nat, n: nat) -> Map<u64, usize>
    decreases n,
{
    if n == 0 {
        Map::empty()
    } else {
        ring_add_vnodes(nodes, (n - 1) as nat, vnodes, ring_map(nodes, vnodes, (n - 1) as nat))
    }
}

/// The entries of `ring` are sorted by position, none twice.
pub open spec fn ring_sorted(ring: Seq<(u64, usize)>) -> bool {
    forall|a: int, b: int| 0 <= a < b < ring.len() ==> #[trigger] ring[a].0 < #[trigger] ring[b].0
}

/// `ring` lists exactly the positions of `m`, each with its owner.
pub open spec fn ring_holds(ring: Seq<(u64, usize)>, m: Map<u64, usize>) -> bool {
    &&& forall|j: int| 0 <= j < ring.len() ==> #[trigger] m.contains_key(ring[j].0) && m[ring[j].0] == ring[j].1
    &&& forall|p: u64| #[trigger] m.contains_key(p) ==> exists|j: int| 0 <= j < ring.len() && ring[j].0 == p
}

/// The index of the first entry at or after position `h`, or the length if
/// every entry lies before `h`.
pub open spec fn ring_successor(ring: Seq<(u64, usize)>, h: u64) -> int
    decreases ring.len(),
{
    if ring.len() == 0 {
        0
    } else if ring[0].0 >= h {
        0
    } else {
        1 + ring_successor(ring.drop_first(), h)
    }
}

/// The owners met walking the ring clockwise from position `h`, wrapping
/// around once.
pub open spec fn ring_walk(ring: Seq<(u64, usize)>, h: u64) -> Seq<usize> {
    let i = ring_successor(ring, h);
    (ring.skip(i) + ring.take(i)).map_values(|e: (u64, usize)| e.1)
}

/// The first `count` owners of `owners` not in `seen`, each once, in the
/// order met.
pub open spec fn distinct_owners(owners: Seq<usize>, seen: Set<usize>, count: nat) -> Seq<usize>
    decreases owners.len(),
{
    if owners.len() == 0 || count == 0 {
        Seq::empty()
    } else if seen.contains(owners[0]) {
        distinct_owners(owners.drop_first(), seen, count)
    } else {
        seq![owners[0]] + distinct_owners(owners.drop_first(), seen.insert(owners[0]), (count - 1) as nat)
    }
}

/// The index in `ring` of the first entry at or after `h`, found by binary search.
fn successor_index(ring: &Vec<(u64, usize)>, h: u64) -> (i: usize)
    requires
        ring_sorted(ring@),
    ensures
        i as int == ring_successor(ring@, h),
        i <= ring@.len(),
{
    let mut lo: usize = 0;
    let mut hi: usize = ring.len();
    while lo < hi
        invariant
            lo <= hi <= ring@.len(),
            ring_sorted(ring@),
            forall|j: int| 0 <= j < lo ==> #[trigger] ring@[j].0 < h,
            forall|j: int| hi <= j < ring@.len() ==> #[trigger] ring@[j].0 >= h,
        decreases hi - lo,
    {
        let mid = lo + (hi - lo) / 2;
        if ring[mid].0 < h {
            proof {
                assert forall|j: int| 0 <= j < mid + 1 implies #[trigger] ring@[j].0 < h by {
                    if j < mid {
                        assert(ring@[j].0 < ring@[mid as int].0);
                    }
                }
            }
            lo = mid + 1;
        } else {
            proof {
                assert forall|j: int| mid <= j < ring@.len() implies #[trigger] ring@[j].0 >= h by {
                    if j > mid {
                        assert(ring@[mid as int].0 < ring@[j].0);
                    }
                }
            }
            hi = mid;
        }
    }
    proof {
        lemma_ring_successor(ring@, h, lo as int);
    }
    lo
}

/// The successor is the first index at or after `h`.
pub proof fn lemma_ring_successor(ring: Seq<(u64, usize)>, h: u64, i: int)
    requires
        0 <= i <= ring.len(),
        forall|j: int| 0 <= j < i ==> #[trigger] ring[j].0 < h,
        i == ring.len() || ring[i].0 >= h,
    ensures
        ring_successor(ring, h) == i,
    decreases i,
{
    if i > 0 {
        assert(ring[0].0 < h);
        assert forall|j: int| 0 <= j < i - 1 implies #[trigger] ring.drop_first()[j].0 < h by {
            assert(ring.drop_first()[j] == ring[j + 1]);
        }
        lemma_ring_successor(ring.drop_first(), h, i - 1);
    }
}

/// A consistent-hash ring: every node owns `vnodes` positions on a 64-bit
/// circle and a key belongs to the owner of the first position at or after
/// its hash, wrapping around.
pub struct ConsistentHasher {
    ring: Vec<(u64, usize)>,
    nodes: Vec<String>,
    vnodes: usize,
}

impl ConsistentHasher {
    /// The ring is sorted, holds the positions of every node's virtual
    /// nodes, and is never empty.
    #[verifier::type_invariant]
    spec fn well_formed(self) -> bool {
        &&& strictly_sorted(string_views(self.nodes@))
        &&& self.nodes@.len() > 0
        &&& self.vnodes > 0
        &&& ring_sorted(self.ring@)
        &&& ring_holds(self.ring@, ring_map(string_views(self.nodes@), self.vnodes as nat, self.nodes@.len()))
        &&& self.ring@.len() > 0
        &&& forall|j: int| 0 <= j < self.ring@.len() ==> #[trigger] self.ring@[j].1 < self.nodes@.len()
    }

    /// The nodes, sorted, none twice.
    pub closed spec fn node_list(&self) -> Seq<Seq<char>> {
        string_views(self.nodes@)
    }

    /// The ring's entries, sorted by position: each position with the index
    /// of its owner in [`ConsistentHasher::node_list`].
    pub closed spec fn ring_entries(&self) -> Seq<(u64, usize)> {
        self.ring@
    }

    /// Virtual nodes per node.
    pub closed spec fn vnode_count(&self) -> nat {
        self.vnodes as nat
    }

    /// The hash of `node`'s `v`-th virtual node's label, the bytes of the
    /// node's name, `#` and `v` in decimal.
    fn vnode_hash(node: &String, v: usize) -> (position: u64)
        ensures
            position == vnode_position(node@, v as nat),
    {
        let mut label: Vec<u8> = node.as_str().as_bytes_vec();
        label.push(35u8);
        let ghost with_hash = label@;
        push_decimal(v as u64, &mut label);
        proof {
            reveal_strlit("#");
            lemma_decimal_ascii(v as nat);
            let d = decimal(v as nat);
            is_ascii_chars_encode_utf8(d);
            assert(encode_utf8(d) =~= d.map_values(|c: char| c as u8));
            assert(is_ascii_chars("#"@));
            is_ascii_chars_encode_utf8("#"@);
            assert(encode_utf8("#"@) =~= seq![35u8]);
            lemma_encode_utf8_concat(node@, "#"@);
            lemma_encode_utf8_concat(node@ + "#"@, d);
            assert(label@ =~= vnode_label(node@, v as nat));
        }
        fnv1a64(label.as_slice())
    }

    /// A ring for the distinct `nodes`, each with `vnodes` virtual nodes.
    pub fn new(nodes: Vec<String>, vnodes: usize) -> (hasher: Self)
        requires
            nodes@.len() > 0,
            vnodes > 0,
        ensures
            strictly_sorted(hasher.node_list()),
            hasher.node_list().to_set() == string_views(nodes@).to_set(),
            hasher.node_list().len() <= usize::MAX,
            hasher.vnode_count() == vnodes,
            ring_sorted(hasher.ring_entries()),
            hasher.ring_entries().len() > 0,
            ring_holds(hasher.ring_entries(), ring_map(hasher.node_list(), vnodes as nat, hasher.node_list().len())),
    {
        let ghost input = string_views(nodes@);
        let nodes = sorted_unique(nodes);
        proof {
            let v0 = string_views(nodes@);
            assert(input.to_set().contains(input[0]));
            assert(v0.contains(input[0]));
        }
        let ghost names = string_views(nodes@);
        let n = nodes.len();
        let mut ring: Vec<(u64, usize)> = Vec::new();
        let mut idx: usize = 0;
        while idx < n
            invariant
                n == nodes@.len(),
                names == string_views(nodes@),
                n > 0,
                vnodes > 0,
                idx <= n,
                ring_sorted(ring@),
                ring_holds(ring@, ring_map(names, vnodes as nat, idx as nat)),
                idx > 0 ==> ring@.len() > 0,
                forall|j: int| 0 <= j < ring@.len() ==> #[trigger] ring@[j].1 < idx,
            decreases n - idx,
        {
            let mut v: usize = 0;
            let ghost base = ring_map(names, vnodes as nat, idx as nat);
            while v < vnodes
                invariant
                    n == nodes@.len(),
                    names == string_views(nodes@),
                    idx < n,
                    v <= vnodes,
                    base == ring_map(names, vnodes as nat, idx as nat),
                    ring_sorted(ring@),
                    ring_holds(ring@, ring_add_vnodes(names, idx as nat, v as nat, base)),
                    (idx > 0 || v > 0) ==> ring@.len() > 0,
                    forall|j: int| 0 <= j < ring@.len() ==> #[trigger] ring@[j].1 <= idx,
                decreases vnodes - v,
            {
                let p = Self::vnode_hash(&nodes[idx], v);
                assert(names[idx as int] == nodes@[idx as int]@);
                let ghost m = ring_add_vnodes(names, idx as nat, v as nat, base);
                let k = successor_index(&ring, p);
                proof {
                    assert forall|j: int| 0 <= j < k implies #[trigger] ring@[j].0 < p by {
                        lemma_successor_before(ring@, p, j);
                    }
                    assert forall|j: int| k <= j < ring@.len() implies #[trigger] ring@[j].0 >= p by {
                        lemma_successor_after(ring@, p, j);
                    }
                }
                if k < ring.len() && ring[k].0 == p {
                    assert(m.contains_key(p));
                } else {
                    proof {
                        if m.contains_key(p) {
                            let j = choose|j: int| 0 <= j < ring@.len() && ring@[j].0 == p;
                            assert(ring@[j].0 == p);
                        }
                    }
                    let ghost before = ring@;
                    ring.insert(k, (p, idx));
                    proof {
                        lemma_ring_insert(before, m, k as int, p, idx);
                    }
                }
                v = v + 1;
            }
            idx = idx + 1;
        }
        ConsistentHasher { ring, nodes, vnodes }
    }
}

/// Inserting a position that `m` lacks, at its place in the sorted ring,
/// keeps the ring sorted and makes it hold `m` with that position added.
proof fn lemma_ring_insert(before: Seq<(u64, usize)>, m: Map<u64, usize>, k: int, p: u64, idx: usize)
    requires
        ring_sorted(before),
        ring_holds(before, m),
        !m.contains_key(p),
        0 <= k <= before.len(),
        forall|j: int| 0 <= j < k ==> #[trigger] before[j].0 < p,
        forall|j: int| k <= j < before.len() ==> #[trigger] before[j].0 >= p,
    ensures
        ring_sorted(before.insert(k, (p, idx))),
        ring_holds(before.insert(k, (p, idx)), m.insert(p, idx)),
{
    let ring = before.insert(k, (p, idx));
    let m2 = m.insert(p, idx);
    assert forall|j: int| 0 <= j < before.len() implies #[trigger] before[j].0 != p by {
        assert(m.contains_key(before[j].0));
    }
    assert forall|a: int, b: int| 0 <= a < b < ring.len() implies #[trigger] ring[a].0 < #[trigger] ring[b].0 by {
        if b < k {
        } else if b == k {
        } else if a < k {
            assert(before[b - 1].0 >= p);
            assert(before[b - 1].0 != p);
        } else if a == k {
            assert(before[b - 1].0 >= p);
            assert(before[b - 1].0 != p);
        } else {
            assert(before[a - 1].0 < before[b - 1].0);
        }
    }
    assert forall|j: int| 0 <= j < ring.len() implies #[trigger] m2.contains_key(ring[j].0) && m2[ring[j].0] == ring[j].1 by {
        if j < k {
            assert(ring[j] == before[j]);
        } else if j > k {
            assert(ring[j] == before[j - 1]);
        }
    }
    assert forall|q: u64| #[trigger] m2.contains_key(q) implies exists|j: int| 0 <= j < ring.len() && ring[j].0 == q by {
        if q == p {
            assert(ring[k].0 == q);
        } else {
            let j = choose|j: int| 0 <= j < before.len() && before[j].0 == q;
            if j < k {
                assert(ring[j] == before[j]);
            } else {
                assert(ring[j + 1] == before[j]);
            }
        }
    }
}

/// The successor lies between the start and the length of the ring.
pub proof fn lemma_successor_range(ring: Seq<(u64, usize)>, h: u64)
    ensures
        0 <= ring_successor(ring, h) <= ring.len(),
    decreases ring.len(),
{
    if ring.len() > 0 && ring[0].0 < h {
        lemma_successor_range(ring.drop_first(), h);
    }
}

/// Entries before the successor lie before `h`.
pub(crate) proof fn lemma_successor_before(ring: Seq<(u64, usize)>, h: u64, j: int)
    requires
        0 <= j < ring_successor(ring, h),
    ensures
        j < ring.len(),
        ring[j].0 < h,
    decreases ring.len(),
{
    if ring.len() > 0 && ring[0].0 < h && j > 0 {
        lemma_successor_before(ring.drop_first(), h, j - 1);
    }
}

/// In a sorted ring, entries from the successor on lie at or after `h`.
pub(crate) proof fn lemma_successor_after(ring: Seq<(u64, usize)>, h: u64, j: int)
    requires
        ring_sorted(ring),
        ring_successor(ring, h) <= j < ring.len(),
    ensures
        ring[j].0 >= h,
    decreases ring.len(),
{
    if ring[0].0 < h {
        lemma_successor_range(ring.drop_first(), h);
        assert(ring_sorted(ring.drop_first())) by {
            assert forall|a: int, b: int| 0 <= a < b < ring.drop_first().len() implies #[trigger] ring.drop_first()[a].0 < #[trigger] ring.drop_first()[b].0 by {
                assert(ring[a + 1].0 < ring[b + 1].0);
            }
        }
        lemma_successor_after(ring.drop_first(), h, j - 1);
        assert(ring.drop_first()[j - 1] == ring[j]);
    } else if j > 0 {
        assert(ring[0].0 < ring[j].0);
    }
}

/// Routes keys to nodes: a primary owner and, for replication, further nodes.
pub trait Router {
    /// The nodes keys are routed to.
    spec fn node_names(&self) -> Seq<Seq<char>>;

    /// The index in [`Router::node_names`] of the node that owns `key`.
    spec fn primary_of(&self, key: Seq<char>) -> int;

    /// The indices of the nodes that hold copies of `key`, when `count` are asked for.
    spec fn replicas_of(&self, key: Seq<char>, count: nat) -> Seq<int>;

    /// The node that owns `key`.
    fn primary(&self, key: &str) -> (node: &str)
        ensures
            0 <= self.primary_of(key@) < self.node_names().len(),
            node@ == self.node_names()[self.primary_of(key@)],
    ;

    /// Up to `count` nodes that hold copies of `key`.
    fn replicas(&self, key: &str, count: usize) -> (nodes: Vec<&str>)
        ensures
            nodes@.len() == self.replicas_of(key@, count as nat).len(),
            forall|i: int|
                0 <= i < nodes@.len() ==> 0 <= #[trigger] self.replicas_of(key@, count as nat)[i]
                    < self.node_names().len() && nodes@[i]@ == self.node_names()[self.replicas_of(
                    key@,
                    count as nat,
                )[i]],
    ;

    /// Every node, in order.
    fn nodes(&self) -> (nodes: &[String])
        ensures
            string_views(nodes@) == self.node_names(),
    ;
}

/// The owner index of the first entry of the walk from `h`.
pub open spec fn ring_owner(ring: Seq<(u64, usize)>, h: u64) -> usize {
    ring_walk(ring, h)[0]
}

impl ConsistentHasher {
    /// Virtual nodes per node.
    pub fn virtual_nodes(&self) -> (vnodes: usize)
        ensures
            vnodes == self.vnode_count(),
            vnodes > 0,
    {
        proof {
            use_type_invariant(self);
        }
        self.vnodes
    }

    /// A ring over `nodes` with the same number of virtual nodes per node.
    pub fn with_nodes(&self, nodes: Vec<String>) -> (hasher: Self)
        requires
            nodes@.len() > 0,
        ensures
            strictly_sorted(hasher.node_list()),
            hasher.node_list().to_set() == string_views(nodes@).to_set(),
            hasher.node_list().len() <= usize::MAX,
            hasher.vnode_count() == self.vnode_count(),
            ring_sorted(hasher.ring_entries()),
            hasher.ring_entries().len() > 0,
            ring_holds(hasher.ring_entries(), ring_map(hasher.node_list(), self.vnode_count(), hasher.node_list().len())),
    {
        proof {
            use_type_invariant(self);
        }
        ConsistentHasher::new(nodes, self.vnodes)
    }

    /// A ring rebuilt over a set of nodes routes like a fresh ring over
    /// that set with the same number of virtual nodes: two rings built over
    /// the same nodes with the same virtual node count list the same nodes
    /// and the same entries, so every key has the same primary and the same
    /// replicas on both. This is what makes [`ConsistentHasher::with_nodes`]
    /// agree with [`ConsistentHasher::new`].
    pub proof fn lemma_same_nodes_same_routing(g: ConsistentHasher, r: ConsistentHasher)
        requires
            strictly_sorted(g.node_list()),
            strictly_sorted(r.node_list()),
            g.node_list().to_set() == r.node_list().to_set(),
            g.vnode_count() == r.vnode_count(),
            ring_sorted(g.ring_entries()),
            ring_sorted(r.ring_entries()),
            ring_holds(g.ring_entries(), ring_map(g.node_list(), g.vnode_count(), g.node_list().len())),
            ring_holds(r.ring_entries(), ring_map(r.node_list(), r.vnode_count(), r.node_list().len())),
        ensures
            g.node_names() == r.node_names(),
            forall|key: Seq<char>| #[trigger] g.primary_of(key) == r.primary_of(key),
            forall|key: Seq<char>, count: nat| #[trigger] g.replicas_of(key, count) == r.replicas_of(key, count),
    {
        lemma_sorted_by_set(g.node_list(), r.node_list());
        lemma_ring_by_map(
            g.ring_entries(),
            r.ring_entries(),
            ring_map(g.node_list(), g.vnode_count(), g.node_list().len()),
        );
    }

    /// The walk from `h` starts at the successor and wraps.
    proof fn lemma_walk(&self, h: u64)
        requires
            ring_sorted(self.ring@),
            self.ring@.len() > 0,
        ensures
            ring_walk(self.ring@, h).len() == self.ring@.len(),
            forall|k: int| 0 <= k < self.ring@.len() ==> #[trigger] ring_walk(self.ring@, h)[k] == self.ring@[
                if ring_successor(self.ring@, h) + k < self.ring@.len() {
                    ring_successor(self.ring@, h) + k
                } else {
                    ring_successor(self.ring@, h) + k - self.ring@.len()
                }].1,
    {
        lemma_successor_range(self.ring@, h);
    }
}

impl Router for ConsistentHasher {
    open spec fn node_names(&self) -> Seq<Seq<char>> {
        self.node_list()
    }

    open spec fn primary_of(&self, key: Seq<char>) -> int {
        ring_owner(self.ring_entries(), key_position(key)) as int
    }

    open spec fn replicas_of(&self, key: Seq<char>, count: nat) -> Seq<int> {
        let walk = ring_walk(self.ring_entries(), key_position(key));
        distinct_owners(walk, set![walk[0]], count).map_values(|i: usize| i as int)
    }

    fn primary(&self, key: &str) -> (node: &str) {
        proof {
            use_type_invariant(self);
        }
        let h = fnv1a64(key.as_bytes());
        let i = successor_index(&self.ring, h);
        proof {
            self.lemma_walk(h);
        }
        let index = if i < self.ring.len() {
            self.ring[i].1
        } else {
            self.ring[0].1
        };
        assert(index == ring_walk(self.ring@, h)[0]);
        self.nodes[index].as_str()
    }

    fn replicas(&self, key: &str, count: usize) -> (nodes: Vec<&str>) {
        proof {
            use_type_invariant(self);
        }
        let ghost names = string_views(self.nodes@);
        let mut out: Vec<&str> = Vec::new();
        let h = fnv1a64(key.as_bytes());
        let ghost walk = ring_walk(self.ring@, h);
        proof {
            self.lemma_walk(h);
        }
        if count == 0 {
            assert(distinct_owners(walk, set![walk[0]], 0) =~= Seq::<usize>::empty());
            return out;
        }
        let len = self.ring.len();
        let i = successor_index(&self.ring, h);
        let primary = if i < len {
            self.ring[i].1
        } else {
            self.ring[0].1
        };
        let n = self.nodes.len();
        let mut seen: Vec<bool> = Vec::new();
        while seen.len() < n
            invariant
                seen@.len() <= n,
                forall|x: int| 0 <= x < seen@.len() ==> !#[trigger] seen@[x],
            decreases n - seen@.len(),
        {
            seen.push(false);
        }
        seen.set(primary, true);
        let ghost target = distinct_owners(walk, set![walk[0]], count as nat);
        let ghost mut picked: Seq<usize> = Seq::empty();
        let ghost mut seen_set: Set<usize> = set![primary];
        let mut k: usize = 0;
        assert(walk.skip(0) =~= walk);
        assert(picked + distinct_owners(walk.skip(0), seen_set, count as nat) =~= target);
        while k < len && out.len() < count
            invariant
                len == self.ring@.len(),
                n == self.nodes@.len(),
                names == string_views(self.nodes@),
                walk.len() == len,
                forall|q: int| 0 <= q < len ==> #[trigger] walk[q] < n,
                k <= len,
                seen@.len() == n,
                forall|x: int| 0 <= x < n ==> (#[trigger] seen@[x] <==> seen_set.contains(x as usize)),
                picked.len() == out@.len(),
                out@.len() <= count,
                forall|t: int| 0 <= t < picked.len() ==> #[trigger] picked[t] < n && out@[t]@ == names[picked[t] as int],
                picked + distinct_owners(walk.skip(k as int), seen_set, (count - out@.len()) as nat) == target,
                0 <= i <= len,
                i as int == ring_successor(self.ring@, h),
                forall|q: int| 0 <= q < len ==> #[trigger] walk[q] == self.ring@[if i + q < len { i + q } else { i + q - len }].1,
            decreases len - k,
        {
            let j = if k < len - i {
                i + k
            } else {
                k - (len - i)
            };
            let owner = self.ring[j].1;
            assert(owner == walk[k as int]);
            let ghost rest = walk.skip(k as int);
            assert(rest[0] == walk[k as int]);
            assert(rest.drop_first() =~= walk.skip(k + 1));
            if !seen[owner] {
                seen.set(owner, true);
                out.push(self.nodes[owner].as_str());
                proof {
                    let c = (count - (out@.len() - 1)) as nat;
                    assert(distinct_owners(rest, seen_set, c) == seq![owner] + distinct_owners(walk.skip(k + 1), seen_set.insert(owner), (c - 1) as nat));
                    picked = picked.push(owner);
                    seen_set = seen_set.insert(owner);
                    assert(picked + distinct_owners(walk.skip(k + 1), seen_set, (count - out@.len()) as nat) =~= target);
                }
            }
            k = k + 1;
        }
        proof {
            assert(distinct_owners(walk.skip(k as int), seen_set, (count - out@.len()) as nat) =~= Seq::<usize>::empty());
            assert(picked =~= target);
        }
        out
    }

    fn nodes(&self) -> (nodes: &[String]) {
        self.nodes.as_slice()
    }
}

/// Routes a key to the node at its hash modulo the number of nodes, and
/// its replicas to the nodes that follow, wrapping around.
pub struct ModuloHasher {
    nodes: Vec<String>,
}

/// The index a key hashing to `h` gets among `n` nodes.
pub open spec fn modulo_slot(h: u64, n: nat) -> int {
    (h as usize) as int % n as int
}

impl ModuloHasher {
    /// The nodes are sorted, none twice, and there is at least one.
    #[verifier::type_invariant]
    spec fn well_formed(self) -> bool {
        &&& strictly_sorted(string_views(self.nodes@))
        &&& self.nodes@.len() > 0
    }

    /// The nodes, sorted, none twice.
    pub closed spec fn node_list(&self) -> Seq<Seq<char>> {
        string_views(self.nodes@)
    }

    /// A router over the distinct `nodes`.
    pub fn new(nodes: Vec<String>) -> (hasher: Self)
        requires
            nodes@.len() > 0,
        ensures
            strictly_sorted(hasher.node_list()),
            hasher.node_list().to_set() == string_views(nodes@).to_set(),
    {
        let ghost input = string_views(nodes@);
        let nodes = sorted_unique(nodes);
        proof {
            assert(input.to_set().contains(input[0]));
            assert(string_views(nodes@).contains(input[0]));
        }
        ModuloHasher { nodes }
    }
}

/// Stepping to the next slot modulo `n`.
proof fn lemma_mod_step(x: int, n: int)
    requires
        n > 0,
        x >= 0,
    ensures
        (if x % n + 1 == n { 0 } else { x % n + 1 }) == (x + 1) % n,
{
    vstd::arithmetic::div_mod::lemma_fundamental_div_mod(x, n);
    let q = x / n;
    let r = x % n;
    assert(0 <= r < n) by {
        vstd::arithmetic::div_mod::lemma_mod_pos_bound(x, n);
    }
    if r + 1 == n {
        assert(x + 1 == (q + 1) * n + 0) by (nonlinear_arith)
            requires
                x == n * q + r,
                r + 1 == n,
        ;
        vstd::arithmetic::div_mod::lemma_fundamental_div_mod_converse(x + 1, n, q + 1, 0);
    } else {
        assert(x + 1 == q * n + (r + 1)) by (nonlinear_arith)
            requires
                x == n * q + r,
        ;
        vstd::arithmetic::div_mod::lemma_fundamental_div_mod_converse(x + 1, n, q, r + 1);
    }
}

impl Router for ModuloHasher {
    open spec fn node_names(&self) -> Seq<Seq<char>> {
        self.node_list()
    }

    open spec fn primary_of(&self, key: Seq<char>) -> int {
        modulo_slot(key_position(key), self.node_list().len())
    }

    open spec fn replicas_of(&self, key: Seq<char>, count: nat) -> Seq<int> {
        let start = modulo_slot(key_position(key), self.node_list().len());
        Seq::new(count, |k: int| (start + 1 + k) % self.node_list().len() as int)
    }

    fn primary(&self, key: &str) -> (node: &str) {
        proof {
            use_type_invariant(self);
        }
        let h = fnv1a64(key.as_bytes());
        let index = h as usize % self.nodes.len();
        self.nodes[index].as_str()
    }

    fn replicas(&self, key: &str, count: usize) -> (nodes: Vec<&str>) {
        proof {
            use_type_invariant(self);
        }
        let n = self.nodes.len();
        let h = fnv1a64(key.as_bytes());
        let start = h as usize % n;
        let ghost spec_start = modulo_slot(key_position(key@), n as nat);
        let mut out: Vec<&str> = Vec::new();
        let mut j = start;
        let mut offset: usize = 0;
        proof {
            vstd::arithmetic::div_mod::lemma_fundamental_div_mod_converse(start as int, n as int, 0, start as int);
        }
        while offset < count
            invariant
                n == self.nodes@.len(),
                n > 0,
                start == spec_start,
                0 <= start < n,
                offset <= count,
                out@.len() == offset,
                j < n,
                j as int == (start + offset) % n as int,
                forall|t: int| 0 <= t < offset ==> #[trigger] out@[t]@ == string_views(self.nodes@)[(start + 1 + t) % n as int],
            decreases count - offset,
        {
            proof {
                lemma_mod_step(start + offset, n as int);
            }
            j = if j + 1 == n {
                0
            } else {
                j + 1
            };
            out.push(self.nodes[j].as_str());
            offset = offset + 1;
        }
        proof {
            let r = self.replicas_of(key@, count as nat);
            assert forall|t: int| 0 <= t < out@.len() implies 0 <= #[trigger] r[t] < n && out@[t]@ == string_views(self.nodes@)[r[t]] by {
                assert(r[t] == (start + 1 + t) % n as int);
            }
        }
        out
    }

    fn nodes(&self) -> (nodes: &[String]) {
        self.nodes.as_slice()
    }
}

/// How many of `keys` have different primaries under `before` and `after`.
pub open spec fn moved_keys<A: Router, B: Router>(before: &A, after: &B, keys: Seq<Seq<char>>) -> nat
    decreases keys.len(),
{
    if keys.len() == 0 {
        0
    } else {
        let k = keys.last();
        moved_keys(before, after, keys.drop_last()) + if before.node_names()[before.primary_of(k)]
            != after.node_names()[after.primary_of(k)] {
            1nat
        } else {
            0nat
        }
    }
}

/// How many of `keys` change their primary node between two routers.
pub fn moved_count<A: Router, B: Router>(before: &A, after: &B, keys: &[String]) -> (moved: usize)
    ensures
        moved == moved_keys(before, after, string_views(keys@)),
{
    let ghost views = string_views(keys@);
    let mut moved: usize = 0;
    let mut i: usize = 0;
    while i < keys.len()
        invariant
            i <= keys@.len(),
            views == string_views(keys@),
            moved == moved_keys(before, after, views.take(i as int)),
            moved <= i,
        decreases keys@.len() - i,
    {
        let key = keys[i].as_str();
        let a = before.primary(key);
        let b = after.primary(key);
        assert(views.take(i + 1).drop_last() =~= views.take(i as int));
        assert(views.take(i + 1).last() == key@);
        if !crate::text::str_equal(a, b) {
            moved = moved + 1;
        }
        i = i + 1;
    }
    assert(views.take(keys@.len() as int) =~= views);
    moved
}

/// The replicas picked from a walk are distinct, exclude what was already
/// seen, come from the walk, number at most `count`, and fall short of
/// `count` only when every other owner on the walk was picked.
pub proof fn lemma_distinct_owners(owners: Seq<usize>, seen: Set<usize>, count: nat)
    ensures
        distinct_owners(owners, seen, count).no_duplicates(),
        distinct_owners(owners, seen, count).len() <= count,
        forall|i: int| 0 <= i < distinct_owners(owners, seen, count).len() ==> !seen.contains(
            #[trigger] distinct_owners(owners, seen, count)[i],
        ) && owners.contains(distinct_owners(owners, seen, count)[i]),
        distinct_owners(owners, seen, count).len() < count ==> forall|x: usize| #[trigger] owners.contains(x)
            && !seen.contains(x) ==> distinct_owners(owners, seen, count).contains(x),
    decreases owners.len(),
{
    let r = distinct_owners(owners, seen, count);
    if owners.len() == 0 || count == 0 {
    } else if seen.contains(owners[0]) {
        lemma_distinct_owners(owners.drop_first(), seen, count);
        let r1 = distinct_owners(owners.drop_first(), seen, count);
        assert forall|i: int| 0 <= i < r.len() implies owners.contains(#[trigger] r[i]) by {
            let k = owners.drop_first().index_of(r1[i]);
            assert(owners[k + 1] == r[i]);
        }
        if r.len() < count {
            assert forall|x: usize| #[trigger] owners.contains(x) && !seen.contains(x) implies r.contains(x) by {
                let k = owners.index_of(x);
                assert(k != 0);
                assert(owners.drop_first()[k - 1] == x);
                assert(owners.drop_first().contains(x));
            }
        }
    } else {
        let o = owners[0];
        lemma_distinct_owners(owners.drop_first(), seen.insert(o), (count - 1) as nat);
        let r1 = distinct_owners(owners.drop_first(), seen.insert(o), (count - 1) as nat);
        assert(r == seq![o] + r1);
        assert forall|a: int, b: int| 0 <= a < b < r.len() implies r[a] != r[b] by {
            if a == 0 {
                assert(r[b] == r1[b - 1]);
                assert(!seen.insert(o).contains(r1[b - 1]));
            } else {
                assert(r[a] == r1[a - 1] && r[b] == r1[b - 1]);
            }
        }
        assert forall|i: int| 0 <= i < r.len() implies !seen.contains(#[trigger] r[i]) && owners.contains(r[i]) by {
            if i == 0 {
                assert(owners[0] == r[i]);
            } else {
                assert(r[i] == r1[i - 1]);
                let k = owners.drop_first().index_of(r1[i - 1]);
                assert(owners[k + 1] == r[i]);
            }
        }
        if r.len() < count {
            assert forall|x: usize| #[trigger] owners.contains(x) && !seen.contains(x) implies r.contains(x) by {
                if x == o {
                    assert(r[0] == x);
                } else {
                    let k = owners.index_of(x);
                    assert(k != 0);
                    assert(owners.drop_first()[k - 1] == x);
                    assert(owners.drop_first().contains(x));
                    assert(!seen.insert(o).contains(x));
                    assert(r1.contains(x));
                    let t = r1.index_of(x);
                    assert(r[t + 1] == x);
                }
            }
        }
    }
}

/// The replicas of a key on a ring are distinct nodes other than its
/// primary, at most `count` of them, and fewer only when no other node
/// owns a position on the ring.
pub proof fn lemma_consistent_replicas(h: &ConsistentHasher, key: Seq<char>, count: nat)
    requires
        ring_sorted(h.ring_entries()),
        h.ring_entries().len() > 0,
    ensures
        ({
            let r = h.replicas_of(key, count);
            &&& r.no_duplicates()
            &&& r.len() <= count
            &&& forall|i: int| 0 <= i < r.len() ==> #[trigger] r[i] != h.primary_of(key)
            &&& r.len() < count ==> forall|j: int| 0 <= j < h.ring_entries().len() && #[trigger] h.ring_entries()[j].1
                != h.primary_of(key) ==> r.contains(h.ring_entries()[j].1 as int)
        }),
{
    let ring = h.ring_entries();
    let walk = ring_walk(ring, key_position(key));
    h.lemma_walk(key_position(key));
    let seen = set![walk[0]];
    lemma_distinct_owners(walk, seen, count);
    let d = distinct_owners(walk, seen, count);
    let r = h.replicas_of(key, count);
    assert(r == d.map_values(|i: usize| i as int));
    assert forall|a: int, b: int| 0 <= a < b < r.len() implies r[a] != r[b] by {
        assert(d[a] != d[b]);
    }
    assert forall|i: int| 0 <= i < r.len() implies #[trigger] r[i] != h.primary_of(key) by {
        assert(!seen.contains(d[i]));
    }
    if r.len() < count {
        assert forall|j: int| 0 <= j < ring.len() && #[trigger] ring[j].1 != h.primary_of(key) implies r.contains(ring[j].1 as int) by {
            let i = ring_successor(ring, key_position(key));
            lemma_successor_range(ring, key_position(key));
            let q = if j >= i { j - i } else { j + ring.len() - i };
            assert(walk[q] == ring[j].1);
            assert(walk.contains(ring[j].1));
            assert(d.contains(ring[j].1));
            let t = d.index_of(ring[j].1);
            assert(r[t] == ring[j].1 as int);
        }
    }
}

/// How far clockwise position `p` lies from `h` on the 64-bit circle.
pub open spec fn ahead(h: u64, p: u64) -> int {
    if p >= h {
        p - h
    } else {
        p + 0x1_0000_0000_0000_0000 - h
    }
}

/// The first owner of `owners` not in `seen` is what `distinct_owners`
/// picks first, and every owner before it was seen.
proof fn lemma_first_distinct(owners: Seq<usize>, seen: Set<usize>, count: nat, k: int)
    requires
        count >= 1,
        0 <= k < owners.len(),
        !seen.contains(owners[k]),
    ensures
        distinct_owners(owners, seen, count).len() >= 1,
        exists|q: int|
            0 <= q <= k && owners[q] == distinct_owners(owners, seen, count)[0] && forall|p: int|
                0 <= p < q ==> seen.contains(#[trigger] owners[p]),
    decreases owners.len(),
{
    if seen.contains(owners[0]) {
        let rest = owners.drop_first();
        assert(rest[k - 1] == owners[k]);
        lemma_first_distinct(rest, seen, count, k - 1);
        let q = choose|q: int|
            0 <= q <= k - 1 && rest[q] == distinct_owners(rest, seen, count)[0] && forall|p: int|
                0 <= p < q ==> seen.contains(#[trigger] rest[p]);
        assert(owners[q + 1] == rest[q]);
        assert forall|p: int| 0 <= p < q + 1 implies seen.contains(#[trigger] owners[p]) by {
            if p > 0 {
                assert(owners[p] == rest[p - 1]);
            }
        }
    } else {
        assert(distinct_owners(owners, seen, count)[0] == owners[0]);
    }
}

/// Along the walk from `h`, each step lies strictly further clockwise from
/// `h` than the one before.
proof fn lemma_walk_ahead(ring: Seq<(u64, usize)>, h: u64, q1: int, q2: int)
    requires
        ring_sorted(ring),
        0 <= q1 < q2 < ring.len(),
    ensures
        ({
            let i = ring_successor(ring, h);
            let j1 = if i + q1 < ring.len() { i + q1 } else { i + q1 - ring.len() };
            let j2 = if i + q2 < ring.len() { i + q2 } else { i + q2 - ring.len() };
            ahead(h, ring[j1].0) < ahead(h, ring[j2].0)
        }),
{
    let i = ring_successor(ring, h);
    lemma_successor_range(ring, h);
    let j1 = if i + q1 < ring.len() { i + q1 } else { i + q1 - ring.len() };
    let j2 = if i + q2 < ring.len() { i + q2 } else { i + q2 - ring.len() };
    if j1 >= i {
        lemma_successor_after(ring, h, j1);
    } else {
        lemma_successor_before(ring, h, j1);
    }
    if j2 >= i {
        lemma_successor_after(ring, h, j2);
    } else {
        lemma_successor_before(ring, h, j2);
    }
    if (j1 >= i) == (j2 >= i) {
        assert(j1 < j2);
        assert(ring[j1].0 < ring[j2].0);
    }
}

/// A key's primary owns the ring position nearest clockwise from the key's
/// hash, and its first replica owns the nearest position clockwise from
/// the hash whose owner is not the primary: every position nearer than
/// that one belongs to the primary. So replicas follow the key around the
/// ring, and keys of one primary that hash to different places can have
/// different replicas.
pub proof fn lemma_replicas_follow_key(h: &ConsistentHasher, key: Seq<char>, count: nat)
    requires
        ring_sorted(h.ring_entries()),
        h.ring_entries().len() > 0,
    ensures
        ({
            let ring = h.ring_entries();
            let k = key_position(key);
            exists|j: int|
                0 <= j < ring.len() && ring[j].1 as int == h.primary_of(key) && forall|j2: int|
                    0 <= j2 < ring.len() ==> ahead(k, ring[j].0) <= #[trigger] ahead(k, ring[j2].0)
        }),
        count >= 1 && (exists|j: int| 0 <= j < h.ring_entries().len() && h.ring_entries()[j].1 != h.primary_of(key))
            ==> ({
            let ring = h.ring_entries();
            let k = key_position(key);
            let r = h.replicas_of(key, count);
            &&& r.len() >= 1
            &&& exists|j: int|
                0 <= j < ring.len() && ring[j].1 as int == r[0] && forall|j2: int|
                    0 <= j2 < ring.len() && #[trigger] ahead(k, ring[j2].0) < ahead(k, ring[j].0) ==> ring[j2].1
                        == h.primary_of(key)
        }),
{
    let ring = h.ring_entries();
    let len = ring.len() as int;
    let k = key_position(key);
    let walk = ring_walk(ring, k);
    h.lemma_walk(k);
    let i = ring_successor(ring, k);
    lemma_successor_range(ring, k);
    let j0 = if i < len { i } else { i - len };
    assert(walk[0] == ring[j0].1);
    assert forall|j2: int| 0 <= j2 < len implies ahead(k, ring[j0].0) <= #[trigger] ahead(k, ring[j2].0) by {
        let q2 = if j2 >= i { j2 - i } else { j2 + len - i };
        assert(j2 == if i + q2 < len { i + q2 } else { i + q2 - len });
        if q2 > 0 {
            lemma_walk_ahead(ring, k, 0, q2);
        }
    }
    if count >= 1 && (exists|j: int| 0 <= j < ring.len() && ring[j].1 != h.primary_of(key)) {
        let jx = choose|j: int| 0 <= j < ring.len() && ring[j].1 != h.primary_of(key);
        let qx = if jx >= i { jx - i } else { jx + len - i };
        assert(walk[qx] == ring[jx].1);
        let seen = set![walk[0]];
        lemma_first_distinct(walk, seen, count, qx);
        let d = distinct_owners(walk, seen, count);
        let q0 = choose|q: int| 0 <= q <= qx && walk[q] == d[0] && forall|p: int| 0 <= p < q ==> seen.contains(#[trigger] walk[p]);
        let j = if i + q0 < len { i + q0 } else { i + q0 - len };
        assert(walk[q0] == ring[j].1);
        assert(h.replicas_of(key, count)[0] == d[0] as int);
        assert forall|j2: int| 0 <= j2 < len && #[trigger] ahead(k, ring[j2].0) < ahead(k, ring[j].0) implies ring[j2].1
            == h.primary_of(key) by {
            let q2 = if j2 >= i { j2 - i } else { j2 + len - i };
            assert(j2 == if i + q2 < len { i + q2 } else { i + q2 - len });
            if q2 > q0 {
                lemma_walk_ahead(ring, k, q0, q2);
            }
            assert(q2 != q0);
            assert(seen.contains(walk[q2]));
            assert(walk[q2] == ring[j2].1);
        }
    }
}

/// Each owner `distinct_owners` picks is met on the walk after only owners
/// that were seen or picked before it.
proof fn lemma_distinct_order(owners: Seq<usize>, seen: Set<usize>, count: nat)
    ensures
        forall|t: int| 0 <= t < distinct_owners(owners, seen, count).len() ==> exists|q: int|
            0 <= q < owners.len() && owners[q] == #[trigger] distinct_owners(owners, seen, count)[t] && forall|p: int|
                0 <= p < q ==> seen.contains(#[trigger] owners[p]) || distinct_owners(owners, seen, count).take(t).contains(owners[p]),
    decreases owners.len(),
{
    let d = distinct_owners(owners, seen, count);
    if owners.len() == 0 || count == 0 {
    } else if seen.contains(owners[0]) {
        let rest = owners.drop_first();
        lemma_distinct_order(rest, seen, count);
        assert(d == distinct_owners(rest, seen, count));
        assert forall|t: int| 0 <= t < d.len() implies exists|q: int|
            0 <= q < owners.len() && owners[q] == #[trigger] d[t] && forall|p: int|
                0 <= p < q ==> seen.contains(#[trigger] owners[p]) || d.take(t).contains(owners[p]) by {
            let q1 = choose|q: int|
                0 <= q < rest.len() && rest[q] == #[trigger] d[t] && forall|p: int|
                    0 <= p < q ==> seen.contains(#[trigger] rest[p]) || d.take(t).contains(rest[p]);
            assert(owners[q1 + 1] == d[t]);
            assert forall|p: int| 0 <= p < q1 + 1 implies seen.contains(#[trigger] owners[p]) || d.take(t).contains(owners[p]) by {
                if p > 0 {
                    assert(owners[p] == rest[p - 1]);
                }
            }
        }
    } else {
        let o = owners[0];
        let rest = owners.drop_first();
        let d1 = distinct_owners(rest, seen.insert(o), (count - 1) as nat);
        lemma_distinct_order(rest, seen.insert(o), (count - 1) as nat);
        assert(d == seq![o] + d1);
        assert forall|t: int| 0 <= t < d.len() implies exists|q: int|
            0 <= q < owners.len() && owners[q] == #[trigger] d[t] && forall|p: int|
                0 <= p < q ==> seen.contains(#[trigger] owners[p]) || d.take(t).contains(owners[p]) by {
            if t == 0 {
                assert(owners[0] == d[0]);
            } else {
                assert(d[t] == d1[t - 1]);
                let q1 = choose|q: int|
                    0 <= q < rest.len() && rest[q] == #[trigger] d1[t - 1] && forall|p: int|
                        0 <= p < q ==> seen.insert(o).contains(#[trigger] rest[p]) || d1.take(t - 1).contains(rest[p]);
                assert(owners[q1 + 1] == d[t]);
                assert(d.take(t) == seq![o] + d1.take(t - 1));
                assert forall|p: int| 0 <= p < q1 + 1 implies seen.contains(#[trigger] owners[p]) || d.take(t).contains(owners[p]) by {
                    if p == 0 {
                        assert(d.take(t)[0] == o);
                    } else {
                        let x = owners[p];
                        assert(x == rest[p - 1]);
                        if x == o {
                            assert(d.take(t)[0] == o);
                        } else if d1.take(t - 1).contains(x) {
                            let k = d1.take(t - 1).index_of(x);
                            assert(d.take(t)[k + 1] == x);
                        }
                    }
                }
            }
        }
    }
}

/// Replicas come in ring order from the key: the `t`-th replica owns a
/// position such that every position nearer clockwise to the key's hash
/// belongs to the primary or to one of the replicas before it.
pub proof fn lemma_replicas_in_ring_order(h: &ConsistentHasher, key: Seq<char>, count: nat)
    requires
        ring_sorted(h.ring_entries()),
        h.ring_entries().len() > 0,
    ensures
        ({
            let ring = h.ring_entries();
            let k = key_position(key);
            let r = h.replicas_of(key, count);
            forall|t: int| 0 <= t < r.len() ==> exists|j: int|
                0 <= j < ring.len() && ring[j].1 as int == #[trigger] r[t] && forall|j2: int|
                    0 <= j2 < ring.len() && #[trigger] ahead(k, ring[j2].0) < ahead(k, ring[j].0) ==> (ring[j2].1
                        == h.primary_of(key) || r.take(t).contains(ring[j2].1 as int))
        }),
{
    let ring = h.ring_entries();
    let len = ring.len() as int;
    let k = key_position(key);
    let walk = ring_walk(ring, k);
    h.lemma_walk(k);
    let i = ring_successor(ring, k);
    lemma_successor_range(ring, k);
    let seen = set![walk[0]];
    let d = distinct_owners(walk, seen, count);
    let r = h.replicas_of(key, count);
    lemma_distinct_order(walk, seen, count);
    assert(r == d.map_values(|x: usize| x as int));
    assert forall|t: int| 0 <= t < r.len() implies exists|j: int|
        0 <= j < ring.len() && ring[j].1 as int == #[trigger] r[t] && forall|j2: int|
            0 <= j2 < ring.len() && #[trigger] ahead(k, ring[j2].0) < ahead(k, ring[j].0) ==> (ring[j2].1
                == h.primary_of(key) || r.take(t).contains(ring[j2].1 as int)) by {
        let q0 = choose|q: int|
            0 <= q < walk.len() && walk[q] == #[trigger] d[t] && forall|p: int|
                0 <= p < q ==> seen.contains(#[trigger] walk[p]) || d.take(t).contains(walk[p]);
        let j = if i + q0 < len { i + q0 } else { i + q0 - len };
        assert(walk[q0] == ring[j].1);
        assert forall|j2: int| 0 <= j2 < len && #[trigger] ahead(k, ring[j2].0) < ahead(k, ring[j].0) implies (ring[j2].1
            == h.primary_of(key) || r.take(t).contains(ring[j2].1 as int)) by {
            let q2 = if j2 >= i { j2 - i } else { j2 + len - i };
            assert(j2 == if i + q2 < len { i + q2 } else { i + q2 - len });
            if q2 > q0 {
                lemma_walk_ahead(ring, k, q0, q2);
            }
            assert(q2 != q0);
            assert(walk[q2] == ring[j2].1);
            if !seen.contains(walk[q2]) {
                let x = walk[q2];
                assert(d.take(t).contains(x));
                let m = d.take(t).index_of(x);
                assert(r.take(t)[m] == x as int);
            }
        }
    }
}

/// Modulo routing: fewer replicas than nodes are distinct and never the primary.
pub proof fn lemma_modulo_replicas(h: &ModuloHasher, key: Seq<char>, count: nat)
    requires
        count < h.node_list().len(),
    ensures
        ({
            let r = h.replicas_of(key, count);
            &&& r.len() == count
            &&& r.no_duplicates()
            &&& forall|i: int| 0 <= i < r.len() ==> #[trigger] r[i] != h.primary_of(key)
        }),
{
    let n = h.node_list().len() as int;
    let start = h.primary_of(key);
    let r = h.replicas_of(key, count);
    assert(0 <= start < n);
    assert forall|i: int| 0 <= i < r.len() implies #[trigger] r[i] == if start + 1 + i < n { start + 1 + i } else { start + 1 + i - n } by {
        if start + 1 + i < n {
            vstd::arithmetic::div_mod::lemma_fundamental_div_mod_converse(start + 1 + i, n, 0, start + 1 + i);
        } else {
            vstd::arithmetic::div_mod::lemma_fundamental_div_mod_converse(start + 1 + i, n, 1, start + 1 + i - n);
        }
    }
    assert forall|a: int, b: int| 0 <= a < b < r.len() implies r[a] != r[b] by {
        assert(r[a] == if start + 1 + a < n { start + 1 + a } else { start + 1 + a - n });
        assert(r[b] == if start + 1 + b < n { start + 1 + b } else { start + 1 + b - n });
    }
}

} // verus!