use vstd::prelude::*;
use crate::hashing::{fnv_mix, MIX_1, MIX_2};
use vstd::utf8::*;
use crate::text::{decimal, decimal_text, owned};

verus! {

/// The increment of the SplitMix64 state.
pub const GOLDEN_GAMMA: u64 = 0x9E37_79B9_7F4A_7C15;

/// How many draws [`SplitMix64::below`] makes at most; the last is kept
/// whatever it is.
pub const MAX_REJECTIONS: u64 = 0xFFFF_FFFF_FFFF_FFFF;

/// The SplitMix64 generator: a counter stepped by [`GOLDEN_GAMMA`] and
/// passed through an avalanche finalizer.
pub struct SplitMix64(u64);

/// The state after one step.
pub open spec fn splitmix_step(state: u64) -> u64 {
    state.wrapping_add(GOLDEN_GAMMA)
}

/// Draws below this value are rejected so that what remains divides evenly
/// into `bound` classes: `2^64 mod bound`.
pub open spec fn reject_below(bound: u64) -> u64 {
    (0u64.wrapping_sub(bound) % bound) as u64
}

/// Rejection sampling below `bound` from `state`, with `budget` more draws
/// allowed after the next: the state after the accepted draw and the draw
/// reduced modulo `bound`.
pub open spec fn draw_below(state: u64, bound: u64, budget: nat) -> (u64, u64)
    decreases budget,
{
    let s = splitmix_step(state);
    let v = fnv_mix(s);
    if v >= reject_below(bound) || budget == 0 {
        (s, (v % bound) as u64)
    } else {
        draw_below(s, bound, (budget - 1) as nat)
    }
}

impl SplitMix64 {
    /// The generator's state.
    pub closed spec fn state(&self) -> u64 {
        self.0
    }

    /// A generator seeded with `seed`.
    pub fn new(seed: u64) -> (rng: Self)
        ensures
            rng.state() == seed,
    {
        SplitMix64(seed)
    }

    /// The next 64 pseudo-random bits.
    pub fn next_u64(&mut self) -> (value: u64)
        ensures
            final(self).state() == splitmix_step(old(self).state()),
            value == fnv_mix(final(self).state()),
    {
        self.0 = self.0.wrapping_add(GOLDEN_GAMMA);
        let mut z = self.0;
        z = (z ^ (z >> 30u64)).wrapping_mul(MIX_1);
        z = (z ^ (z >> 27u64)).wrapping_mul(MIX_2);
        z ^ (z >> 31u64)
    }

    /// A draw uniformly below `bound`, by rejection sampling.
    pub fn below(&mut self, bound: u64) -> (value: u64)
        requires
            bound > 0,
        ensures
            (final(self).state(), value) == draw_below(old(self).state(), bound, MAX_REJECTIONS as nat),
            value < bound,
    {
        let threshold = 0u64.wrapping_sub(bound) % bound;
        let ghost start = self.state();
        let mut budget: u64 = MAX_REJECTIONS;
        loop
            invariant
                bound > 0,
                threshold == reject_below(bound),
                start == old(self).state(),
                draw_below(start, bound, MAX_REJECTIONS as nat) == draw_below(self.state(), bound, budget as nat),
            decreases budget,
        {
            let ghost before = self.state();
            let value = self.next_u64();
            if value >= threshold || budget == 0 {
                proof {
                    assert(draw_below(before, bound, budget as nat) == (self.state(), (value % bound) as u64));
                    lemma_draw_in_range(start, bound, MAX_REJECTIONS as nat);
                }
                return value % bound;
            }
            assert(draw_below(before, bound, budget as nat) == draw_below(self.state(), bound, (budget - 1) as nat));
            budget = budget - 1;
        }
    }
}

/// How the benchmark picks keys.
#[derive(Debug, Clone, Copy, PartialEq, Eq, Structural)]
pub enum KeyOrder {
    /// Uniformly at random from the keyspace.
    Uniform,
    /// Every key in turn, starting over after the last.
    Sequential,
}

impl KeyOrder {
    /// The order as a lower-case word.
    pub fn as_str(&self) -> (text: &'static str)
        ensures
            text@ == match self {
                KeyOrder::Uniform => "uniform"@,
                KeyOrder::Sequential => "sequential"@,
            },
    {
        match self {
            KeyOrder::Uniform => "uniform",
            KeyOrder::Sequential => "sequential",
        }
    }
}

/// A GET is drawn when a draw below this many parts per million falls
/// under the workload's threshold.
pub const GET_RATIO_SCALE: u64 = 1_000_000;

/// The stream of requests a benchmark client sends.
pub struct Workload {
    keyspace: u64,
    value_size: usize,
    get_threshold: u64,
    key_order: KeyOrder,
    sequence: u64,
    rng: SplitMix64,
}

/// `d` padded on the left with zeros to eight characters.
pub open spec fn pad8(d: Seq<char>) -> Seq<char> {
    if d.len() >= 8 {
        d
    } else {
        Seq::new((8 - d.len()) as nat, |i: int| '0') + d
    }
}

/// The name of key number `n`: `key:` and `n` in at least eight digits.
pub open spec fn key_name(n: u64) -> Seq<char> {
    "key:"@ + pad8(decimal(n as nat))
}

/// A byte mapped onto the printable ASCII range `!` to `~`.
pub open spec fn printable(b: u8) -> u8 {
    (33 + b % 94) as u8
}

/// The eight little-endian bytes of `w`, each made printable.
pub open spec fn word_bytes(w: u64) -> Seq<u8> {
    Seq::new(8, |i: int| printable((w >> (8 * i) as u64) as u8))
}

/// The bytes of `words` draws from `state`, eight per draw, and the state after them.
pub open spec fn value_stream(state: u64, words: nat) -> (u64, Seq<u8>)
    decreases words,
{
    if words == 0 {
        (state, Seq::empty())
    } else {
        let prev = value_stream(state, (words - 1) as nat);
        let s = splitmix_step(prev.0);
        (s, prev.1 + word_bytes(fnv_mix(s)))
    }
}

/// The name of key number `n`.
pub fn key_text(n: u64) -> (key: String)
    ensures
        key@ == key_name(n),
{
    let digits = decimal_text(n);
    let len = digits.as_str().unicode_len();
    let mut key = owned("key:");
    let ghost prefix = key@;
    let mut pad: usize = len;
    while pad < 8
        invariant
            len == digits@.len(),
            len <= pad <= 8 || (pad == len && len > 8),
            key@ == prefix + Seq::new((pad - len) as nat, |i: int| '0'),
        decreases 8 - pad,
    {
        key.append("0");
        proof {
            reveal_strlit("0");
            assert(key@ =~= prefix + Seq::new((pad + 1 - len) as nat, |i: int| '0'));
        }
        pad = pad + 1;
    }
    key.append(digits.as_str());
    proof {
        if len >= 8 {
            assert(key@ =~= key_name(n));
        } else {
            assert(key@ =~= key_name(n));
        }
    }
    key
}

impl Workload {
    /// Keys are numbered below this.
    pub closed spec fn keyspace(&self) -> u64 {
        self.keyspace
    }

    /// Bytes per value.
    pub closed spec fn value_size(&self) -> usize {
        self.value_size
    }

    /// GETs are drawn when a draw below [`GET_RATIO_SCALE`] falls under this.
    pub closed spec fn get_threshold(&self) -> u64 {
        self.get_threshold
    }

    /// How keys are picked.
    pub closed spec fn order(&self) -> KeyOrder {
        self.key_order
    }

    /// The next key number in sequential order.
    pub closed spec fn sequence(&self) -> u64 {
        self.sequence
    }

    /// The state of the random generator.
    pub closed spec fn rng_state(&self) -> u64 {
        self.rng.state()
    }

    /// The sequential position lies in the keyspace, or is still at its start.
    pub closed spec fn wf(&self) -> bool {
        self.sequence == 0 || self.sequence < self.keyspace
    }

    /// A workload over `keyspace` keys with values of `value_size` bytes,
    /// GETs drawn under `get_threshold` parts per million, keys picked in
    /// `key_order`, and randomness seeded with `seed`.
    pub fn new(keyspace: u64, value_size: usize, get_threshold: u64, key_order: KeyOrder, seed: u64) -> (w: Self)
        ensures
            w.wf(),
            w.keyspace() == keyspace,
            w.value_size() == value_size,
            w.get_threshold() == get_threshold,
            w.order() == key_order,
            w.sequence() == 0,
            w.rng_state() == seed,
    {
        Workload { keyspace, value_size, get_threshold, key_order, sequence: 0, rng: SplitMix64::new(seed) }
    }

    /// The next key: uniformly drawn, or the next in turn.
    pub fn next_key(&mut self) -> (key: String)
        requires
            old(self).wf(),
            old(self).keyspace() > 0,
        ensures
            final(self).wf(),
            final(self).keyspace() == old(self).keyspace(),
            final(self).value_size() == old(self).value_size(),
            final(self).get_threshold() == old(self).get_threshold(),
            final(self).order() == old(self).order(),
            match old(self).order() {
                KeyOrder::Uniform => {
                    let d = draw_below(old(self).rng_state(), old(self).keyspace(), MAX_REJECTIONS as nat);
                    &&& key@ == key_name(d.1)
                    &&& final(self).rng_state() == d.0
                    &&& final(self).sequence() == old(self).sequence()
                },
                KeyOrder::Sequential => {
                    &&& key@ == key_name(old(self).sequence())
                    &&& final(self).sequence() == (old(self).sequence() + 1) % (old(self).keyspace() as int)
                    &&& final(self).rng_state() == old(self).rng_state()
                },
            },
    {
        match self.key_order {
            KeyOrder::Uniform => {
                let n = self.rng.below(self.keyspace);
                key_text(n)
            },
            KeyOrder::Sequential => {
                let key = key_text(self.sequence);
                self.sequence = (self.sequence + 1) % self.keyspace;
                key
            },
        }
    }

    /// The next value: `value_size` printable bytes from fresh random words.
    pub fn next_value(&mut self) -> (value: Vec<u8>)
        requires
            old(self).value_size() + 8 <= usize::MAX,
        ensures
            final(self).wf() == old(self).wf(),
            final(self).keyspace() == old(self).keyspace(),
            final(self).value_size() == old(self).value_size(),
            final(self).get_threshold() == old(self).get_threshold(),
            final(self).order() == old(self).order(),
            final(self).sequence() == old(self).sequence(),
            ({
                let words = ((old(self).value_size() + 7) / 8) as nat;
                let stream = value_stream(old(self).rng_state(), words);
                &&& value@ == stream.1.take(old(self).value_size() as int)
                &&& final(self).rng_state() == stream.0
            }),
    {
        let ghost start = self.rng.state();
        let size = self.value_size;
        let mut bytes: Vec<u8> = Vec::new();
        let ghost mut words: nat = 0;
        while bytes.len() < size
            invariant
                size == self.value_size,
                self.keyspace == old(self).keyspace,
                self.value_size == old(self).value_size,
                self.get_threshold == old(self).get_threshold,
                self.key_order == old(self).key_order,
                self.sequence == old(self).sequence,
                start == old(self).rng.state(),
                size + 8 <= usize::MAX,
                bytes@.len() == 8 * words,
                words > 0 ==> 8 * (words - 1) < size,
                value_stream(start, words) == (self.rng.state(), bytes@),
            decreases size + 8 - bytes@.len(),
        {
            let word = self.rng.next_u64();
            let ghost before = bytes@;
            let mut i: u64 = 0;
            while i < 8
                invariant
                    i <= 8,
                    bytes@.len() == before.len() + i,
                    bytes@ == before + word_bytes(word).take(i as int),
                decreases 8 - i,
            {
                let byte = #[verifier::truncate] ((word >> (8 * i)) as u8);
                bytes.push(33 + byte % 94);
                proof {
                    assert(word_bytes(word).take(i + 1) =~= word_bytes(word).take(i as int).push(printable(byte)));
                }
                i = i + 1;
            }
            proof {
                assert(word_bytes(word).take(8) =~= word_bytes(word));
                words = words + 1;
            }
        }
        proof {
            assert(words == (size + 7) / 8) by {
                if words == 0 {
                    assert(size == 0);
                } else {
                    assert(8 * (words - 1) < size <= 8 * words);
                }
            }
        }
        bytes.truncate(size);
        bytes
    }

    /// Whether the next request should be a GET.
    pub fn should_get(&mut self) -> (get: bool)
        ensures
            final(self).wf() == old(self).wf(),
            final(self).keyspace() == old(self).keyspace(),
            final(self).value_size() == old(self).value_size(),
            final(self).get_threshold() == old(self).get_threshold(),
            final(self).order() == old(self).order(),
            final(self).sequence() == old(self).sequence(),
            ({
                let d = draw_below(old(self).rng_state(), GET_RATIO_SCALE, MAX_REJECTIONS as nat);
                &&& get == (d.1 < old(self).get_threshold())
                &&& final(self).rng_state() == d.0
            }),
    {
        self.rng.below(GET_RATIO_SCALE) < self.get_threshold
    }
}

/// Every byte of a generated value is printable ASCII, so values never
/// break the line protocol.
pub proof fn lemma_values_printable(state: u64, words: nat)
    ensures
        forall|i: int| 0 <= i < value_stream(state, words).1.len() ==> 33 <= #[trigger] value_stream(state, words).1[i] <= 126,
        value_stream(state, words).1.len() == 8 * words,
    decreases words,
{
    if words > 0 {
        lemma_values_printable(state, (words - 1) as nat);
        let prev = value_stream(state, (words - 1) as nat);
        let s = splitmix_step(prev.0);
        let all = value_stream(state, words).1;
        assert forall|i: int| 0 <= i < all.len() implies 33 <= #[trigger] all[i] <= 126 by {
            if i >= prev.1.len() {
                assert(all[i] == word_bytes(fnv_mix(s))[i - prev.1.len()]);
            } else {
                assert(all[i] == prev.1[i]);
            }
        }
    }
}

/// A key number drawn for a uniform workload lies in the keyspace.
pub proof fn lemma_draw_in_range(state: u64, bound: u64, budget: nat)
    requires
        bound > 0,
    ensures
        draw_below(state, bound, budget).1 < bound,
    decreases budget,
{
    let s = splitmix_step(state);
    if !(fnv_mix(s) >= reject_below(bound) || budget == 0) {
        lemma_draw_in_range(s, bound, (budget - 1) as nat);
    }
}

/// A key name is ASCII and at most 24 bytes long.
pub proof fn lemma_key_name_bytes(n: u64)
    ensures
        is_ascii_chars(key_name(n)),
        encode_utf8(key_name(n)).len() == key_name(n).len(),
        key_name(n).len() <= 24,
{
    reveal_strlit("key:");
    crate::text::lemma_decimal_len(n as nat);
    crate::text::lemma_decimal_ascii(n as nat);
    let d = decimal(n as nat);
    let k = key_name(n);
    assert(is_ascii_chars("key:"@));
    assert(is_ascii_chars(pad8(d))) by {
        if d.len() < 8 {
            let z = Seq::new((8 - d.len()) as nat, |i: int| '0');
            assert(is_ascii_chars(z));
            assert forall|i: int| 0 <= i < pad8(d).len() implies '\0' <= #[trigger] pad8(d)[i] <= '\u{7f}' by {
                if i < z.len() {
                    assert(pad8(d)[i] == z[i]);
                } else {
                    assert(pad8(d)[i] == d[i - z.len()]);
                }
            }
        }
    }
    assert forall|i: int| 0 <= i < k.len() implies '\0' <= #[trigger] k[i] <= '\u{7f}' by {
        if i < 4 {
            assert(k[i] == "key:"@[i]);
        } else {
            assert(k[i] == pad8(d)[i - 4]);
        }
    }
    is_ascii_chars_encode_utf8(k);
}

/// How many of `requests` worker `index` of `clients` sends: an even
/// share, with one more for each of the first `requests % clients` workers.
pub open spec fn share_of(requests: u64, clients: u64, index: u64) -> int {
    requests as int / clients as int + if (index as int) < requests as int % clients as int {
        1int
    } else {
        0int
    }
}

/// The requests worker `index` of `clients` sends.
pub fn worker_requests(requests: u64, clients: u64, index: u64) -> (share: u64)
    requires
        clients > 0,
    ensures
        share == share_of(requests, clients, index),
{
    let base = requests / clients;
    let remainder = requests % clients;
    if index < remainder {
        assert(base < requests) by (nonlinear_arith)
            requires
                clients > 0,
                remainder == requests % clients,
                base == requests / clients,
                index < remainder,
        {
            assert(requests == clients * base + remainder);
        }
        base + 1
    } else {
        base
    }
}

/// The seed of worker `index`: the run's seed spread by the golden gamma.
pub fn worker_seed(seed: u64, index: u64) -> (s: u64)
    ensures
        s == seed.wrapping_mul(GOLDEN_GAMMA).wrapping_add(index),
{
    seed.wrapping_mul(GOLDEN_GAMMA).wrapping_add(index)
}

/// The shares of the first `k` workers.
pub open spec fn shares_total(requests: u64, clients: u64, k: nat) -> int
    decreases k,
{
    if k == 0 {
        0
    } else {
        shares_total(requests, clients, (k - 1) as nat) + share_of(requests, clients, (k - 1) as u64)
    }
}

/// The first `k` workers send `k` even shares and one more each while the
/// remainder lasts.
proof fn lemma_shares_prefix(requests: u64, clients: u64, k: nat)
    requires
        clients > 0,
        k <= clients,
    ensures
        shares_total(requests, clients, k) == k * (requests as int / clients as int) + if (k as int) < requests as int % clients as int {
            k as int
        } else {
            requests as int % clients as int
        },
    decreases k,
{
    assert(0 <= requests as int % clients as int) by (nonlinear_arith)
        requires
            clients > 0,
    ;
    if k > 0 {
        lemma_shares_prefix(requests, clients, (k - 1) as nat);
        let b = requests as int / clients as int;
        let r = requests as int % clients as int;
        assert(k * b == (k - 1) * b + b) by (nonlinear_arith);
        assert(((k - 1) as u64) as int == k - 1);
        assert(share_of(requests, clients, (k - 1) as u64) == b + if (k - 1) < r { 1int } else { 0int });
        assert(shares_total(requests, clients, k) == shares_total(requests, clients, (k - 1) as nat) + b + if (k - 1) < r { 1int } else { 0int });
        if k < r {
        } else if k - 1 < r {
            assert(k == r);
        } else {
        }
    } else {
        assert(k * (requests as int / clients as int) == 0) by (nonlinear_arith)
            requires
                k == 0,
        ;
    }
}

/// Every request goes to exactly one worker: the shares add up to the
/// requests.
pub proof fn lemma_shares_cover(requests: u64, clients: u64)
    requires
        clients > 0,
    ensures
        shares_total(requests, clients, clients as nat) == requests,
{
    lemma_shares_prefix(requests, clients, clients as nat);
    let b = requests as int / clients as int;
    let r = requests as int % clients as int;
    assert(requests == clients * b + r) by (nonlinear_arith)
        requires
            clients > 0,
            b == requests as int / clients as int,
            r == requests as int % clients as int,
    ;
    assert(r < clients) by (nonlinear_arith)
        requires
            clients > 0,
            r == requests as int % clients as int,
    ;
}

/// The sequence position after `j` keys were drawn in sequential order
/// from position `start` of a keyspace of `keyspace` keys.
pub open spec fn sequence_after(start: u64, keyspace: u64, j: nat) -> int
    decreases j,
{
    if j == 0 {
        start as int
    } else {
        (sequence_after(start, keyspace, (j - 1) as nat) + 1) % (keyspace as int)
    }
}

/// In sequential order the position moves on by one at each key, wrapping.
proof fn lemma_sequence_after(start: u64, keyspace: u64, j: nat)
    requires
        start < keyspace,
    ensures
        sequence_after(start, keyspace, j) == (start + j) % (keyspace as int),
    decreases j,
{
    let k = keyspace as int;
    if j == 0 {
        vstd::arithmetic::div_mod::lemma_small_mod(start as nat, keyspace as nat);
    } else {
        lemma_sequence_after(start, keyspace, (j - 1) as nat);
        let prev = sequence_after(start, keyspace, (j - 1) as nat);
        if k == 1 {
            vstd::arithmetic::div_mod::lemma_mod_bound(prev + 1, k);
            vstd::arithmetic::div_mod::lemma_mod_bound(start + j, k);
        } else {
            vstd::arithmetic::div_mod::lemma_add_mod_noop(start + j - 1, 1, k);
            vstd::arithmetic::div_mod::lemma_small_mod(1, keyspace as nat);
        }
    }
}

/// Whether position `i` is among the first `keyspace` positions drawn in
/// sequential order from `start`.
pub open spec fn visited(start: u64, keyspace: u64, i: int) -> bool {
    exists|j: nat| j < keyspace && #[trigger] sequence_after(start, keyspace, j) == i
}

/// Sequential order visits every key of the keyspace exactly once in any
/// `keyspace` keys in a row: the positions drawn are distinct, and each
/// position of the keyspace is among them.
pub proof fn lemma_sequential_pass(start: u64, keyspace: u64)
    requires
        start < keyspace,
    ensures
        forall|a: nat, b: nat| a < b < keyspace ==> #[trigger] sequence_after(start, keyspace, a) != #[trigger] sequence_after(start, keyspace, b),
        forall|i: int| 0 <= i < keyspace ==> #[trigger] visited(start, keyspace, i),
{
    let k = keyspace as int;
    assert forall|a: nat, b: nat| a < b < keyspace implies #[trigger] sequence_after(start, keyspace, a) != #[trigger] sequence_after(start, keyspace, b) by {
        lemma_sequence_after(start, keyspace, a);
        lemma_sequence_after(start, keyspace, b);
        vstd::arithmetic::div_mod::lemma_fundamental_div_mod(start + a, k);
        vstd::arithmetic::div_mod::lemma_fundamental_div_mod(start + b, k);
        vstd::arithmetic::div_mod::lemma_mod_bound(start + a, k);
        vstd::arithmetic::div_mod::lemma_mod_bound(start + b, k);
        let qa = (start + a) / k;
        let qb = (start + b) / k;
        if (start + a) % k == (start + b) % k {
            assert(k * qb - k * qa == b - a);
            assert(k * (qb - qa) == b - a) by (nonlinear_arith)
                requires
                    k * qb - k * qa == b - a,
            {
            }
            assert(false) by (nonlinear_arith)
                requires
                    k * (qb - qa) == b - a,
                    0 < b - a < k,
            {
            }
        }
    }
    assert forall|i: int| 0 <= i < keyspace implies #[trigger] visited(start, keyspace, i) by {
        let j: nat = (if i >= start { i - start } else { i + k - start }) as nat;
        lemma_sequence_after(start, keyspace, j);
        if i >= start {
            vstd::arithmetic::div_mod::lemma_small_mod(i as nat, keyspace as nat);
        } else {
            vstd::arithmetic::div_mod::lemma_mod_add_multiples_vanish(i, k);
            vstd::arithmetic::div_mod::lemma_small_mod(i as nat, keyspace as nat);
        }
        assert(sequence_after(start, keyspace, j) == i);
    }
}

} // verus!
