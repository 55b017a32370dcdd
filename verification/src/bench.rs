use vstd::prelude::*;
use crate::protocol::{is_digit, parse_u64, parse_u64_chars};
use crate::text::{char_is_space, chars_of, is_space, owned, str_equal};
use crate::latency::{BUCKET_BOUND_COUNT, Histogram, HistogramModel, recorded};
use crate::workload::KeyOrder;

verus! {

/// Which router the benchmark clients use.
#[derive(Debug, Clone, Copy, PartialEq, Eq, Structural)]
pub enum RouterKind {
    Consistent,
    Modulo,
}

/// The word that names a router.
pub open spec fn router_word(k: RouterKind) -> Seq<char> {
    match k {
        RouterKind::Consistent => "consistent"@,
        RouterKind::Modulo => "modulo"@,
    }
}

impl RouterKind {
    /// The router as a lower-case word.
    pub fn as_str(&self) -> (text: &'static str)
        ensures
            text@ == router_word(*self),
    {
        match self {
            RouterKind::Consistent => "consistent",
            RouterKind::Modulo => "modulo",
        }
    }
}

/// The benchmark's help text.
pub const USAGE: &'static str = "CacheX workload generator (M6)

Usage:
  cachex-bench --nodes HOST:PORT[,HOST:PORT...] [options]

Required:
  --nodes LIST          cluster nodes as a comma-separated host:port list

Options:
  --router KIND         consistent | modulo   (default: consistent)
  --vnodes N            virtual ring points per node (default: 100)
  --clients N           concurrent workers    (default: 1)
  --requests N          total requests        (default: 1000)
  --keys N              keyspace size         (default: 1000)
  --value-size BYTES    SET payload bytes     (default: 32)
  --get-ratio R         fraction of GETs in [0,1] (default: 0.5)
  --key-order ORDER     uniform | sequential  (default: uniform)
  --seed N              PRNG seed             (default: 0)
  --ttl SECS            TTL for SETs, 0=none  (default: 0)
  --output FILE         CSV results file      (default: bench-results.csv)
  --help                show this help";

/// The benchmark's help text.
pub fn usage() -> (text: &'static str)
    ensures
        text@ == USAGE@,
{
    USAGE
}

/// The benchmark's settings as read from its arguments. The GET ratio is
/// kept as the text given, to be read as a fraction by the caller.
#[derive(Debug, Clone, PartialEq, Eq)]
pub struct Config {
    pub nodes: Vec<String>,
    pub router: RouterKind,
    pub vnodes: usize,
    pub clients: usize,
    pub requests: u64,
    pub keys: u64,
    pub value_size: usize,
    pub get_ratio_text: Option<String>,
    pub key_order: KeyOrder,
    pub seed: u64,
    pub ttl: u64,
    pub output: String,
}

/// A [`Config`] as plain values.
pub struct ConfigModel {
    pub nodes: Seq<Seq<char>>,
    pub router: RouterKind,
    pub vnodes: usize,
    pub clients: usize,
    pub requests: u64,
    pub keys: u64,
    pub value_size: usize,
    pub get_ratio_text: Option<Seq<char>>,
    pub key_order: KeyOrder,
    pub seed: u64,
    pub ttl: u64,
    pub output: Seq<char>,
}

impl View for Config {
    type V = ConfigModel;

    open spec fn view(&self) -> ConfigModel {
        ConfigModel {
            nodes: self.nodes@.map_values(|s: String| s@),
            router: self.router,
            vnodes: self.vnodes,
            clients: self.clients,
            requests: self.requests,
            keys: self.keys,
            value_size: self.value_size,
            get_ratio_text: match self.get_ratio_text {
                Some(t) => Some(t@),
                None => None,
            },
            key_order: self.key_order,
            seed: self.seed,
            ttl: self.ttl,
            output: self.output@,
        }
    }
}

/// The settings before any argument is read.
pub open spec fn default_config() -> ConfigModel {
    ConfigModel {
        nodes: Seq::empty(),
        router: RouterKind::Consistent,
        vnodes: 100,
        clients: 1,
        requests: 1000,
        keys: 1000,
        value_size: 32,
        get_ratio_text: None,
        key_order: KeyOrder::Uniform,
        seed: 0,
        ttl: 0,
        output: "bench-results.csv"@,
    }
}

/// `s` without white space at its start.
pub open spec fn trim_start(s: Seq<char>) -> Seq<char>
    decreases s.len(),
{
    if s.len() > 0 && is_space(s[0]) {
        trim_start(s.drop_first())
    } else {
        s
    }
}

/// `s` without white space at its end.
pub open spec fn trim_end(s: Seq<char>) -> Seq<char>
    decreases s.len(),
{
    if s.len() > 0 && is_space(s.last()) {
        trim_end(s.drop_last())
    } else {
        s
    }
}

/// `s` without white space at either end (`str::trim`).
pub open spec fn trim(s: Seq<char>) -> Seq<char> {
    trim_end(trim_start(s))
}

/// The pieces of `s` between the copies of `c`, empty pieces included
/// (`str::split`).
pub open spec fn split_on(s: Seq<char>, c: char) -> Seq<Seq<char>>
    decreases s.len(),
{
    if s.len() == 0 {
        seq![Seq::empty()]
    } else {
        let rest = split_on(s.drop_last(), c);
        if s.last() == c {
            rest.push(Seq::empty())
        } else {
            rest.update(rest.len() - 1, rest.last().push(s.last()))
        }
    }
}

/// The node list of `--nodes`: the comma-separated pieces, trimmed, with
/// the empty ones dropped.
pub open spec fn node_list(value: Seq<char>) -> Seq<Seq<char>> {
    split_on(value, ',').map_values(|p: Seq<char>| trim(p)).filter(|p: Seq<char>| p.len() > 0)
}

/// `usize::from_str`.
pub open spec fn parse_usize(s: Seq<char>) -> Option<usize> {
    match parse_u64(s) {
        Some(v) => if v <= usize::MAX {
            Some(v as usize)
        } else {
            None
        },
        None => None,
    }
}

/// The error for a number flag whose value does not read.
pub open spec fn invalid_value(flag: Seq<char>, value: Seq<char>) -> Seq<char> {
    "invalid "@ + flag + " value `"@ + value + "`"@
}

/// `s` without one leading sign.
pub open spec fn without_sign(s: Seq<char>) -> Seq<char> {
    if s.len() > 0 && (s[0] == '+' || s[0] == '-') {
        s.drop_first()
    } else {
        s
    }
}

/// The index of the first character of `s` at or after `i` that is not a
/// decimal digit.
pub open spec fn digits_end(s: Seq<char>, i: int) -> int
    decreases s.len() - i,
{
    if 0 <= i < s.len() && is_digit(s[i]) {
        digits_end(s, i + 1)
    } else {
        i
    }
}

/// Whether `s` spells a word in any mix of cases, the word given as its
/// `lower` and its `upper` case letters.
pub open spec fn spells_ignoring_case(s: Seq<char>, lower: Seq<char>, upper: Seq<char>) -> bool {
    &&& s.len() == lower.len()
    &&& forall|i: int| 0 <= i < s.len() ==> s[i] == lower[i] || s[i] == upper[i]
}

/// Whether `e` is an exponent: `e` or `E`, an optional sign, and at least
/// one digit.
pub open spec fn exponent_part(e: Seq<char>) -> bool {
    &&& e.len() > 0
    &&& (e[0] == 'e' || e[0] == 'E')
    &&& without_sign(e.drop_first()).len() > 0
    &&& forall|i: int| 0 <= i < without_sign(e.drop_first()).len() ==> #[trigger] is_digit(without_sign(e.drop_first())[i])
}

/// Whether `u` is a decimal number: digits with at most one point among
/// them and at least one digit, then an optional exponent.
pub open spec fn decimal_number(u: Seq<char>) -> bool {
    let a = digits_end(u, 0);
    let dot = a < u.len() && u[a] == '.';
    let b = if dot { digits_end(u, a + 1) } else { a };
    let digit_count = if dot { b - 1 } else { b };
    digit_count > 0 && (b == u.len() || exponent_part(u.subrange(b, u.len() as int)))
}

/// Whether `f64::from_str` reads `s`: an optional sign, then `inf`,
/// `infinity` or `nan` in any case, or a decimal number.
pub open spec fn float_text(s: Seq<char>) -> bool {
    let u = without_sign(s);
    ||| spells_ignoring_case(u, seq!['i', 'n', 'f'], seq!['I', 'N', 'F'])
    ||| spells_ignoring_case(u, seq!['i', 'n', 'f', 'i', 'n', 'i', 't', 'y'], seq!['I', 'N', 'F', 'I', 'N', 'I', 'T', 'Y'])
    ||| spells_ignoring_case(u, seq!['n', 'a', 'n'], seq!['N', 'A', 'N'])
    ||| decimal_number(u)
}

/// The settings after `flag` was given `value`, or the error it causes.
pub open spec fn apply_flag(m: ConfigModel, flag: Seq<char>, value: Seq<char>) -> Result<ConfigModel, Seq<char>> {
    if flag == "--nodes"@ {
        Ok(ConfigModel { nodes: node_list(value), ..m })
    } else if flag == "--router"@ {
        if value == "consistent"@ {
            Ok(ConfigModel { router: RouterKind::Consistent, ..m })
        } else if value == "modulo"@ {
            Ok(ConfigModel { router: RouterKind::Modulo, ..m })
        } else {
            Err("unknown router `"@ + value + "` (expected `consistent` or `modulo`)"@)
        }
    } else if flag == "--vnodes"@ {
        match parse_usize(value) {
            Some(v) => Ok(ConfigModel { vnodes: v, ..m }),
            None => Err(invalid_value(flag, value)),
        }
    } else if flag == "--clients"@ {
        match parse_usize(value) {
            Some(v) => Ok(ConfigModel { clients: v, ..m }),
            None => Err(invalid_value(flag, value)),
        }
    } else if flag == "--requests"@ {
        match parse_u64(value) {
            Some(v) => Ok(ConfigModel { requests: v, ..m }),
            None => Err(invalid_value(flag, value)),
        }
    } else if flag == "--keys"@ {
        match parse_u64(value) {
            Some(v) => Ok(ConfigModel { keys: v, ..m }),
            None => Err(invalid_value(flag, value)),
        }
    } else if flag == "--value-size"@ {
        match parse_usize(value) {
            Some(v) => Ok(ConfigModel { value_size: v, ..m }),
            None => Err(invalid_value(flag, value)),
        }
    } else if flag == "--get-ratio"@ {
        if float_text(value) {
            Ok(ConfigModel { get_ratio_text: Some(value), ..m })
        } else {
            Err(invalid_value(flag, value))
        }
    } else if flag == "--key-order"@ {
        if value == "uniform"@ {
            Ok(ConfigModel { key_order: KeyOrder::Uniform, ..m })
        } else if value == "sequential"@ {
            Ok(ConfigModel { key_order: KeyOrder::Sequential, ..m })
        } else {
            Err("unknown key order `"@ + value + "` (expected `uniform` or `sequential`)"@)
        }
    } else if flag == "--seed"@ {
        match parse_u64(value) {
            Some(v) => Ok(ConfigModel { seed: v, ..m }),
            None => Err(invalid_value(flag, value)),
        }
    } else if flag == "--ttl"@ {
        match parse_u64(value) {
            Some(v) => Ok(ConfigModel { ttl: v, ..m }),
            None => Err(invalid_value(flag, value)),
        }
    } else if flag == "--output"@ {
        Ok(ConfigModel { output: value, ..m })
    } else {
        Err("unknown flag `"@ + flag + "` (see --help)"@)
    }
}

/// Reads `args` as flag and value pairs, in order, from the settings `m`.
pub open spec fn apply_flags(m: ConfigModel, args: Seq<Seq<char>>) -> Result<ConfigModel, Seq<char>>
    decreases args.len(),
{
    if args.len() == 0 {
        Ok(m)
    } else if args.len() == 1 {
        Err("missing value for `"@ + args[0] + "`"@)
    } else {
        match apply_flag(m, args[0], args[1]) {
            Ok(next) => apply_flags(next, args.skip(2)),
            Err(e) => Err(e),
        }
    }
}

/// The checks made once every flag is read.
pub open spec fn checked(m: ConfigModel) -> Result<ConfigModel, Seq<char>> {
    if m.nodes.len() == 0 {
        Err("`--nodes` is required: comma-separated host:port addresses"@)
    } else if m.clients == 0 {
        Err("`--clients` must be >= 1"@)
    } else if m.requests == 0 {
        Err("`--requests` must be >= 1"@)
    } else if m.keys == 0 {
        Err("`--keys` must be >= 1"@)
    } else if m.value_size == 0 {
        Err("`--value-size` must be >= 1"@)
    } else {
        Ok(m)
    }
}

/// The settings `args` give, or the first error met.
pub open spec fn parse_config(args: Seq<Seq<char>>) -> Result<ConfigModel, Seq<char>> {
    match apply_flags(default_config(), args) {
        Ok(m) => checked(m),
        Err(e) => Err(e),
    }
}

/// Where the run of digits of `u` from `i` ends.
fn digits_end_at(u: &Vec<char>, i: usize) -> (end: usize)
    requires
        i <= u@.len(),
    ensures
        end == digits_end(u@, i as int),
        i <= end <= u@.len(),
{
    let mut k = i;
    while k < u.len() && '0' <= u[k] && u[k] <= '9'
        invariant
            i <= k <= u@.len(),
            digits_end(u@, i as int) == digits_end(u@, k as int),
        decreases u@.len() - k,
    {
        k = k + 1;
    }
    k
}

/// Whether `u` spells a word in any mix of cases (see
/// [`spells_ignoring_case`]).
fn spells_word(u: &Vec<char>, lower: &Vec<char>, upper: &Vec<char>) -> (b: bool)
    requires
        lower@.len() == upper@.len(),
    ensures
        b == spells_ignoring_case(u@, lower@, upper@),
{
    if u.len() != lower.len() {
        return false;
    }
    let mut i: usize = 0;
    while i < u.len()
        invariant
            i <= u@.len() == lower@.len() == upper@.len(),
            forall|j: int| 0 <= j < i ==> #[trigger] u@[j] == lower@[j] || u@[j] == upper@[j],
        decreases u@.len() - i,
    {
        if !(u[i] == lower[i] || u[i] == upper[i]) {
            return false;
        }
        i = i + 1;
    }
    true
}

/// Whether `u[from..]` is an exponent.
fn exponent_at(u: &Vec<char>, from: usize) -> (b: bool)
    requires
        from <= u@.len(),
    ensures
        b == exponent_part(u@.subrange(from as int, u@.len() as int)),
{
    let ghost e = u@.subrange(from as int, u@.len() as int);
    let n = u.len();
    if from >= n || !(u[from] == 'e' || u[from] == 'E') {
        return false;
    }
    let mut k = from + 1;
    if k < n && (u[k] == '+' || u[k] == '-') {
        k = k + 1;
    }
    let ghost d = u@.subrange(k as int, n as int);
    assert(e[0] == u@[from as int]);
    assert(without_sign(e.drop_first()) =~= d);
    if k >= n {
        return false;
    }
    let mut j = k;
    while j < n
        invariant
            k <= j <= n == u@.len(),
            d == u@.subrange(k as int, n as int),
            without_sign(e.drop_first()) == d,
            e == u@.subrange(from as int, n as int),
            e.len() > 0,
            e[0] == 'e' || e[0] == 'E',
            forall|i: int| 0 <= i < j - k ==> #[trigger] is_digit(d[i]),
        decreases n - j,
    {
        if !('0' <= u[j] && u[j] <= '9') {
            assert(!is_digit(d[j - k]));
            assert(!is_digit(without_sign(e.drop_first())[j - k]));
            return false;
        }
        j = j + 1;
    }
    true
}

/// Whether `f64::from_str` reads `text` (see [`float_text`]).
pub fn is_float_text(text: &str) -> (b: bool)
    ensures
        b == float_text(text@),
{
    let chars = chars_of(text);
    let mut u: Vec<char> = Vec::new();
    let mut i: usize = if chars.len() > 0 && (chars[0] == '+' || chars[0] == '-') { 1 } else { 0 };
    let start = i;
    while i < chars.len()
        invariant
            start <= i <= chars@.len(),
            u@ == chars@.subrange(start as int, i as int),
        decreases chars@.len() - i,
    {
        u.push(chars[i]);
        i = i + 1;
    }
    assert(u@ =~= without_sign(text@));
    let inf_lower = vec!['i', 'n', 'f'];
    let inf_upper = vec!['I', 'N', 'F'];
    assert(inf_lower@ =~= seq!['i', 'n', 'f'] && inf_upper@ =~= seq!['I', 'N', 'F']);
    if spells_word(&u, &inf_lower, &inf_upper) {
        return true;
    }
    let infinity_lower = vec!['i', 'n', 'f', 'i', 'n', 'i', 't', 'y'];
    let infinity_upper = vec!['I', 'N', 'F', 'I', 'N', 'I', 'T', 'Y'];
    assert(infinity_lower@ =~= seq!['i', 'n', 'f', 'i', 'n', 'i', 't', 'y']);
    assert(infinity_upper@ =~= seq!['I', 'N', 'F', 'I', 'N', 'I', 'T', 'Y']);
    if spells_word(&u, &infinity_lower, &infinity_upper) {
        return true;
    }
    let nan_lower = vec!['n', 'a', 'n'];
    let nan_upper = vec!['N', 'A', 'N'];
    assert(nan_lower@ =~= seq!['n', 'a', 'n'] && nan_upper@ =~= seq!['N', 'A', 'N']);
    if spells_word(&u, &nan_lower, &nan_upper) {
        return true;
    }
    let a = digits_end_at(&u, 0);
    let dot = a < u.len() && u[a] == '.';
    let b = if dot { digits_end_at(&u, a + 1) } else { a };
    let digit_count = if dot { b - 1 } else { b };
    if digit_count == 0 {
        return false;
    }
    b == u.len() || exponent_at(&u, b)
}

/// A router's word reads back as that router: `--router` given the word
/// selects it, so the arguments `--nodes NODES --router WORD` give the
/// default settings with those nodes and that router.
pub proof fn lemma_router_word_parses(k: RouterKind, nodes: Seq<char>)
    requires
        node_list(nodes).len() > 0,
    ensures
        parse_config(seq!["--nodes"@, nodes, "--router"@, router_word(k)]) == Result::<ConfigModel, Seq<char>>::Ok(
            ConfigModel { nodes: node_list(nodes), router: k, ..default_config() },
        ),
{
    reveal_strlit("--nodes");
    reveal_strlit("--router");
    reveal_strlit("consistent");
    reveal_strlit("modulo");
    let args = seq!["--nodes"@, nodes, "--router"@, router_word(k)];
    let m1 = ConfigModel { nodes: node_list(nodes), ..default_config() };
    let m2 = ConfigModel { nodes: node_list(nodes), router: k, ..default_config() };
    assert("--router"@ != "--nodes"@) by {
        assert("--router"@[2] != "--nodes"@[2]);
    }
    assert("modulo"@ != "consistent"@) by {
        assert("modulo"@.len() != "consistent"@.len());
    }
    assert(apply_flag(default_config(), "--nodes"@, nodes) == Result::<ConfigModel, Seq<char>>::Ok(m1));
    assert(apply_flag(m1, "--router"@, router_word(k)) == Result::<ConfigModel, Seq<char>>::Ok(m2));
    assert(args.skip(2) =~= seq!["--router"@, router_word(k)]);
    assert(args.skip(2).skip(2) =~= Seq::<Seq<char>>::empty());
    reveal_with_fuel(apply_flags, 3);
    assert(apply_flags(default_config(), args) == Result::<ConfigModel, Seq<char>>::Ok(m2));
}

/// The range `chars[from..to]` without white space at its ends.
fn trimmed_range(chars: &Vec<char>, from: usize, to: usize) -> (range: (usize, usize))
    requires
        from <= to <= chars@.len(),
    ensures
        from <= range.0 <= range.1 <= to,
        chars@.subrange(range.0 as int, range.1 as int) == trim(chars@.subrange(from as int, to as int)),
{
    let mut i = from;
    while i < to && char_is_space(chars[i])
        invariant
            from <= i <= to <= chars@.len(),
            trim_start(chars@.subrange(from as int, to as int)) == trim_start(chars@.subrange(i as int, to as int)),
        decreases to - i,
    {
        assert(chars@.subrange(i as int, to as int).drop_first() =~= chars@.subrange(i + 1, to as int));
        i = i + 1;
    }
    let mut j = to;
    while j > i && char_is_space(chars[j - 1])
        invariant
            from <= i <= j <= to <= chars@.len(),
            trim_end(chars@.subrange(i as int, to as int)) == trim_end(chars@.subrange(i as int, j as int)),
        decreases j,
    {
        assert(chars@.subrange(i as int, j as int).drop_last() =~= chars@.subrange(i as int, j - 1));
        j = j - 1;
    }
    (i, j)
}

/// The nodes a `--nodes` value lists.
fn parse_node_list(value: &str) -> (nodes: Vec<String>)
    ensures
        nodes@.map_values(|s: String| s@) == node_list(value@),
{
    let chars = chars_of(value);
    let n = chars.len();
    let ghost pieces_fn = |p: Seq<char>| trim(p);
    let ghost keep = |p: Seq<char>| p.len() > 0;
    let mut nodes: Vec<String> = Vec::new();
    let mut start: usize = 0;
    let mut i: usize = 0;
    let ghost mut done: Seq<Seq<char>> = Seq::empty();
    assert(chars@.take(0) =~= Seq::<char>::empty());
    assert(split_on(chars@.take(0), ',') =~= seq![Seq::<char>::empty()]);
    while i < n
        invariant
            n == chars@.len(),
            chars@ == value@,
            start <= i <= n,
            split_on(chars@.take(i as int), ',') == done.push(chars@.subrange(start as int, i as int)),
            nodes@.map_values(|s: String| s@) == done.map_values(pieces_fn).filter(keep),
            pieces_fn == (|p: Seq<char>| trim(p)),
            keep == (|p: Seq<char>| p.len() > 0),
        decreases n - i,
    {
        assert(chars@.take(i + 1).drop_last() =~= chars@.take(i as int));
        assert(chars@.take(i + 1).last() == chars@[i as int]);
        if chars[i] == ',' {
            let r = trimmed_range(&chars, start, i);
            let ghost piece = chars@.subrange(start as int, i as int);
            let ghost before = nodes@.map_values(|s: String| s@);
            if r.0 < r.1 {
                nodes.push(owned(value.substring_char(r.0, r.1)));
                proof {
                    assert(nodes@.map_values(|s: String| s@) =~= before.push(trim(piece)));
                }
            } else {
                proof {
                    assert(trim(piece).len() == 0);
                }
            }
            proof {
                done.map_values(pieces_fn).lemma_filter_push(trim(piece), keep);
                assert(done.push(piece).map_values(pieces_fn) =~= done.map_values(pieces_fn).push(trim(piece)));
                done = done.push(piece);
                assert(chars@.subrange(i + 1, i + 1) =~= Seq::<char>::empty());
            }
            start = i + 1;
        } else {
            proof {
                assert(chars@.subrange(start as int, i + 1) =~= chars@.subrange(start as int, i as int).push(chars@[i as int]));
                assert(split_on(chars@.take(i + 1), ',') =~= done.push(chars@.subrange(start as int, i + 1)));
            }
        }
        i = i + 1;
    }
    let r = trimmed_range(&chars, start, n);
    let ghost piece = chars@.subrange(start as int, n as int);
    let ghost before = nodes@.map_values(|s: String| s@);
    if r.0 < r.1 {
        nodes.push(owned(value.substring_char(r.0, r.1)));
        proof {
            assert(nodes@.map_values(|s: String| s@) =~= before.push(trim(piece)));
        }
    }
    proof {
        done.map_values(pieces_fn).lemma_filter_push(trim(piece), keep);
        assert(done.push(piece).map_values(pieces_fn) =~= done.map_values(pieces_fn).push(trim(piece)));
        assert(chars@.take(n as int) =~= chars@);
    }
    nodes
}

/// Reads a whole argument as a `u64`.
fn parse_u64_text(value: &str) -> (v: Option<u64>)
    ensures
        v == parse_u64(value@),
{
    let chars = chars_of(value);
    assert(chars@.subrange(0, chars@.len() as int) =~= value@);
    parse_u64_chars(&chars, 0, chars.len())
}

/// Reads a whole argument as a `usize`.
fn parse_usize_text(value: &str) -> (v: Option<usize>)
    ensures
        v == parse_usize(value@),
{
    match parse_u64_text(value) {
        Some(v) => if v <= usize::MAX as u64 {
            Some(v as usize)
        } else {
            None
        },
        None => None,
    }
}

/// The error for a number flag whose value does not read.
fn invalid_value_text(flag: &str, value: &str) -> (message: String)
    ensures
        message@ == invalid_value(flag@, value@),
{
    let mut message = owned("invalid ");
    message.append(flag);
    message.append(" value `");
    message.append(value);
    message.append("`");
    message
}

impl Config {
    /// The settings as plain values.
    pub closed spec fn model(&self) -> ConfigModel {
        self@
    }

    /// Reads the benchmark's arguments: flag and value pairs, then the
    /// checks on the result. The first error met is returned.
    pub fn parse(args: &[String]) -> (parsed: Result<Config, String>)
        ensures
            match parsed {
                Ok(c) => parse_config(args@.map_values(|s: String| s@)) == Result::<ConfigModel, Seq<char>>::Ok(c@),
                Err(e) => parse_config(args@.map_values(|s: String| s@)) == Result::<ConfigModel, Seq<char>>::Err(e@),
            },
    {
        let ghost all = args@.map_values(|s: String| s@);
        let mut config = Config {
            nodes: Vec::new(),
            router: RouterKind::Consistent,
            vnodes: 100,
            clients: 1,
            requests: 1000,
            keys: 1000,
            value_size: 32,
            get_ratio_text: None,
            key_order: KeyOrder::Uniform,
            seed: 0,
            ttl: 0,
            output: owned("bench-results.csv"),
        };
        assert(config@ == default_config()) by {
            assert(config@.nodes =~= Seq::<Seq<char>>::empty());
        }
        let mut i: usize = 0;
        assert(all.skip(0) =~= all);
        while i < args.len()
            invariant
                i <= args@.len(),
                all == args@.map_values(|s: String| s@),
                apply_flags(default_config(), all) == apply_flags(config@, all.skip(i as int)),
            decreases args@.len() - i,
        {
            let flag = args[i].as_str();
            if i + 1 >= args.len() {
                let mut message = owned("missing value for `");
                message.append(flag);
                message.append("`");
                proof {
                    assert(all.skip(i as int).len() == 1);
                    assert(all.skip(i as int)[0] == flag@);
                }
                return Err(message);
            }
            let value = args[i + 1].as_str();
            proof {
                assert(all.skip(i as int)[0] == flag@);
                assert(all.skip(i as int)[1] == value@);
                assert(all.skip(i as int).skip(2) =~= all.skip(i + 2));
            }
            match Self::apply(config, flag, value) {
                Ok(next) => {
                    config = next;
                },
                Err(e) => {
                    return Err(e);
                },
            }
            i = i + 2;
        }
        assert(all.skip(i as int) =~= Seq::<Seq<char>>::empty());
        if config.nodes.len() == 0 {
            return Err(owned("`--nodes` is required: comma-separated host:port addresses"));
        }
        if config.clients == 0 {
            return Err(owned("`--clients` must be >= 1"));
        }
        if config.requests == 0 {
            return Err(owned("`--requests` must be >= 1"));
        }
        if config.keys == 0 {
            return Err(owned("`--keys` must be >= 1"));
        }
        if config.value_size == 0 {
            return Err(owned("`--value-size` must be >= 1"));
        }
        Ok(config)
    }

    /// Applies one flag and its value.
    fn apply(config: Config, flag: &str, value: &str) -> (next: Result<Config, String>)
        ensures
            match next {
                Ok(c) => apply_flag(config@, flag@, value@) == Result::<ConfigModel, Seq<char>>::Ok(c@),
                Err(e) => apply_flag(config@, flag@, value@) == Result::<ConfigModel, Seq<char>>::Err(e@),
            },
    {
        let mut config = config;
        if str_equal(flag, "--nodes") {
            config.nodes = parse_node_list(value);
            return Ok(config);
        }
        if str_equal(flag, "--router") {
            if str_equal(value, "consistent") {
                config.router = RouterKind::Consistent;
                return Ok(config);
            } else if str_equal(value, "modulo") {
                config.router = RouterKind::Modulo;
                return Ok(config);
            } else {
                let mut message = owned("unknown router `");
                message.append(value);
                message.append("` (expected `consistent` or `modulo`)");
                return Err(message);
            }
        }
        if str_equal(flag, "--vnodes") {
            return match parse_usize_text(value) {
                Some(v) => {
                    config.vnodes = v;
                    Ok(config)
                },
                None => Err(invalid_value_text(flag, value)),
            };
        }
        if str_equal(flag, "--clients") {
            return match parse_usize_text(value) {
                Some(v) => {
                    config.clients = v;
                    Ok(config)
                },
                None => Err(invalid_value_text(flag, value)),
            };
        }
        if str_equal(flag, "--requests") {
            return match parse_u64_text(value) {
                Some(v) => {
                    config.requests = v;
                    Ok(config)
                },
                None => Err(invalid_value_text(flag, value)),
            };
        }
        if str_equal(flag, "--keys") {
            return match parse_u64_text(value) {
                Some(v) => {
                    config.keys = v;
                    Ok(config)
                },
                None => Err(invalid_value_text(flag, value)),
            };
        }
        if str_equal(flag, "--value-size") {
            return match parse_usize_text(value) {
                Some(v) => {
                    config.value_size = v;
                    Ok(config)
                },
                None => Err(invalid_value_text(flag, value)),
            };
        }
        if str_equal(flag, "--get-ratio") {
            if !is_float_text(value) {
                return Err(invalid_value_text(flag, value));
            }
            config.get_ratio_text = Some(owned(value));
            return Ok(config);
        }
        if str_equal(flag, "--key-order") {
            if str_equal(value, "uniform") {
                config.key_order = KeyOrder::Uniform;
                return Ok(config);
            } else if str_equal(value, "sequential") {
                config.key_order = KeyOrder::Sequential;
                return Ok(config);
            } else {
                let mut message = owned("unknown key order `");
                message.append(value);
                message.append("` (expected `uniform` or `sequential`)");
                return Err(message);
            }
        }
        if str_equal(flag, "--seed") {
            return match parse_u64_text(value) {
                Some(v) => {
                    config.seed = v;
                    Ok(config)
                },
                None => Err(invalid_value_text(flag, value)),
            };
        }
        if str_equal(flag, "--ttl") {
            return match parse_u64_text(value) {
                Some(v) => {
                    config.ttl = v;
                    Ok(config)
                },
                None => Err(invalid_value_text(flag, value)),
            };
        }
        if str_equal(flag, "--output") {
            config.output = owned(value);
            return Ok(config);
        }
        let mut message = owned("unknown flag `");
        message.append(flag);
        message.append("` (see --help)");
        Err(message)
    }
}

/// How a benchmark GET ended.
#[derive(Debug, Clone, Copy, PartialEq, Eq, Structural)]
pub enum GetOutcome {
    /// The key was found.
    Hit,
    /// The key was not stored.
    Miss,
    /// The request failed.
    Failed,
}

/// The request counters of a benchmark run.
pub struct BenchCounts {
    pub gets: u64,
    pub sets: u64,
    pub hits: u64,
    pub misses: u64,
    pub errors: u64,
}

/// What the benchmark workers observed: requests by kind and result, and
/// their latencies. The counters wrap.
pub struct BenchStats {
    histogram: Histogram,
    gets: u64,
    sets: u64,
    hits: u64,
    misses: u64,
    errors: u64,
}

impl BenchStats {
    /// The request counters.
    pub closed spec fn counts(&self) -> BenchCounts {
        BenchCounts { gets: self.gets, sets: self.sets, hits: self.hits, misses: self.misses, errors: self.errors }
    }

    /// The latencies recorded.
    pub closed spec fn latencies(&self) -> HistogramModel {
        self.histogram@
    }

    /// The latency histogram is well formed.
    pub closed spec fn wf(&self) -> bool {
        self.histogram.wf()
    }

    /// Nothing observed yet.
    pub fn new() -> (stats: Self)
        ensures
            stats.wf(),
            stats.counts() == (BenchCounts { gets: 0, sets: 0, hits: 0, misses: 0, errors: 0 }),
            stats.latencies().buckets == Seq::new((BUCKET_BOUND_COUNT + 1) as nat, |i: int| 0u64),
            stats.latencies().count == 0,
            stats.latencies().sum_us == 0,
            stats.latencies().max_us == 0,
    {
        BenchStats { histogram: Histogram::new(), gets: 0, sets: 0, hits: 0, misses: 0, errors: 0 }
    }

    /// Counts a GET that ended with `outcome` after `us` microseconds.
    pub fn record_get(&mut self, outcome: GetOutcome, us: u64)
        requires
            old(self).wf(),
        ensures
            final(self).wf(),
            final(self).latencies() == recorded(old(self).latencies(), us),
            final(self).counts() == (BenchCounts {
                gets: old(self).counts().gets.wrapping_add(1),
                hits: if outcome == GetOutcome::Hit { old(self).counts().hits.wrapping_add(1) } else { old(self).counts().hits },
                misses: if outcome == GetOutcome::Miss { old(self).counts().misses.wrapping_add(1) } else { old(self).counts().misses },
                errors: if outcome == GetOutcome::Failed { old(self).counts().errors.wrapping_add(1) } else { old(self).counts().errors },
                ..old(self).counts()
            }),
    {
        self.gets = self.gets.wrapping_add(1);
        match outcome {
            GetOutcome::Hit => {
                self.hits = self.hits.wrapping_add(1);
            },
            GetOutcome::Miss => {
                self.misses = self.misses.wrapping_add(1);
            },
            GetOutcome::Failed => {
                self.errors = self.errors.wrapping_add(1);
            },
        }
        self.histogram.record_us(us);
    }

    /// Counts a SET that succeeded or not after `us` microseconds.
    pub fn record_set(&mut self, succeeded: bool, us: u64)
        requires
            old(self).wf(),
        ensures
            final(self).wf(),
            final(self).latencies() == recorded(old(self).latencies(), us),
            final(self).counts() == (BenchCounts {
                sets: old(self).counts().sets.wrapping_add(1),
                errors: if succeeded { old(self).counts().errors } else { old(self).counts().errors.wrapping_add(1) },
                ..old(self).counts()
            }),
    {
        self.sets = self.sets.wrapping_add(1);
        if !succeeded {
            self.errors = self.errors.wrapping_add(1);
        }
        self.histogram.record_us(us);
    }

    /// GETs sent.
    pub fn gets(&self) -> (n: u64)
        ensures
            n == self.counts().gets,
    {
        self.gets
    }

    /// SETs sent.
    pub fn sets(&self) -> (n: u64)
        ensures
            n == self.counts().sets,
    {
        self.sets
    }

    /// GETs that found their key.
    pub fn hits(&self) -> (n: u64)
        ensures
            n == self.counts().hits,
    {
        self.hits
    }

    /// GETs that did not.
    pub fn misses(&self) -> (n: u64)
        ensures
            n == self.counts().misses,
    {
        self.misses
    }

    /// Requests that failed.
    pub fn errors(&self) -> (n: u64)
        ensures
            n == self.counts().errors,
    {
        self.errors
    }

    /// The latencies recorded.
    pub fn latency(&self) -> (h: &Histogram)
        ensures
            h@ == self.latencies(),
            h.wf() == self.wf(),
    {
        &self.histogram
    }
}

} // verus!
