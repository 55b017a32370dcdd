use vstd::prelude::*;
use crate::protocol::{parse_u64, parse_u64_chars};
use crate::text::{chars_of, decimal, decimal_text, owned};

verus! {

/// A message between nodes on the internal port.
#[derive(Debug, Clone, PartialEq, Eq)]
pub enum InternalMessage {
    /// A liveness probe.
    Ping,
    /// A replicated write.
    Upsert { key: String, value: Vec<u8>, ttl: Option<u64> },
    /// A replicated delete.
    Delete { key: String },
}

/// The answer to an [`InternalMessage`].
#[derive(Debug, Clone, PartialEq, Eq)]
pub enum InternalResponse {
    Pong,
    Okay,
    Error(String),
}

/// How far a node's internal port lies above its public port.
pub const INTERNAL_PORT_OFFSET: u16 = 1000;

/// The largest internal message accepted, in bytes: 16 MiB.
pub const MAX_INTERNAL_MSG_BYTES: usize = 16_777_216;

/// The index of the last `:` in `s`, if any.
pub open spec fn last_colon(s: Seq<char>) -> Option<int>
    decreases s.len(),
{
    if s.len() == 0 {
        None
    } else if s.last() == ':' {
        Some(s.len() - 1)
    } else {
        last_colon(s.drop_last())
    }
}

/// `u16::from_str`.
pub open spec fn parse_u16(s: Seq<char>) -> Option<u16> {
    match parse_u64(s) {
        Some(v) => if v <= u16::MAX {
            Some(v as u16)
        } else {
            None
        },
        None => None,
    }
}

/// The port after the last `:` of `public`, when it reads as a `u16`.
pub open spec fn public_port_of(public: Seq<char>) -> Option<u16> {
    match last_colon(public) {
        Some(i) => parse_u16(public.skip(i + 1)),
        None => None,
    }
}

/// The internal address of the node at `public`: the same host with the
/// port moved up by [`INTERNAL_PORT_OFFSET`]; an address without a readable
/// port is kept as it is.
pub open spec fn internal_address_of(public: Seq<char>) -> Seq<char> {
    match (last_colon(public), public_port_of(public)) {
        (Some(i), Some(p)) => public.take(i) + ":"@ + decimal((p + INTERNAL_PORT_OFFSET) as nat),
        _ => public,
    }
}

/// The last `:` is at `i`: it is a colon and none follows.
proof fn lemma_last_colon_at(s: Seq<char>, i: int)
    requires
        0 <= i < s.len(),
        s[i] == ':',
        forall|k: int| i < k < s.len() ==> #[trigger] s[k] != ':',
    ensures
        last_colon(s) == Some(i),
    decreases s.len(),
{
    if i < s.len() - 1 {
        assert(s.drop_last()[i] == s[i]);
        assert forall|k: int| i < k < s.drop_last().len() implies #[trigger] s.drop_last()[k] != ':' by {
            assert(s.drop_last()[k] == s[k]);
        }
        lemma_last_colon_at(s.drop_last(), i);
    }
}

/// No `:` in `s`.
proof fn lemma_no_colon(s: Seq<char>)
    requires
        forall|k: int| 0 <= k < s.len() ==> #[trigger] s[k] != ':',
    ensures
        last_colon(s) is None,
    decreases s.len(),
{
    if s.len() > 0 {
        assert forall|k: int| 0 <= k < s.drop_last().len() implies #[trigger] s.drop_last()[k] != ':' by {
            assert(s.drop_last()[k] == s[k]);
        }
        lemma_no_colon(s.drop_last());
    }
}

/// The port after the last `:` of `public`, when it reads as a `u16`.
pub fn public_port(public: &str) -> (port: Option<u16>)
    ensures
        port == public_port_of(public@),
{
    let chars = chars_of(public);
    let n = chars.len();
    let mut i = n;
    while i > 0 && chars[i - 1] != ':'
        invariant
            i <= n == chars@.len(),
            forall|k: int| i <= k < n ==> #[trigger] chars@[k] != ':',
        decreases i,
    {
        i = i - 1;
    }
    if i == 0 {
        proof {
            lemma_no_colon(public@);
        }
        return None;
    }
    let colon = i - 1;
    proof {
        lemma_last_colon_at(public@, colon as int);
    }
    let port = parse_u64_chars(&chars, colon + 1, n);
    assert(chars@.subrange(colon + 1, n as int) =~= public@.skip(colon + 1));
    match port {
        Some(p) => if p <= 65535 {
            Some(p as u16)
        } else {
            None
        },
        None => None,
    }
}

/// Whether the internal port of the node at `public` fits in a `u16`; an
/// address without a readable port needs none.
pub fn internal_port_fits(public: &str) -> (fits: bool)
    ensures
        fits == match public_port_of(public@) {
            Some(p) => p + INTERNAL_PORT_OFFSET <= u16::MAX,
            None => true,
        },
{
    match public_port(public) {
        Some(p) => p <= u16::MAX - INTERNAL_PORT_OFFSET,
        None => true,
    }
}

/// The internal address of the node at `public`.
pub fn internal_address(public: &str) -> (address: String)
    requires
        match public_port_of(public@) {
            Some(p) => p + INTERNAL_PORT_OFFSET <= u16::MAX,
            None => true,
        },
    ensures
        address@ == internal_address_of(public@),
{
    let chars = chars_of(public);
    let n = chars.len();
    let mut i = n;
    while i > 0 && chars[i - 1] != ':'
        invariant
            i <= n == chars@.len(),
            forall|k: int| i <= k < n ==> #[trigger] chars@[k] != ':',
        decreases i,
    {
        i = i - 1;
    }
    if i == 0 {
        proof {
            lemma_no_colon(public@);
        }
        return owned(public);
    }
    let colon = i - 1;
    proof {
        lemma_last_colon_at(public@, colon as int);
    }
    let port = parse_u64_chars(&chars, colon + 1, n);
    assert(chars@.subrange(colon + 1, n as int) =~= public@.skip(colon + 1));
    match port {
        Some(p) => {
            if p <= 65535 {
                let mut address = owned(public.substring_char(0, colon));
                address.append(":");
                let moved = decimal_text(p + 1000);
                address.append(moved.as_str());
                assert(public@.subrange(0, colon as int) =~= public@.take(colon as int));
                address
            } else {
                owned(public)
            }
        },
        None => owned(public),
    }
}

/// Each node's public address paired with its internal address.
pub fn internal_map_for_cluster(nodes: &[String]) -> (map: Vec<(String, String)>)
    requires
        forall|i: int| 0 <= i < nodes@.len() ==> match public_port_of(#[trigger] nodes@[i]@) {
            Some(p) => p + INTERNAL_PORT_OFFSET <= u16::MAX,
            None => true,
        },
    ensures
        map@.len() == nodes@.len(),
        forall|i: int| 0 <= i < nodes@.len() ==> #[trigger] map@[i].0@ == nodes@[i]@ && map@[i].1@ == internal_address_of(nodes@[i]@),
{
    let mut map: Vec<(String, String)> = Vec::new();
    let mut i: usize = 0;
    while i < nodes.len()
        invariant
            i <= nodes@.len(),
            map@.len() == i,
            forall|j: int| 0 <= j < nodes@.len() ==> match public_port_of(#[trigger] nodes@[j]@) {
                Some(p) => p + INTERNAL_PORT_OFFSET <= u16::MAX,
                None => true,
            },
            forall|j: int| 0 <= j < i ==> #[trigger] map@[j].0@ == nodes@[j]@ && map@[j].1@ == internal_address_of(nodes@[j]@),
        decreases nodes@.len() - i,
    {
        let node = nodes[i].as_str();
        let pair = (owned(node), internal_address(node));
        map.push(pair);
        i = i + 1;
    }
    map
}

/// The four little-endian bytes of `len` that head a frame.
pub open spec fn frame_header_bytes(len: u32) -> Seq<u8> {
    seq![len as u8, (len >> 8u32) as u8, (len >> 16u32) as u8, (len >> 24u32) as u8]
}

/// The length a frame header announces.
pub open spec fn frame_header_len(b: Seq<u8>) -> u32 {
    (b[0] as u32) | ((b[1] as u32) << 8u32) | ((b[2] as u32) << 16u32) | ((b[3] as u32) << 24u32)
}

/// The header announcing a body of `len` bytes.
pub fn encode_frame_len(len: u32) -> (header: [u8; 4])
    ensures
        header@ == frame_header_bytes(len),
{
    let header = [len as u8, (len >> 8u32) as u8, (len >> 16u32) as u8, (len >> 24u32) as u8];
    assert(header@ =~= frame_header_bytes(len));
    header
}

/// The body length a frame header announces, unless it exceeds
/// [`MAX_INTERNAL_MSG_BYTES`].
pub fn decode_frame_len(header: [u8; 4]) -> (len: Option<usize>)
    ensures
        len == if frame_header_len(header@) <= MAX_INTERNAL_MSG_BYTES {
            Some(frame_header_len(header@) as usize)
        } else {
            None::<usize>
        },
{
    let value: u32 = (header[0] as u32) | ((header[1] as u32) << 8u32) | ((header[2] as u32) << 16u32) | ((
    header[3] as u32) << 24u32);
    if value as usize > MAX_INTERNAL_MSG_BYTES {
        None
    } else {
        Some(value as usize)
    }
}

/// A header read back gives the length it was written with.
pub proof fn lemma_frame_round_trip(len: u32)
    ensures
        frame_header_len(frame_header_bytes(len)) == len,
{
    let b0 = len as u8;
    let b1 = (len >> 8u32) as u8;
    let b2 = (len >> 16u32) as u8;
    let b3 = (len >> 24u32) as u8;
    assert((b0 as u32) | ((b1 as u32) << 8u32) | ((b2 as u32) << 16u32) | ((b3 as u32) << 24u32) == len)
        by (bit_vector)
        requires
            b0 == len as u8,
            b1 == (len >> 8u32) as u8,
            b2 == (len >> 16u32) as u8,
            b3 == (len >> 24u32) as u8,
    ;
}

} // verus!
