use vstd::prelude::*;
use crate::protocol::{parse_u64, parse_u64_chars, span_words, word_spans, words};
use crate::text::{chars_of, decimal, decimal_text};

verus! {

/// The position of the first line feed in `s`, or its length if there is none.
pub open spec fn line_end(s: Seq<char>) -> nat
    decreases s.len(),
{
    if s.len() == 0 {
        0
    } else if s[0] == '\n' {
        0
    } else {
        1 + line_end(s.drop_first())
    }
}

/// A line feed ends no later than the text.
pub proof fn lemma_line_end_bound(s: Seq<char>)
    ensures
        line_end(s) <= s.len(),
        line_end(s) < s.len() ==> s[line_end(s) as int] == '\n',
    decreases s.len(),
{
    if s.len() > 0 && s[0] != '\n' {
        lemma_line_end_bound(s.drop_first());
    }
}

/// A run of `k` characters that are not line feeds, followed by a line
/// feed or the end, ends the first line.
proof fn lemma_line_end_exact(s: Seq<char>, k: int)
    requires
        0 <= k <= s.len(),
        forall|j: int| 0 <= j < k ==> #[trigger] s[j] != '\n',
        k == s.len() || s[k] == '\n',
    ensures
        line_end(s) == k,
    decreases k,
{
    if k > 0 {
        lemma_line_end_exact(s.drop_first(), k - 1);
    }
}

/// `line` without one trailing carriage return.
pub open spec fn strip_cr(line: Seq<char>) -> Seq<char> {
    if line.len() > 0 && line.last() == '\r' {
        line.drop_last()
    } else {
        line
    }
}

/// The lines of `s`: split at each line feed, a carriage return before a
/// line feed dropped, and no empty line after a final line feed.
pub open spec fn text_lines(s: Seq<char>) -> Seq<Seq<char>>
    decreases s.len(),
{
    if s.len() == 0 {
        Seq::empty()
    } else {
        proof {
            lemma_line_end_bound(s);
        }
        let e = line_end(s);
        if e == s.len() {
            seq![s]
        } else {
            seq![strip_cr(s.take(e as int))] + text_lines(s.skip(e as int + 1))
        }
    }
}

/// Whether `pat` occurs in `s`.
pub open spec fn contains_text(s: Seq<char>, pat: Seq<char>) -> bool {
    exists|i: int| 0 <= i && i + pat.len() <= s.len() && #[trigger] s.subrange(i, i + pat.len()) == pat
}

/// Whether `s` ends with `suffix`.
pub open spec fn ends_with_text(s: Seq<char>, suffix: Seq<char>) -> bool {
    suffix.len() <= s.len() && s.skip(s.len() - suffix.len()) == suffix
}

/// The process a line of a `netstat -ano` listing shows listening on
/// `port`: the line says `LISTENING`, its second field is an address that
/// ends in `:port`, and its last field is a process id.
pub open spec fn listener_in_line(line: Seq<char>, port: u16) -> Option<u32> {
    let t = words(line);
    if contains_text(line, "LISTENING"@) && t.len() >= 2 && ends_with_text(t[1], ":"@ + decimal(port as nat)) {
        match parse_u64(t.last()) {
            Some(v) => if v <= u32::MAX {
                Some(v as u32)
            } else {
                None
            },
            None => None,
        }
    } else {
        None
    }
}

/// The process the first line that shows a listener on `port` names.
pub open spec fn first_listener(lines: Seq<Seq<char>>, port: u16) -> Option<u32>
    decreases lines.len(),
{
    if lines.len() == 0 {
        None
    } else {
        match listener_in_line(lines[0], port) {
            Some(pid) => Some(pid),
            None => first_listener(lines.drop_first(), port),
        }
    }
}

/// Whether `pat` occurs in `hay`.
fn contains_chars(hay: &Vec<char>, pat: &Vec<char>) -> (found: bool)
    ensures
        found == contains_text(hay@, pat@),
{
    let n = hay.len();
    let m = pat.len();
    if m > n {
        return false;
    }
    let mut start: usize = 0;
    while start <= n - m
        invariant
            m <= n,
            n == hay@.len(),
            m == pat@.len(),
            start <= n - m + 1,
            forall|s: int| 0 <= s < start ==> #[trigger] hay@.subrange(s, s + m) != pat@,
        decreases n - m + 1 - start,
    {
        let mut k: usize = 0;
        while k < m && hay[start + k] == pat[k]
            invariant
                m <= n,
                start <= n - m,
                n == hay@.len(),
                m == pat@.len(),
                k <= m,
                forall|j: int| 0 <= j < k ==> hay@[start + j] == #[trigger] pat@[j],
            decreases m - k,
        {
            k = k + 1;
        }
        if k == m {
            assert(hay@.subrange(start as int, start + m) =~= pat@);
            return true;
        }
        assert(hay@.subrange(start as int, start + m)[k as int] == hay@[start + k]);
        start = start + 1;
    }
    proof {
        if contains_text(hay@, pat@) {
            let i = choose|i: int| 0 <= i && i + pat@.len() <= hay@.len() && #[trigger] hay@.subrange(i, i + pat@.len()) == pat@;
            assert(hay@.subrange(i, i + m) != pat@);
        }
    }
    false
}

/// Whether the characters `from..to` of `chars` end with `suffix`.
fn range_ends_with(chars: &Vec<char>, from: usize, to: usize, suffix: &Vec<char>) -> (ends: bool)
    requires
        from <= to <= chars@.len(),
    ensures
        ends == ends_with_text(chars@.subrange(from as int, to as int), suffix@),
{
    let m = suffix.len();
    if m > to - from {
        return false;
    }
    let base = to - m;
    let mut k: usize = 0;
    while k < m
        invariant
            m == suffix@.len(),
            from <= base,
            base + m == to,
            to <= chars@.len(),
            k <= m,
            forall|j: int| 0 <= j < k ==> chars@[base + j] == #[trigger] suffix@[j],
        decreases m - k,
    {
        if chars[base + k] != suffix[k] {
            proof {
                let w = chars@.subrange(from as int, to as int);
                assert(w.skip(w.len() - m)[k as int] == chars@[base + k]);
            }
            return false;
        }
        k = k + 1;
    }
    proof {
        let w = chars@.subrange(from as int, to as int);
        assert(w.skip(w.len() - m) =~= suffix@);
    }
    true
}

/// The process `line` shows listening on the port whose suffix is `needle`.
fn line_listener(line: &Vec<char>, listening: &Vec<char>, needle: &Vec<char>, port: u16) -> (pid: Option<u32>)
    requires
        listening@ == "LISTENING"@,
        needle@ == ":"@ + decimal(port as nat),
    ensures
        pid == listener_in_line(line@, port),
{
    if !contains_chars(line, listening) {
        return None;
    }
    let spans = word_spans(line);
    let ghost t = words(line@);
    proof {
        assert(span_words(line@, spans@) == t);
        assert(t.len() == spans@.len());
    }
    if spans.len() < 2 {
        return None;
    }
    let second = spans[1];
    assert(t[1] == line@.subrange(second.0 as int, second.1 as int));
    if !range_ends_with(line, second.0, second.1, needle) {
        return None;
    }
    let last = spans[spans.len() - 1];
    assert(t.last() == line@.subrange(last.0 as int, last.1 as int));
    match parse_u64_chars(line, last.0, last.1) {
        Some(v) => if v <= 0xFFFF_FFFF {
            Some(v as u32)
        } else {
            None
        },
        None => None,
    }
}

/// The process listening on `port`, read from a `netstat -ano` listing:
/// the first line that shows one names it.
pub fn listening_pid(listing: &str, port: u16) -> (pid: Option<u32>)
    ensures
        pid == first_listener(text_lines(listing@), port),
{
    let chars = chars_of(listing);
    let listening = chars_of("LISTENING");
    let digits = decimal_text(port as u64);
    let mut needle = chars_of(":");
    let port_chars = chars_of(digits.as_str());
    needle.extend_from_slice(port_chars.as_slice());
    proof {
        reveal_strlit("LISTENING");
        reveal_strlit(":");
        assert(needle@ =~= ":"@ + decimal(port as nat));
    }
    let n = chars.len();
    let ghost s = chars@;
    let mut i: usize = 0;
    assert(s.skip(0) =~= s);
    while i < n
        invariant
            n == s.len(),
            s == chars@,
            s == listing@,
            i <= n,
            listening@ == "LISTENING"@,
            needle@ == ":"@ + decimal(port as nat),
            first_listener(text_lines(s.skip(i as int)), port) == first_listener(text_lines(s), port),
        decreases n - i,
    {
        let mut e: usize = i;
        while e < n && chars[e] != '\n'
            invariant
                n == s.len(),
                s == chars@,
                i <= e <= n,
                forall|j: int| i <= j < e ==> #[trigger] s[j] != '\n',
            decreases n - e,
        {
            e = e + 1;
        }
        let ghost rest = s.skip(i as int);
        proof {
            assert forall|j: int| 0 <= j < e - i implies #[trigger] rest[j] != '\n' by {
                assert(rest[j] == s[i + j]);
            }
            if e < n {
                assert(rest[e - i] == s[e as int]);
            }
            lemma_line_end_exact(rest, e - i);
        }
        let mut end = e;
        if e < n && e > i && chars[e - 1] == '\r' {
            end = e - 1;
        }
        let mut line: Vec<char> = Vec::new();
        let mut k: usize = i;
        while k < end
            invariant
                end <= n,
                n == s.len(),
                s == chars@,
                i <= k <= end,
                line@ == s.subrange(i as int, k as int),
            decreases end - k,
        {
            line.push(chars[k]);
            assert(s.subrange(i as int, k + 1) =~= s.subrange(i as int, k as int).push(s[k as int]));
            k = k + 1;
        }
        proof {
            if e < n {
                assert(rest.take(e - i) =~= s.subrange(i as int, e as int));
                assert(line@ =~= strip_cr(rest.take(e - i)));
                assert(rest.skip(e - i + 1) =~= s.skip(e + 1));
                assert(text_lines(rest) == seq![line@] + text_lines(s.skip(e + 1)));
            } else {
                assert(line@ =~= rest);
                assert(text_lines(rest) == seq![line@]);
            }
        }
        let found = line_listener(&line, &listening, &needle, port);
        if found.is_some() {
            return found;
        }
        if e < n {
            proof {
                assert((seq![line@] + text_lines(s.skip(e + 1))).drop_first() =~= text_lines(s.skip(e + 1)));
            }
            i = e + 1;
        } else {
            proof {
                assert(seq![line@].drop_first() =~= Seq::<Seq<char>>::empty());
                assert(s.skip(n as int) =~= Seq::<char>::empty());
            }
            i = n;
        }
    }
    proof {
        assert(s.skip(i as int) =~= Seq::<char>::empty());
    }
    None
}

} // verus!
