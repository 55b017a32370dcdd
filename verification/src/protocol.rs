use vstd::prelude::*;
use vstd::string::*;
use vstd::utf8::*;
use crate::text::{
    ascii_upper, char_is_space, chars_of, decimal, decimal_text, digit_char, is_space, lossy_string, owned,
    str_equal, uppercase, utf8_lossy,
};

verus! {

broadcast use vstd::utf8::group_utf8_lib;

/// A request of the line protocol.
#[derive(Debug, Clone, PartialEq, Eq)]
pub enum Command {
    Ping,
    SetKey { key: String, value: Vec<u8>, ttl: Option<u64> },
    Get { key: String },
    Delete { key: String },
    Info,
}

/// A reply of the line protocol.
#[derive(Debug, Clone, PartialEq, Eq)]
pub enum Response {
    Pong,
    Okay,
    Value(Vec<u8>),
    NotFound,
    Error(String),
    Info(String),
}

/// Why a request or a reply could not be read.
#[derive(Debug, Clone, PartialEq, Eq)]
pub enum ProtocolError {
    Empty,
    UnknownCommand(String),
    WrongArity(String),
    InvalidResponse,
}

/// A [`Command`] as plain values.
pub enum CommandModel {
    Ping,
    SetKey { key: Seq<char>, value: Seq<u8>, ttl: Option<u64> },
    Get { key: Seq<char> },
    Delete { key: Seq<char> },
    Info,
}

/// A [`Response`] as plain values.
pub enum ResponseModel {
    Pong,
    Okay,
    Value(Seq<u8>),
    NotFound,
    Error(Seq<char>),
    Info(Seq<char>),
}

/// A [`ProtocolError`] as plain values.
pub enum ProtocolErrorModel {
    Empty,
    UnknownCommand(Seq<char>),
    WrongArity(Seq<char>),
    InvalidResponse,
}

impl View for Command {
    type V = CommandModel;

    open spec fn view(&self) -> CommandModel {
        match self {
            Command::Ping => CommandModel::Ping,
            Command::SetKey { key, value, ttl } => CommandModel::SetKey { key: key@, value: value@, ttl: *ttl },
            Command::Get { key } => CommandModel::Get { key: key@ },
            Command::Delete { key } => CommandModel::Delete { key: key@ },
            Command::Info => CommandModel::Info,
        }
    }
}

impl View for Response {
    type V = ResponseModel;

    open spec fn view(&self) -> ResponseModel {
        match self {
            Response::Pong => ResponseModel::Pong,
            Response::Okay => ResponseModel::Okay,
            Response::Value(v) => ResponseModel::Value(v@),
            Response::NotFound => ResponseModel::NotFound,
            Response::Error(m) => ResponseModel::Error(m@),
            Response::Info(t) => ResponseModel::Info(t@),
        }
    }
}

impl View for ProtocolError {
    type V = ProtocolErrorModel;

    open spec fn view(&self) -> ProtocolErrorModel {
        match self {
            ProtocolError::Empty => ProtocolErrorModel::Empty,
            ProtocolError::UnknownCommand(c) => ProtocolErrorModel::UnknownCommand(c@),
            ProtocolError::WrongArity(c) => ProtocolErrorModel::WrongArity(c@),
            ProtocolError::InvalidResponse => ProtocolErrorModel::InvalidResponse,
        }
    }
}

/// A parse result as plain values.
pub open spec fn command_result_view(r: Result<Command, ProtocolError>) -> Result<CommandModel, ProtocolErrorModel> {
    match r {
        Result::Ok(c) => Result::Ok(c@),
        Result::Err(e) => Result::Err(e@),
    }
}

/// A parse result as plain values.
pub open spec fn response_result_view(r: Result<Response, ProtocolError>) -> Result<ResponseModel, ProtocolErrorModel> {
    match r {
        Result::Ok(c) => Result::Ok(c@),
        Result::Err(e) => Result::Err(e@),
    }
}

/// How many characters the word at the start of `s` has (none if `s` starts
/// with white space or is empty).
pub open spec fn word_len(s: Seq<char>) -> nat
    decreases s.len(),
{
    if s.len() == 0 || is_space(s[0]) {
        0
    } else {
        1 + word_len(s.drop_first())
    }
}

/// A word is never longer than what it is taken from, and one starts at
/// every character that is not white space.
pub proof fn lemma_word_len(s: Seq<char>)
    ensures
        word_len(s) <= s.len(),
        s.len() > 0 && !is_space(s[0]) ==> word_len(s) >= 1,
    decreases s.len(),
{
    if s.len() > 0 {
        lemma_word_len(s.drop_first());
    }
}

/// The white-space separated words of `s`, in order (`str::split_whitespace`).
pub open spec fn words(s: Seq<char>) -> Seq<Seq<char>>
    decreases s.len(),
{
    if s.len() == 0 {
        Seq::empty()
    } else if is_space(s[0]) {
        words(s.drop_first())
    } else {
        proof {
            lemma_word_len(s);
        }
        seq![s.take(word_len(s) as int)] + words(s.skip(word_len(s) as int))
    }
}

/// `ws` joined with single spaces.
pub open spec fn join_words(ws: Seq<Seq<char>>) -> Seq<char>
    decreases ws.len(),
{
    if ws.len() == 0 {
        Seq::empty()
    } else if ws.len() == 1 {
        ws[0]
    } else {
        join_words(ws.drop_last()) + seq![' '] + ws.last()
    }
}

/// Whether `c` is an ASCII decimal digit.
pub open spec fn is_digit(c: char) -> bool {
    '0' <= c <= '9'
}

/// The number that the decimal digits `d` spell.
pub open spec fn digits_value(d: Seq<char>) -> int
    decreases d.len(),
{
    if d.len() == 0 {
        0
    } else {
        digits_value(d.drop_last()) * 10 + (d.last() as int - 48)
    }
}

/// `s` without a leading `+`.
pub open spec fn unsigned_digits(s: Seq<char>) -> Seq<char> {
    if s.len() > 0 && s[0] == '+' {
        s.drop_first()
    } else {
        s
    }
}

/// `u64::from_str`: an optional `+`, then one or more decimal digits whose
/// value fits in a `u64`.
pub open spec fn parse_u64(s: Seq<char>) -> Option<u64> {
    let d = unsigned_digits(s);
    if d.len() > 0 && (forall|i: int| 0 <= i < d.len() ==> #[trigger] is_digit(d[i])) && digits_value(d)
        <= u64::MAX {
        Some(digits_value(d) as u64)
    } else {
        None
    }
}

/// The words of `s` read off the character ranges `spans`.
pub open spec fn span_words(s: Seq<char>, spans: Seq<(usize, usize)>) -> Seq<Seq<char>> {
    spans.map_values(|p: (usize, usize)| s.subrange(p.0 as int, p.1 as int))
}

/// Every range of `spans` lies within `len` characters.
pub open spec fn spans_within(spans: Seq<(usize, usize)>, len: nat) -> bool {
    forall|i: int| 0 <= i < spans.len() ==> #[trigger] spans[i].0 <= spans[i].1 <= len
}

/// A run of `n` characters that are not white space, followed by white
/// space or the end, is a word of length `n`.
proof fn lemma_word_len_exact(t: Seq<char>, n: int)
    requires
        0 <= n <= t.len(),
        forall|k: int| 0 <= k < n ==> !is_space(#[trigger] t[k]),
        n == t.len() || is_space(t[n]),
    ensures
        word_len(t) == n,
    decreases n,
{
    if n > 0 {
        lemma_word_len_exact(t.drop_first(), n - 1);
    }
}

/// The character ranges of the words of `chars`.
pub(crate) fn word_spans(chars: &Vec<char>) -> (spans: Vec<(usize, usize)>)
    ensures
        spans_within(spans@, chars@.len()),
        span_words(chars@, spans@) == words(chars@),
{
    let n = chars.len();
    let mut spans: Vec<(usize, usize)> = Vec::new();
    let mut i: usize = 0;
    assert(chars@.skip(0) =~= chars@);
    while i < n
        invariant
            n == chars@.len(),
            i <= n,
            spans_within(spans@, n as nat),
            span_words(chars@, spans@) + words(chars@.skip(i as int)) == words(chars@),
        decreases n - i,
    {
        let t = Ghost(chars@.skip(i as int));
        if char_is_space(chars[i]) {
            assert(t@.drop_first() =~= chars@.skip(i + 1));
            i = i + 1;
        } else {
            let mut j: usize = i + 1;
            while j < n && !char_is_space(chars[j])
                invariant
                    n == chars@.len(),
                    i < j <= n,
                    forall|k: int| i <= k < j ==> !is_space(#[trigger] chars@[k]),
                decreases n - j,
            {
                j = j + 1;
            }
            proof {
                assert forall|k: int| 0 <= k < j - i implies !is_space(#[trigger] t@[k]) by {
                    assert(t@[k] == chars@[i + k]);
                }
                lemma_word_len_exact(t@, j - i);
                assert(t@.take(j - i) =~= chars@.subrange(i as int, j as int));
                assert(t@.skip(j - i) =~= chars@.skip(j as int));
                assert(words(t@) == seq![chars@.subrange(i as int, j as int)] + words(chars@.skip(j as int)));
            }
            let ghost before = spans@;
            spans.push((i, j));
            proof {
                assert(span_words(chars@, spans@) =~= span_words(chars@, before).push(chars@.subrange(i as int, j as int)));
                assert(span_words(chars@, spans@) + words(chars@.skip(j as int)) =~= span_words(chars@, before) + (seq![chars@.subrange(i as int, j as int)] + words(chars@.skip(j as int))));
            }
            i = j;
        }
    }
    assert(chars@.skip(n as int).len() == 0);
    assert(span_words(chars@, spans@) + words(chars@.skip(n as int)) =~= span_words(chars@, spans@));
    spans
}

/// Reads `chars[from..to]` as a `u64` the way `u64::from_str` does.
pub(crate) fn parse_u64_chars(chars: &Vec<char>, from: usize, to: usize) -> (value: Option<u64>)
    requires
        from <= to <= chars@.len(),
    ensures
        value == parse_u64(chars@.subrange(from as int, to as int)),
{
    let ghost s = chars@.subrange(from as int, to as int);
    let mut start = from;
    if from < to && chars[from] == '+' {
        start = from + 1;
    }
    let ghost d = chars@.subrange(start as int, to as int);
    assert(d =~= unsigned_digits(s));
    if start == to {
        return None;
    }
    let mut k = start;
    while k < to
        invariant
            start <= k <= to <= chars@.len(),
            d == chars@.subrange(start as int, to as int),
            s == chars@.subrange(from as int, to as int),
            d == unsigned_digits(s),
            forall|i: int| 0 <= i < k - start ==> #[trigger] is_digit(d[i]),
        decreases to - k,
    {
        if !('0' <= chars[k] && chars[k] <= '9') {
            assert(!is_digit(d[k - start]));
            return None;
        }
        k = k + 1;
    }
    let mut acc: u64 = 0;
    let mut k = start;
    while k < to
        invariant
            start < to <= chars@.len(),
            start <= k <= to,
            d == chars@.subrange(start as int, to as int),
            s == chars@.subrange(from as int, to as int),
            d == unsigned_digits(s),
            forall|i: int| 0 <= i < d.len() ==> #[trigger] is_digit(d[i]),
            acc as int == digits_value(d.take(k - start)),
        decreases to - k,
    {
        assert(d.take(k - start + 1).drop_last() =~= d.take(k - start));
        assert(is_digit(d[k - start]));
        let digit = (chars[k] as u32 - 48) as u64;
        match acc.checked_mul(10) {
            Some(m) => match m.checked_add(digit) {
                Some(v) => {
                    acc = v;
                },
                None => {
                    proof {
                        lemma_digits_value_grows(d, k - start + 1);
                    }
                    return None;
                },
            },
            None => {
                proof {
                    lemma_digits_value_grows(d, k - start + 1);
                }
                return None;
            },
        }
        k = k + 1;
    }
    assert(d.take(to - start) =~= d);
    Some(acc)
}

/// Digits only add to the value: a prefix never spells more than the whole.
proof fn lemma_digits_value_grows(d: Seq<char>, n: int)
    requires
        0 <= n <= d.len(),
        forall|i: int| 0 <= i < d.len() ==> #[trigger] is_digit(d[i]),
    ensures
        digits_value(d.take(n)) <= digits_value(d),
    decreases d.len() - n,
{
    if n < d.len() {
        lemma_digits_value_grows(d, n + 1);
        assert(d.take(n + 1).drop_last() =~= d.take(n));
        assert(is_digit(d[n]));
        lemma_digits_value_nonneg(d.take(n));
    } else {
        assert(d.take(n) =~= d);
    }
}

/// The value of digits is never negative.
proof fn lemma_digits_value_nonneg(d: Seq<char>)
    requires
        forall|i: int| 0 <= i < d.len() ==> #[trigger] is_digit(d[i]),
    ensures
        digits_value(d) >= 0,
    decreases d.len(),
{
    if d.len() > 0 {
        assert(is_digit(d[d.len() - 1]));
        lemma_digits_value_nonneg(d.drop_last());
    }
}

/// What a request line asks for: its first word, upper-cased, names the
/// command and the other words are its arguments. `SET` takes a key, a value
/// of one or more words joined with single spaces, and, when more than two
/// arguments are given and the last reads as a `u64`, a TTL in seconds.
pub open spec fn parse_command_spec(line: Seq<char>) -> Result<CommandModel, ProtocolErrorModel> {
    let w = words(line);
    if w.len() == 0 {
        Result::Err(ProtocolErrorModel::Empty)
    } else {
        let verb = ascii_upper(w[0]);
        let args = w.drop_first();
        if verb == "PING"@ {
            Result::Ok(CommandModel::Ping)
        } else if verb == "INFO"@ {
            Result::Ok(CommandModel::Info)
        } else if verb == "GET"@ {
            if args.len() != 1 {
                Result::Err(ProtocolErrorModel::WrongArity("GET"@))
            } else {
                Result::Ok(CommandModel::Get { key: args[0] })
            }
        } else if verb == "DELETE"@ {
            if args.len() != 1 {
                Result::Err(ProtocolErrorModel::WrongArity("DELETE"@))
            } else {
                Result::Ok(CommandModel::Delete { key: args[0] })
            }
        } else if verb == "SET"@ {
            if args.len() < 2 {
                Result::Err(ProtocolErrorModel::WrongArity("SET"@))
            } else {
                let ttl = if args.len() > 2 { parse_u64(args.last()) } else { None };
                let end = if ttl is Some { args.len() - 1 } else { args.len() as int };
                Result::Ok(CommandModel::SetKey {
                    key: args[0],
                    value: encode_utf8(join_words(args.subrange(1, end))),
                    ttl,
                })
            }
        } else {
            Result::Err(ProtocolErrorModel::UnknownCommand(verb))
        }
    }
}

/// The word of `line` that the range `span` covers, as an owned string.
fn word_at(line: &str, span: (usize, usize)) -> (word: String)
    requires
        span.0 <= span.1 <= line@.len(),
    ensures
        word@ == line@.subrange(span.0 as int, span.1 as int),
{
    owned(line.substring_char(span.0, span.1))
}

/// Reads a request line.
pub fn parse_command(line: &str) -> (parsed: Result<Command, ProtocolError>)
    ensures
        command_result_view(parsed) == parse_command_spec(line@),
{
    let chars = chars_of(line);
    let spans = word_spans(&chars);
    let ghost w = words(line@);
    proof {
        assert(span_words(chars@, spans@).len() == spans@.len());
    }
    if spans.len() == 0 {
        return Err(ProtocolError::Empty);
    }
    let verb = uppercase(line.substring_char(spans[0].0, spans[0].1));
    assert(w[0] == line@.subrange(spans@[0].0 as int, spans@[0].1 as int));
    let ghost args = w.drop_first();
    let nargs = spans.len() - 1;
    if str_equal(verb.as_str(), "PING") {
        return Ok(Command::Ping);
    }
    if str_equal(verb.as_str(), "INFO") {
        return Ok(Command::Info);
    }
    if str_equal(verb.as_str(), "GET") {
        if nargs != 1 {
            return Err(ProtocolError::WrongArity(owned("GET")));
        }
        assert(args[0] == w[1]);
        return Ok(Command::Get { key: word_at(line, spans[1]) });
    }
    if str_equal(verb.as_str(), "DELETE") {
        if nargs != 1 {
            return Err(ProtocolError::WrongArity(owned("DELETE")));
        }
        assert(args[0] == w[1]);
        return Ok(Command::Delete { key: word_at(line, spans[1]) });
    }
    if str_equal(verb.as_str(), "SET") {
        if nargs < 2 {
            return Err(ProtocolError::WrongArity(owned("SET")));
        }
        let key = word_at(line, spans[1]);
        assert(args[0] == w[1]);
        let mut value_end = spans.len();
        let mut ttl: Option<u64> = None;
        if nargs > 2 {
            let last = spans[spans.len() - 1];
            assert(args.last() == w[w.len() - 1]);
            match parse_u64_chars(&chars, last.0, last.1) {
                Some(secs) => {
                    ttl = Some(secs);
                    value_end = spans.len() - 1;
                },
                None => {},
            }
        }
        let mut text = word_at(line, spans[2]);
        assert(w.subrange(2, 3) =~= seq![w[2]]);
        let mut k: usize = 3;
        while k < value_end
            invariant
                3 <= k <= value_end <= spans@.len(),
                spans_within(spans@, line@.len()),
                chars@ == line@,
                span_words(chars@, spans@) == w,
                text@ == join_words(w.subrange(2, k as int)),
            decreases value_end - k,
        {
            text.append(" ");
            let word = word_at(line, spans[k]);
            text.append(word.as_str());
            proof {
                reveal_strlit(" ");
                assert(w.subrange(2, k + 1).drop_last() =~= w.subrange(2, k as int));
                assert(w[k as int] == word@);
            }
            k = k + 1;
        }
        assert(args.subrange(1, value_end - 1) =~= w.subrange(2, value_end as int));
        let value = text.as_str().as_bytes_vec();
        return Ok(Command::SetKey { key, value, ttl });
    }
    Err(ProtocolError::UnknownCommand(verb))
}

/// The request line that [`encode_command`] writes for `c`.
pub open spec fn command_text(c: CommandModel) -> Seq<char> {
    match c {
        CommandModel::Ping => "PING"@,
        CommandModel::Info => "INFO"@,
        CommandModel::Get { key } => "GET "@ + key,
        CommandModel::Delete { key } => "DELETE "@ + key,
        CommandModel::SetKey { key, value, ttl } => "SET "@ + key + " "@ + utf8_lossy(value) + match ttl {
            Some(t) => " "@ + decimal(t as nat),
            None => Seq::empty(),
        },
    }
}

/// The reply line that [`encode_response`] writes for `r`, without its
/// line feed.
pub open spec fn response_line(r: ResponseModel) -> Seq<char> {
    match r {
        ResponseModel::Pong => "PONG"@,
        ResponseModel::Okay => "OK"@,
        ResponseModel::Value(v) => "VALUE "@ + utf8_lossy(v),
        ResponseModel::NotFound => "NOTFOUND"@,
        ResponseModel::Error(m) => "ERROR "@ + m,
        ResponseModel::Info(t) => "INFO "@ + t,
    }
}

/// Writes the request line for `command`.
pub fn encode_command(command: &Command) -> (line: String)
    ensures
        line@ == command_text(command@),
{
    match command {
        Command::Ping => owned("PING"),
        Command::Info => owned("INFO"),
        Command::Get { key } => {
            let mut line = owned("GET ");
            line.append(key.as_str());
            line
        },
        Command::Delete { key } => {
            let mut line = owned("DELETE ");
            line.append(key.as_str());
            line
        },
        Command::SetKey { key, value, ttl } => {
            let mut line = owned("SET ");
            line.append(key.as_str());
            line.append(" ");
            let text = lossy_string(value.as_slice());
            line.append(text.as_str());
            match ttl {
                Some(t) => {
                    line.append(" ");
                    let digits = decimal_text(*t);
                    line.append(digits.as_str());
                },
                None => {
                    assert(line@ =~= line@ + Seq::<char>::empty());
                },
            }
            line
        },
    }
}

/// Writes the reply line for `response`, ending in a line feed, as UTF-8.
pub fn encode_response(response: &Response) -> (bytes: Vec<u8>)
    ensures
        bytes@ == encode_utf8(response_line(response@) + "\n"@),
{
    let mut line = match response {
        Response::Pong => owned("PONG"),
        Response::Okay => owned("OK"),
        Response::Value(value) => {
            let mut line = owned("VALUE ");
            let text = lossy_string(value.as_slice());
            line.append(text.as_str());
            line
        },
        Response::NotFound => owned("NOTFOUND"),
        Response::Error(message) => {
            let mut line = owned("ERROR ");
            line.append(message.as_str());
            line
        },
        Response::Info(text) => {
            let mut line = owned("INFO ");
            line.append(text.as_str());
            line
        },
    };
    assert(line@ == response_line(response@));
    line.append("\n");
    line.as_str().as_bytes_vec()
}

/// `s` without the copies of `c` at its end (`str::trim_end_matches`).
pub open spec fn trim_end_char(s: Seq<char>, c: char) -> Seq<char>
    decreases s.len(),
{
    if s.len() > 0 && s.last() == c {
        trim_end_char(s.drop_last(), c)
    } else {
        s
    }
}

/// What a reply line holds: after the line feeds and then the carriage
/// returns at its end are dropped, the text up to the first white space
/// names the reply and the text after that white space is its payload.
pub open spec fn parse_response_spec(line: Seq<char>) -> Result<ResponseModel, ProtocolErrorModel> {
    let l = trim_end_char(trim_end_char(line, '\n'), '\r');
    let n = word_len(l) as int;
    let tag = l.take(n);
    let rest = if n < l.len() { l.skip(n + 1) } else { Seq::empty() };
    if tag == "PONG"@ {
        Result::Ok(ResponseModel::Pong)
    } else if tag == "OK"@ {
        Result::Ok(ResponseModel::Okay)
    } else if tag == "NOTFOUND"@ {
        Result::Ok(ResponseModel::NotFound)
    } else if tag == "VALUE"@ {
        Result::Ok(ResponseModel::Value(encode_utf8(rest)))
    } else if tag == "ERROR"@ {
        Result::Ok(ResponseModel::Error(rest))
    } else if tag == "INFO"@ {
        Result::Ok(ResponseModel::Info(rest))
    } else {
        Result::Err(ProtocolErrorModel::InvalidResponse)
    }
}

/// How many characters of `chars[..end]` stay once the copies of `c` at its
/// end are dropped.
fn trimmed_end(chars: &Vec<char>, end: usize, c: char) -> (kept: usize)
    requires
        end <= chars@.len(),
    ensures
        kept <= end,
        chars@.take(kept as int) == trim_end_char(chars@.take(end as int), c),
{
    let mut e = end;
    while e > 0 && chars[e - 1] == c
        invariant
            e <= end <= chars@.len(),
            trim_end_char(chars@.take(e as int), c) == trim_end_char(chars@.take(end as int), c),
        decreases e,
    {
        assert(chars@.take(e as int).drop_last() =~= chars@.take(e - 1));
        e = e - 1;
    }
    e
}

/// Reads a reply line.
pub fn parse_response(line: &str) -> (parsed: Result<Response, ProtocolError>)
    ensures
        response_result_view(parsed) == parse_response_spec(line@),
{
    let chars = chars_of(line);
    assert(chars@.take(chars@.len() as int) =~= chars@);
    let e1 = trimmed_end(&chars, chars.len(), '\n');
    let e = trimmed_end(&chars, e1, '\r');
    let ghost l = chars@.take(e as int);
    let mut n: usize = 0;
    while n < e && !char_is_space(chars[n])
        invariant
            n <= e <= chars@.len(),
            forall|k: int| 0 <= k < n ==> !is_space(#[trigger] chars@[k]),
        decreases e - n,
    {
        n = n + 1;
    }
    proof {
        assert forall|k: int| 0 <= k < n implies !is_space(#[trigger] l[k]) by {
            assert(l[k] == chars@[k]);
        }
        lemma_word_len_exact(l, n as int);
    }
    let tag = line.substring_char(0, n);
    assert(tag@ =~= l.take(n as int));
    let rest = if n < e {
        line.substring_char(n + 1, e)
    } else {
        line.substring_char(e, e)
    };
    assert(rest@ =~= if n < l.len() { l.skip(n + 1) } else { Seq::empty() });
    if str_equal(tag, "PONG") {
        Ok(Response::Pong)
    } else if str_equal(tag, "OK") {
        Ok(Response::Okay)
    } else if str_equal(tag, "NOTFOUND") {
        Ok(Response::NotFound)
    } else if str_equal(tag, "VALUE") {
        Ok(Response::Value(rest.as_bytes_vec()))
    } else if str_equal(tag, "ERROR") {
        Ok(Response::Error(owned(rest)))
    } else if str_equal(tag, "INFO") {
        Ok(Response::Info(owned(rest)))
    } else {
        Err(ProtocolError::InvalidResponse)
    }
}

/// The message that describes an error.
pub open spec fn error_message(e: ProtocolErrorModel) -> Seq<char> {
    match e {
        ProtocolErrorModel::Empty => "empty request"@,
        ProtocolErrorModel::UnknownCommand(c) => "unknown command: "@ + c,
        ProtocolErrorModel::WrongArity(c) => "wrong argument count for "@ + c,
        ProtocolErrorModel::InvalidResponse => "malformed response"@,
    }
}

impl ProtocolError {
    /// The message that describes the error.
    pub fn message(&self) -> (text: String)
        ensures
            text@ == error_message(self@),
    {
        match self {
            ProtocolError::Empty => owned("empty request"),
            ProtocolError::UnknownCommand(c) => {
                let mut text = owned("unknown command: ");
                text.append(c.as_str());
                text
            },
            ProtocolError::WrongArity(c) => {
                let mut text = owned("wrong argument count for ");
                text.append(c.as_str());
                text
            },
            ProtocolError::InvalidResponse => owned("malformed response"),
        }
    }
}

/// A non-empty run of characters none of which is white space.
pub open spec fn plain_word(s: Seq<char>) -> bool {
    s.len() > 0 && forall|i: int| 0 <= i < s.len() ==> !is_space(#[trigger] s[i])
}

/// The commands that read back unchanged from the line written for them:
/// keys are single words, and a value's text is its words joined by single
/// spaces, with a last word that does not read as a TTL when none is set.
pub open spec fn canonical_command(c: CommandModel) -> bool {
    match c {
        CommandModel::Ping => true,
        CommandModel::Info => true,
        CommandModel::Get { key } => plain_word(key),
        CommandModel::Delete { key } => plain_word(key),
        CommandModel::SetKey { key, value, ttl } => {
            let t = utf8_lossy(value);
            &&& plain_word(key)
            &&& encode_utf8(t) == value
            &&& words(t).len() > 0
            &&& join_words(words(t)) == t
            &&& (ttl is None ==> words(t).len() == 1 || parse_u64(words(t).last()) is None)
        },
    }
}

/// The replies that read back unchanged from the line written for them: a
/// payload does not end in a line feed or a carriage return, and a value's
/// bytes are the UTF-8 of its text.
pub open spec fn canonical_response(r: ResponseModel) -> bool {
    match r {
        ResponseModel::Value(v) => encode_utf8(utf8_lossy(v)) == v && clean_end(utf8_lossy(v)),
        ResponseModel::Error(m) => clean_end(m),
        ResponseModel::Info(t) => clean_end(t),
        _ => true,
    }
}

/// `s` does not end in a line feed or a carriage return.
pub open spec fn clean_end(s: Seq<char>) -> bool {
    s.len() == 0 || (s.last() != '\n' && s.last() != '\r')
}

/// Where `s1` and `s2` meet no word is split: one of them is empty, `s1`
/// ends in white space or `s2` starts with it.
pub open spec fn word_boundary(s1: Seq<char>, s2: Seq<char>) -> bool {
    s1.len() == 0 || s2.len() == 0 || is_space(s1.last()) || is_space(s2[0])
}

/// A word that ends before the boundary is the same word after it.
proof fn lemma_word_len_concat(s1: Seq<char>, s2: Seq<char>)
    requires
        word_len(s1) < s1.len() || s2.len() == 0 || is_space(s2[0]),
    ensures
        word_len(s1 + s2) == word_len(s1),
    decreases s1.len(),
{
    lemma_word_len(s1);
    if s1.len() == 0 {
        if s2.len() > 0 {
            assert((s1 + s2)[0] == s2[0]);
        } else {
            assert(s1 + s2 =~= s1);
        }
    } else if is_space(s1[0]) {
        assert((s1 + s2)[0] == s1[0]);
    } else {
        assert((s1 + s2)[0] == s1[0]);
        assert((s1 + s2).drop_first() =~= s1.drop_first() + s2);
        lemma_word_len_concat(s1.drop_first(), s2);
    }
}

/// Splitting at a word boundary splits the words.
pub proof fn lemma_words_concat(s1: Seq<char>, s2: Seq<char>)
    requires
        word_boundary(s1, s2),
    ensures
        words(s1 + s2) == words(s1) + words(s2),
    decreases s1.len(),
{
    if s1.len() == 0 {
        assert(s1 + s2 =~= s2);
        assert(words(s1) + words(s2) =~= words(s2));
    } else if s2.len() == 0 {
        assert(s1 + s2 =~= s1);
        assert(words(s1) + words(s2) =~= words(s1));
    } else if is_space(s1[0]) {
        assert((s1 + s2)[0] == s1[0]);
        assert((s1 + s2).drop_first() =~= s1.drop_first() + s2);
        if s1.len() > 1 {
            assert(s1.drop_first().last() == s1.last());
        }
        lemma_words_concat(s1.drop_first(), s2);
    } else {
        lemma_word_len(s1);
        let n = word_len(s1) as int;
        assert(n < s1.len() || is_space(s2[0])) by {
            if n == s1.len() {
                lemma_word_len_all(s1);
                assert(!is_space(s1[s1.len() - 1]));
            }
        }
        lemma_word_len_concat(s1, s2);
        assert((s1 + s2)[0] == s1[0]);
        assert((s1 + s2).take(n) =~= s1.take(n));
        assert((s1 + s2).skip(n) =~= s1.skip(n) + s2);
        if n < s1.len() {
            assert(s1.skip(n).last() == s1.last());
        }
        lemma_words_concat(s1.skip(n), s2);
        assert(words(s1 + s2) =~= words(s1) + words(s2));
    }
}

/// No character of the word at the start of `s` is white space.
proof fn lemma_word_len_all(s: Seq<char>)
    ensures
        forall|k: int| 0 <= k < word_len(s) ==> !is_space(#[trigger] s[k]),
    decreases s.len(),
{
    lemma_word_len(s);
    if s.len() > 0 && !is_space(s[0]) {
        lemma_word_len_all(s.drop_first());
        assert forall|k: int| 0 <= k < word_len(s) implies !is_space(#[trigger] s[k]) by {
            if k > 0 {
                assert(s[k] == s.drop_first()[k - 1]);
            }
        }
    }
}

/// A plain word is one word.
pub proof fn lemma_words_plain(x: Seq<char>)
    requires
        plain_word(x),
    ensures
        words(x) == seq![x],
{
    lemma_word_len_exact(x, x.len() as int);
    assert(x.take(x.len() as int) =~= x);
    assert(x.skip(x.len() as int) =~= Seq::<char>::empty());
    assert(words(x.skip(x.len() as int)) =~= Seq::<Seq<char>>::empty());
    assert(words(x) =~= seq![x]);
}

/// White space alone holds no words.
proof fn lemma_words_space()
    ensures
        words(" "@) == Seq::<Seq<char>>::empty(),
{
    reveal_strlit(" ");
    assert(is_space(" "@[0]));
    assert(" "@.drop_first() =~= Seq::<char>::empty());
    assert(words(Seq::<char>::empty()) =~= Seq::<Seq<char>>::empty());
}

/// `w` followed by a space: the word `w` alone.
proof fn lemma_words_word_space(w: Seq<char>, rest: Seq<char>)
    requires
        plain_word(w),
    ensures
        words(w + " "@ + rest) == seq![w] + words(rest),
{
    reveal_strlit(" ");
    lemma_words_plain(w);
    lemma_words_space();
    lemma_words_concat(w, " "@);
    assert((w + " "@).last() == ' ');
    lemma_words_concat(w + " "@, rest);
}

/// The decimal text of `n` is a plain word of digits that reads back as `n`.
pub proof fn lemma_decimal_parses(n: u64)
    ensures
        plain_word(decimal(n as nat)),
        parse_u64(decimal(n as nat)) == Some(n),
{
    lemma_decimal_digits(n as nat);
    let d = decimal(n as nat);
    assert(d[0] != '+') by {
        assert(is_digit(d[0]));
    }
    assert(unsigned_digits(d) == d);
    assert forall|i: int| 0 <= i < d.len() implies !is_space(#[trigger] d[i]) by {
        assert(is_digit(d[i]));
    }
}

/// The decimal text of `n` is made of digits and spells `n`.
proof fn lemma_decimal_digits(n: nat)
    ensures
        decimal(n).len() > 0,
        forall|i: int| 0 <= i < decimal(n).len() ==> #[trigger] is_digit(decimal(n)[i]),
        digits_value(decimal(n)) == n,
    decreases n,
{
    let d = decimal(n);
    assert(digit_char((n % 10) as int) as int - 48 == n % 10);
    if n < 10 {
        assert(d.drop_last() =~= Seq::<char>::empty());
        assert(digits_value(d.drop_last()) == 0);
    } else {
        lemma_decimal_digits(n / 10);
        assert(d.drop_last() =~= decimal(n / 10));
        assert(n == (n / 10) * 10 + n % 10);
        assert forall|i: int| 0 <= i < d.len() implies #[trigger] is_digit(d[i]) by {
            if i < d.len() - 1 {
                assert(d[i] == decimal(n / 10)[i]);
            }
        }
    }
}

/// ASCII upper-casing keeps a word already in upper case.
proof fn lemma_upper_verbs()
    ensures
        ascii_upper("PING"@) == "PING"@,
        ascii_upper("INFO"@) == "INFO"@,
        ascii_upper("GET"@) == "GET"@,
        ascii_upper("DELETE"@) == "DELETE"@,
        ascii_upper("SET"@) == "SET"@,
{
    reveal_strlit("PING");
    reveal_strlit("INFO");
    reveal_strlit("GET");
    reveal_strlit("DELETE");
    reveal_strlit("SET");
    assert(ascii_upper("PING"@) =~= "PING"@);
    assert(ascii_upper("INFO"@) =~= "INFO"@);
    assert(ascii_upper("GET"@) =~= "GET"@);
    assert(ascii_upper("DELETE"@) =~= "DELETE"@);
    assert(ascii_upper("SET"@) =~= "SET"@);
}

/// ASCII upper-casing turns the lower-case verbs into the verbs.
proof fn lemma_lower_verbs()
    ensures
        ascii_upper("ping"@) == "PING"@,
        ascii_upper("info"@) == "INFO"@,
        ascii_upper("get"@) == "GET"@,
        ascii_upper("delete"@) == "DELETE"@,
        ascii_upper("set"@) == "SET"@,
        plain_word("ping"@),
        plain_word("info"@),
        plain_word("get"@),
        plain_word("delete"@),
        plain_word("set"@),
{
    reveal_strlit("PING");
    reveal_strlit("INFO");
    reveal_strlit("GET");
    reveal_strlit("DELETE");
    reveal_strlit("SET");
    reveal_strlit("ping");
    reveal_strlit("info");
    reveal_strlit("get");
    reveal_strlit("delete");
    reveal_strlit("set");
    assert(ascii_upper("ping"@) =~= "PING"@);
    assert(ascii_upper("info"@) =~= "INFO"@);
    assert(ascii_upper("get"@) =~= "GET"@);
    assert(ascii_upper("delete"@) =~= "DELETE"@);
    assert(ascii_upper("set"@) =~= "SET"@);
}

/// The verbs are plain words, distinct from each other.
proof fn lemma_verbs_plain()
    ensures
        plain_word("PING"@),
        plain_word("INFO"@),
        plain_word("GET"@),
        plain_word("DELETE"@),
        plain_word("SET"@),
        "INFO"@ != "PING"@,
        "GET"@ != "PING"@ && "GET"@ != "INFO"@,
        "DELETE"@ != "PING"@ && "DELETE"@ != "INFO"@ && "DELETE"@ != "GET"@,
        "SET"@ != "PING"@ && "SET"@ != "INFO"@ && "SET"@ != "GET"@ && "SET"@ != "DELETE"@,
        "GET "@ == "GET"@ + " "@,
        "DELETE "@ == "DELETE"@ + " "@,
        "SET "@ == "SET"@ + " "@,
{
    reveal_strlit("PING");
    reveal_strlit("INFO");
    reveal_strlit("GET");
    reveal_strlit("DELETE");
    reveal_strlit("SET");
    reveal_strlit("GET ");
    reveal_strlit("DELETE ");
    reveal_strlit("SET ");
    reveal_strlit(" ");
    assert("GET "@ =~= "GET"@ + " "@);
    assert("DELETE "@ =~= "DELETE"@ + " "@);
    assert("SET "@ =~= "SET"@ + " "@);
    assert("INFO"@[0] != "PING"@[0]);
    assert("GET"@[0] != "PING"@[0]);
    assert("GET"@[0] != "INFO"@[0]);
    assert("DELETE"@[0] != "PING"@[0]);
    assert("DELETE"@[0] != "INFO"@[0]);
    assert("DELETE"@[0] != "GET"@[0]);
    assert("SET"@[0] != "PING"@[0]);
    assert("SET"@[0] != "INFO"@[0]);
    assert("SET"@[0] != "GET"@[0]);
    assert("SET"@[0] != "DELETE"@[0]);
}

/// The text a TTL adds to a `SET` line.
spec fn ttl_tail(ttl: Option<u64>) -> Seq<char> {
    match ttl {
        Some(x) => " "@ + decimal(x as nat),
        None => Seq::empty(),
    }
}

/// The words a TTL adds to a `SET` line.
spec fn ttl_words(ttl: Option<u64>) -> Seq<Seq<char>> {
    match ttl {
        Some(x) => seq![decimal(x as nat)],
        None => Seq::empty(),
    }
}

/// The words of a `SET` line: the verb, the key, the value's words and the TTL.
proof fn lemma_set_line_words(key: Seq<char>, value: Seq<u8>, ttl: Option<u64>)
    requires
        plain_word(key),
        words(utf8_lossy(value)).len() > 0,
    ensures
        words(command_text(CommandModel::SetKey { key, value, ttl })) == seq!["SET"@, key] + (words(
            utf8_lossy(value),
        ) + ttl_words(ttl)),
{
    lemma_verbs_plain();
    let t = utf8_lossy(value);
    let tail = ttl_tail(ttl);
    reveal_strlit(" ");
    assert(words(tail) == ttl_words(ttl)) by {
        match ttl {
            Some(x) => {
                lemma_decimal_parses(x);
                lemma_words_space();
                lemma_words_plain(decimal(x as nat));
                lemma_words_concat(" "@, decimal(x as nat));
                assert(words(" "@) + words(decimal(x as nat)) =~= ttl_words(ttl));
            },
            None => {
                assert(words(tail) =~= ttl_words(ttl));
            },
        }
    }
    assert(words(t + tail) == words(t) + ttl_words(ttl)) by {
        lemma_words_concat(t, tail);
    }
    assert(command_text(CommandModel::SetKey { key, value, ttl }) =~= "SET"@ + " "@ + (key + " "@ + (t
        + tail)));
    lemma_words_word_space(key, t + tail);
    lemma_words_word_space("SET"@, key + " "@ + (t + tail));
    assert(seq!["SET"@] + (seq![key] + words(t + tail)) =~= seq!["SET"@, key] + (words(t) + ttl_words(
        ttl,
    )));
}

/// `SET` with a key, a value and maybe a TTL reads back from its line.
proof fn lemma_set_round_trip(key: Seq<char>, value: Seq<u8>, ttl: Option<u64>)
    requires
        canonical_command(CommandModel::SetKey { key, value, ttl }),
    ensures
        parse_command_spec(command_text(CommandModel::SetKey { key, value, ttl }))
            == Result::<CommandModel, ProtocolErrorModel>::Ok(CommandModel::SetKey { key, value, ttl }),
{
    lemma_upper_verbs();
    lemma_verbs_plain();
    let c = CommandModel::SetKey { key, value, ttl };
    let t = utf8_lossy(value);
    let wt = words(t);
    lemma_set_line_words(key, value, ttl);
    let w = words(command_text(c));
    let args = w.drop_first();
    assert(w[0] == "SET"@);
    assert(args =~= seq![key] + (wt + ttl_words(ttl)));
    match ttl {
        Some(x) => {
            lemma_decimal_parses(x);
            assert(args.last() == decimal(x as nat));
            assert(args.subrange(1, args.len() - 1) =~= wt);
        },
        None => {
            if wt.len() > 1 {
                assert(args.last() == wt.last());
            }
            assert(args.subrange(1, args.len() as int) =~= wt);
        },
    }
}

/// A request written by [`encode_command`] reads back as the same command,
/// for every command whose line is unambiguous.
pub proof fn lemma_command_round_trip(c: CommandModel)
    requires
        canonical_command(c),
    ensures
        parse_command_spec(command_text(c)) == Result::<CommandModel, ProtocolErrorModel>::Ok(c),
{
    lemma_upper_verbs();
    lemma_verbs_plain();
    match c {
        CommandModel::Ping => {
            lemma_words_plain("PING"@);
            assert(words(command_text(c))[0] == "PING"@);
            assert(parse_command_spec(command_text(c)) == Result::<CommandModel, ProtocolErrorModel>::Ok(c));
        },
        CommandModel::Info => {
            lemma_words_plain("INFO"@);
            assert(words(command_text(c))[0] == "INFO"@);
            assert(parse_command_spec(command_text(c)) == Result::<CommandModel, ProtocolErrorModel>::Ok(c));
        },
        CommandModel::Get { key } => {
            lemma_words_plain(key);
            lemma_words_word_space("GET"@, key);
            assert(words(command_text(c)) =~= seq!["GET"@, key]);
            assert(parse_command_spec(command_text(c)) == Result::<CommandModel, ProtocolErrorModel>::Ok(c));
        },
        CommandModel::Delete { key } => {
            lemma_words_plain(key);
            lemma_words_word_space("DELETE"@, key);
            assert(words(command_text(c)) =~= seq!["DELETE"@, key]);
            assert(parse_command_spec(command_text(c)) == Result::<CommandModel, ProtocolErrorModel>::Ok(c));
        },
        CommandModel::SetKey { key, value, ttl } => {
            lemma_set_round_trip(key, value, ttl);
        },
    }
}

/// Verbs are read without regard to ASCII case: two request lines whose
/// first words are the same once upper-cased, and whose other words are the
/// same, ask for the same thing (or fail the same way).
pub proof fn lemma_verb_case_free(l1: Seq<char>, l2: Seq<char>)
    requires
        words(l1).len() > 0,
        words(l2).len() > 0,
        ascii_upper(words(l1)[0]) == ascii_upper(words(l2)[0]),
        words(l1).drop_first() == words(l2).drop_first(),
    ensures
        parse_command_spec(l1) == parse_command_spec(l2),
{
}

/// Lower-case verbs name their commands: `set KEY VALUE` writes `VALUE`
/// under `KEY` with no TTL, `get KEY` and `delete KEY` read and remove
/// `KEY`, and `ping` and `info` are PING and INFO.
pub proof fn lemma_lower_case_verbs(key: Seq<char>, value: Seq<char>)
    requires
        plain_word(key),
        plain_word(value),
    ensures
        parse_command_spec("set"@ + " "@ + key + " "@ + value) == Result::<CommandModel, ProtocolErrorModel>::Ok(
            CommandModel::SetKey { key, value: encode_utf8(value), ttl: None },
        ),
        parse_command_spec("get"@ + " "@ + key) == Result::<CommandModel, ProtocolErrorModel>::Ok(CommandModel::Get { key }),
        parse_command_spec("delete"@ + " "@ + key) == Result::<CommandModel, ProtocolErrorModel>::Ok(
            CommandModel::Delete { key },
        ),
        parse_command_spec("ping"@) == Result::<CommandModel, ProtocolErrorModel>::Ok(CommandModel::Ping),
        parse_command_spec("info"@) == Result::<CommandModel, ProtocolErrorModel>::Ok(CommandModel::Info),
{
    lemma_lower_verbs();
    lemma_verbs_plain();
    lemma_words_plain("ping"@);
    lemma_words_plain("info"@);
    lemma_words_plain(key);
    lemma_words_plain(value);
    lemma_words_word_space("get"@, key);
    assert(words("get"@ + " "@ + key) =~= seq!["get"@, key]);
    lemma_words_word_space("delete"@, key);
    assert(words("delete"@ + " "@ + key) =~= seq!["delete"@, key]);
    lemma_words_word_space(key, value);
    lemma_words_word_space("set"@, key + " "@ + value);
    assert("set"@ + " "@ + key + " "@ + value =~= "set"@ + " "@ + (key + " "@ + value));
    let w = words("set"@ + " "@ + key + " "@ + value);
    assert(w =~= seq!["set"@, key, value]);
    let args = w.drop_first();
    assert(args.subrange(1, 2) =~= seq![value]);
    assert(join_words(seq![value]) == value);
}

/// The white space ending a line: dropping a line feed that was appended.
proof fn lemma_trim_clean(s: Seq<char>)
    requires
        clean_end(s),
    ensures
        trim_end_char(trim_end_char(s + "\n"@, '\n'), '\r') == s,
{
    reveal_strlit("\n");
    assert((s + "\n"@).last() == '\n');
    assert((s + "\n"@).drop_last() =~= s);
    assert(trim_end_char(s, '\n') == s);
    assert(trim_end_char(s, '\r') == s);
}

/// A tag followed by a space and a payload: the tag is the word at the
/// start and the payload is what follows the space.
proof fn lemma_tag_payload(tag: Seq<char>, payload: Seq<char>)
    requires
        plain_word(tag),
    ensures
        word_len(tag + " "@ + payload) == tag.len(),
        (tag + " "@ + payload).take(tag.len() as int) == tag,
        (tag + " "@ + payload).skip(tag.len() as int + 1) == payload,
{
    reveal_strlit(" ");
    let l = tag + " "@ + payload;
    assert forall|k: int| 0 <= k < tag.len() implies !is_space(#[trigger] l[k]) by {
        assert(l[k] == tag[k]);
    }
    assert(l[tag.len() as int] == ' ');
    lemma_word_len_exact(l, tag.len() as int);
    assert(l.take(tag.len() as int) =~= tag);
    assert(l.skip(tag.len() as int + 1) =~= payload);
}

/// The reply tags are plain words, distinct from each other.
proof fn lemma_tags_plain()
    ensures
        plain_word("PONG"@),
        plain_word("OK"@),
        plain_word("NOTFOUND"@),
        plain_word("VALUE"@),
        plain_word("ERROR"@),
        plain_word("INFO"@),
        "OK"@ != "PONG"@,
        "NOTFOUND"@ != "PONG"@ && "NOTFOUND"@ != "OK"@,
        "VALUE"@ != "PONG"@ && "VALUE"@ != "OK"@ && "VALUE"@ != "NOTFOUND"@,
        "ERROR"@ != "PONG"@ && "ERROR"@ != "OK"@ && "ERROR"@ != "NOTFOUND"@ && "ERROR"@ != "VALUE"@,
        "INFO"@ != "PONG"@ && "INFO"@ != "OK"@ && "INFO"@ != "NOTFOUND"@ && "INFO"@ != "VALUE"@ && "INFO"@ != "ERROR"@,
        "VALUE "@ == "VALUE"@ + " "@,
        "ERROR "@ == "ERROR"@ + " "@,
        "INFO "@ == "INFO"@ + " "@,
{
    reveal_strlit("PONG");
    reveal_strlit("OK");
    reveal_strlit("NOTFOUND");
    reveal_strlit("VALUE");
    reveal_strlit("ERROR");
    reveal_strlit("INFO");
    reveal_strlit("VALUE ");
    reveal_strlit("ERROR ");
    reveal_strlit("INFO ");
    reveal_strlit(" ");
    assert("VALUE "@ =~= "VALUE"@ + " "@);
    assert("ERROR "@ =~= "ERROR"@ + " "@);
    assert("INFO "@ =~= "INFO"@ + " "@);
    assert("OK"@[0] != "PONG"@[0]);
    assert("NOTFOUND"@[0] != "PONG"@[0]);
    assert("NOTFOUND"@[0] != "OK"@[0]);
    assert("VALUE"@[0] != "PONG"@[0]);
    assert("VALUE"@[0] != "OK"@[0]);
    assert("VALUE"@[0] != "NOTFOUND"@[0]);
    assert("ERROR"@[0] != "PONG"@[0]);
    assert("ERROR"@[0] != "OK"@[0]);
    assert("ERROR"@[0] != "NOTFOUND"@[0]);
    assert("ERROR"@[0] != "VALUE"@[0]);
    assert("INFO"@[0] != "PONG"@[0]);
    assert("INFO"@[0] != "OK"@[0]);
    assert("INFO"@[0] != "NOTFOUND"@[0]);
    assert("INFO"@[0] != "VALUE"@[0]);
    assert("INFO"@[0] != "ERROR"@[0]);
}

/// The line of a reply with a payload splits back into its tag and payload.
proof fn lemma_reply_split(tag: Seq<char>, payload: Seq<char>)
    requires
        plain_word(tag),
        clean_end(payload),
    ensures
        ({
            let l = trim_end_char(trim_end_char(tag + " "@ + payload + "\n"@, '\n'), '\r');
            &&& word_len(l) == tag.len()
            &&& l.take(tag.len() as int) == tag
            &&& tag.len() < l.len()
            &&& l.skip(tag.len() as int + 1) == payload
        }),
{
    reveal_strlit(" ");
    let line = tag + " "@ + payload;
    assert(clean_end(line)) by {
        if payload.len() > 0 {
            assert(line.last() == payload.last());
        }
    }
    lemma_trim_clean(line);
    lemma_tag_payload(tag, payload);
}

/// The line of a reply without payload reads back as its tag alone.
proof fn lemma_reply_bare(tag: Seq<char>)
    requires
        plain_word(tag),
    ensures
        ({
            let l = trim_end_char(trim_end_char(tag + "\n"@, '\n'), '\r');
            &&& word_len(l) == l.len()
            &&& l.take(word_len(l) as int) == tag
        }),
{
    assert(clean_end(tag)) by {
        assert(!is_space(tag.last()));
    }
    lemma_trim_clean(tag);
    lemma_word_len_exact(tag, tag.len() as int);
    assert(tag.take(tag.len() as int) =~= tag);
}

/// A reply written by [`encode_response`], read back as text, parses as
/// the same reply, for every reply whose line is unambiguous.
pub proof fn lemma_response_round_trip(r: ResponseModel)
    requires
        canonical_response(r),
    ensures
        parse_response_spec(response_line(r) + "\n"@) == Result::<ResponseModel, ProtocolErrorModel>::Ok(r),
{
    lemma_tags_plain();
    match r {
        ResponseModel::Value(v) => {
            lemma_reply_split("VALUE"@, utf8_lossy(v));
        },
        ResponseModel::Error(m) => {
            lemma_reply_split("ERROR"@, m);
        },
        ResponseModel::Info(t) => {
            lemma_reply_split("INFO"@, t);
        },
        ResponseModel::Pong => {
            lemma_reply_bare("PONG"@);
        },
        ResponseModel::Okay => {
            lemma_reply_bare("OK"@);
        },
        ResponseModel::NotFound => {
            lemma_reply_bare("NOTFOUND"@);
        },
    }
}

} // verus!