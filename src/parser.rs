use vstd::prelude::*;

use crate::command::{join_words, owned, strings_view, Command};

verus! {

broadcast use vstd::string::group_string_axioms;

/// Largest payload, in bytes, that a `set` command may declare.
pub const MAX_VALUE_LEN: usize = 1048576;

/// Why a `get` command was rejected; each variant holds the input from the point of failure.
#[derive(Debug, PartialEq, Eq)]
pub enum ParseGetCommandError {
    /// The input does not start with `get `.
    Prefix(String),
    /// No carriage return ends the key list.
    Unterminated(String),
    /// The key list holds an empty key or a control character.
    BadKey(String),
    /// The carriage return is not followed by a line feed.
    LineEnding(String),
}

/// Why a `set` command was rejected; each variant holds the input from the point of failure.
#[derive(Debug, PartialEq, Eq)]
pub enum ParseSetCommandError {
    /// The input does not start with `set `.
    Prefix(String),
    /// The key is empty, holds a control character, or is not followed by a space.
    BadKey(String),
    /// A numeric field is empty or not followed by its separator.
    BadNumber(String),
    /// The declared length exceeds `MAX_VALUE_LEN`.
    TooLarge(String),
    /// The length field is not followed by CRLF.
    HeaderEnd(String),
    /// Fewer bytes follow the header than the payload and its CRLF need; more input may complete it.
    ShortPayload(String),
    /// The declared length ends inside a character.
    Split(String),
    /// The payload is not followed by CRLF.
    Terminator(String),
}

/// Why a command was rejected.
#[derive(Debug, PartialEq, Eq)]
pub enum ParseCommandError {
    /// The input starts with neither `get ` nor `set `; holds the whole input.
    Unrecognized(String),
    ParseSetCommandError(ParseSetCommandError),
    ParseGetCommandError(ParseGetCommandError),
}

pub open spec fn is_control_char(c: char) -> bool {
    c <= '\u{1f}' || ('\u{7f}' <= c && c <= '\u{9f}')
}

pub open spec fn is_digit(c: char) -> bool {
    '0' <= c && c <= '9'
}

/// Index of the first `c` in `s`, or `s.len()` when there is none.
pub open spec fn index_of(s: Seq<char>, c: char) -> int
    decreases s.len(),
{
    if s.len() == 0 {
        0
    } else if s[0] == c {
        0
    } else {
        1 + index_of(s.skip(1), c)
    }
}

/// Length of the run of ASCII digits that starts `s`.
pub open spec fn digit_run(s: Seq<char>) -> int
    decreases s.len(),
{
    if s.len() == 0 {
        0
    } else if !is_digit(s[0]) {
        0
    } else {
        1 + digit_run(s.skip(1))
    }
}

/// The number that a run of decimal digits denotes.
pub open spec fn digits_value(s: Seq<char>) -> int
    decreases s.len(),
{
    if s.len() == 0 {
        0
    } else {
        digits_value(s.drop_last()) * 10 + ((s.last() as u32) as int - 48)
    }
}

/// The pieces of `t` between single spaces, left to right.
pub open spec fn split_spaces(t: Seq<char>) -> Seq<Seq<char>>
    decreases t.len(),
{
    if t.len() == 0 {
        seq![Seq::<char>::empty()]
    } else {
        let prev = split_spaces(t.drop_last());
        if t.last() == ' ' {
            prev.push(Seq::<char>::empty())
        } else if prev.len() == 0 {
            seq![seq![t.last()]]
        } else {
            prev.update(prev.len() - 1, prev.last().push(t.last()))
        }
    }
}

pub open spec fn no_control(t: Seq<char>) -> bool {
    forall|i: int| 0 <= i < t.len() ==> !is_control_char(#[trigger] t[i])
}

/// Every piece between spaces is non-empty and no character is a control character.
pub open spec fn keys_valid(t: Seq<char>) -> bool {
    &&& no_control(t)
    &&& forall|j: int| 0 <= j < split_spaces(t).len() ==> (#[trigger] split_spaces(t)[j]).len() > 0
}

pub open spec fn has_word(s: Seq<char>, a: char, b: char, c: char) -> bool {
    s.len() >= 4 && s[0] == a && s[1] == b && s[2] == c && s[3] == ' '
}

// ---- `get` ----
/// Position of the carriage return that ends a `get` line.
pub open spec fn get_cr(s: Seq<char>) -> int {
    4 + index_of(s.skip(4), '\r')
}

pub open spec fn get_key_text(s: Seq<char>) -> Seq<char> {
    s.subrange(4, get_cr(s))
}

/// The keys of a well-formed `get` line, in order.
pub open spec fn get_keys(s: Seq<char>) -> Seq<Seq<char>> {
    split_spaces(get_key_text(s))
}

/// `s` starts with a well-formed `get` line.
pub open spec fn get_ok(s: Seq<char>) -> bool {
    &&& has_word(s, 'g', 'e', 't')
    &&& get_cr(s) < s.len()
    &&& keys_valid(get_key_text(s))
    &&& get_cr(s) + 1 < s.len() && s[get_cr(s) + 1] == '\n'
}

// ---- `set` ----
pub open spec fn key_end(s: Seq<char>) -> int {
    4 + index_of(s.skip(4), ' ')
}

pub open spec fn flags_end(s: Seq<char>) -> int {
    key_end(s) + 1 + digit_run(s.skip(key_end(s) + 1))
}

pub open spec fn exptime_end(s: Seq<char>) -> int {
    flags_end(s) + 1 + digit_run(s.skip(flags_end(s) + 1))
}

pub open spec fn length_end(s: Seq<char>) -> int {
    exptime_end(s) + 1 + digit_run(s.skip(exptime_end(s) + 1))
}

pub open spec fn declared_len(s: Seq<char>) -> int {
    digits_value(s.subrange(exptime_end(s) + 1, length_end(s)))
}

pub open spec fn payload_start(s: Seq<char>) -> int {
    length_end(s) + 2
}

/// Bytes that `c` takes in UTF-8.
pub open spec fn utf8_len(c: char) -> int {
    let v = c as u32;
    if v < 0x80 {
        1
    } else if v < 0x800 {
        2
    } else if v < 0x10000 {
        3
    } else {
        4
    }
}

/// Bytes that `t` takes in UTF-8.
pub open spec fn bytes_len(t: Seq<char>) -> int
    decreases t.len(),
{
    if t.len() == 0 {
        0
    } else {
        bytes_len(t.drop_last()) + utf8_len(t.last())
    }
}

/// What follows the header line of a `set` command.
pub open spec fn payload_area(s: Seq<char>) -> Seq<char> {
    s.skip(payload_start(s))
}

/// Fewer bytes follow the header than the payload and its CRLF take.
pub open spec fn payload_short(s: Seq<char>) -> bool {
    bytes_len(payload_area(s)) < declared_len(s) + 2
}

/// Some run of characters after the header is exactly the declared number of bytes.
pub open spec fn payload_fits(s: Seq<char>) -> bool {
    exists|j: int|
        0 <= j <= payload_area(s).len() && bytes_len(#[trigger] payload_area(s).take(j))
            == declared_len(s)
}

/// The number of characters in the payload.
pub open spec fn payload_chars(s: Seq<char>) -> int {
    choose|j: int|
        0 <= j <= payload_area(s).len() && bytes_len(#[trigger] payload_area(s).take(j))
            == declared_len(s)
}

pub open spec fn payload_end(s: Seq<char>) -> int {
    payload_start(s) + payload_chars(s)
}

pub open spec fn set_key_ok(s: Seq<char>) -> bool {
    4 < key_end(s) < s.len() && no_control(s.subrange(4, key_end(s)))
}

pub open spec fn flags_ok(s: Seq<char>) -> bool {
    key_end(s) + 1 < flags_end(s) < s.len() && s[flags_end(s)] == ' '
}

pub open spec fn exptime_ok(s: Seq<char>) -> bool {
    flags_end(s) + 1 < exptime_end(s) < s.len() && s[exptime_end(s)] == ' '
}

pub open spec fn length_ok(s: Seq<char>) -> bool {
    exptime_end(s) + 1 < length_end(s)
}

pub open spec fn header_end_ok(s: Seq<char>) -> bool {
    length_end(s) + 1 < s.len() && s[length_end(s)] == '\r' && s[length_end(s) + 1] == '\n'
}

pub open spec fn terminator_ok(s: Seq<char>) -> bool {
    payload_end(s) + 1 < s.len() && s[payload_end(s)] == '\r' && s[payload_end(s) + 1] == '\n'
}

/// The header fields of a `set` line are well formed, up to and including its CRLF.
pub open spec fn set_header_ok(s: Seq<char>) -> bool {
    &&& has_word(s, 's', 'e', 't')
    &&& set_key_ok(s)
    &&& flags_ok(s)
    &&& exptime_ok(s)
    &&& length_ok(s)
    &&& declared_len(s) <= MAX_VALUE_LEN
    &&& header_end_ok(s)
}

pub open spec fn set_key(s: Seq<char>) -> Seq<char> {
    s.subrange(4, key_end(s))
}

pub open spec fn set_value(s: Seq<char>) -> Seq<char> {
    s.subrange(payload_start(s), payload_end(s))
}

/// `s` starts with a well-formed `set` command, payload and terminator included.
pub open spec fn set_ok(s: Seq<char>) -> bool {
    &&& set_header_ok(s)
    &&& !payload_short(s)
    &&& payload_fits(s)
    &&& terminator_ok(s)
}

/// `e` is the error that a malformed `get` line gives.
pub open spec fn get_error_matches(s: Seq<char>, e: ParseGetCommandError) -> bool {
    match e {
        ParseGetCommandError::Prefix(f) => !has_word(s, 'g', 'e', 't') && f@ == s,
        ParseGetCommandError::Unterminated(f) => {
            has_word(s, 'g', 'e', 't') && get_cr(s) == s.len() && f@ == s.skip(4)
        },
        ParseGetCommandError::BadKey(f) => {
            &&& has_word(s, 'g', 'e', 't')
            &&& get_cr(s) < s.len()
            &&& !keys_valid(get_key_text(s))
            &&& f@ == s.skip(4)
        },
        ParseGetCommandError::LineEnding(f) => {
            &&& has_word(s, 'g', 'e', 't')
            &&& get_cr(s) < s.len()
            &&& keys_valid(get_key_text(s))
            &&& !(get_cr(s) + 1 < s.len() && s[get_cr(s) + 1] == '\n')
            &&& f@ == s.skip(get_cr(s))
        },
    }
}

/// `e` is the error that a malformed `set` command gives.
pub open spec fn set_error_matches(s: Seq<char>, e: ParseSetCommandError) -> bool {
    match e {
        ParseSetCommandError::Prefix(f) => !has_word(s, 's', 'e', 't') && f@ == s,
        ParseSetCommandError::BadKey(f) => {
            has_word(s, 's', 'e', 't') && !set_key_ok(s) && f@ == s.skip(4)
        },
        ParseSetCommandError::BadNumber(f) => {
            &&& has_word(s, 's', 'e', 't')
            &&& set_key_ok(s)
            &&& {
                ||| !flags_ok(s) && f@ == s.skip(key_end(s) + 1)
                ||| flags_ok(s) && !exptime_ok(s) && f@ == s.skip(flags_end(s) + 1)
                ||| flags_ok(s) && exptime_ok(s) && !length_ok(s) && f@ == s.skip(
                    exptime_end(s) + 1,
                )
            }
        },
        ParseSetCommandError::TooLarge(f) => {
            &&& has_word(s, 's', 'e', 't')
            &&& set_key_ok(s) && flags_ok(s) && exptime_ok(s) && length_ok(s)
            &&& declared_len(s) > MAX_VALUE_LEN
            &&& f@ == s.skip(exptime_end(s) + 1)
        },
        ParseSetCommandError::HeaderEnd(f) => {
            &&& has_word(s, 's', 'e', 't')
            &&& set_key_ok(s) && flags_ok(s) && exptime_ok(s) && length_ok(s)
            &&& declared_len(s) <= MAX_VALUE_LEN
            &&& !header_end_ok(s)
            &&& f@ == s.skip(length_end(s))
        },
        ParseSetCommandError::ShortPayload(f) => {
            set_header_ok(s) && payload_short(s) && f@ == payload_area(s)
        },
        ParseSetCommandError::Split(f) => {
            set_header_ok(s) && !payload_short(s) && !payload_fits(s) && f@ == payload_area(s)
        },
        ParseSetCommandError::Terminator(f) => {
            &&& set_header_ok(s)
            &&& !payload_short(s)
            &&& payload_fits(s)
            &&& !terminator_ok(s)
            &&& f@ == s.skip(payload_end(s))
        },
    }
}

/// `cmd` is what `s` parses to.
pub open spec fn parses_to(s: Seq<char>, cmd: Command) -> bool {
    match cmd {
        Command::Get(keys) => get_ok(s) && strings_view(keys@) == get_keys(s),
        Command::Store(k, v) => set_ok(s) && k@ == set_key(s) && v@ == set_value(s),
    }
}

/// How many characters the command at the start of `s` takes.
pub open spec fn consumed(s: Seq<char>) -> int {
    if has_word(s, 'g', 'e', 't') {
        get_cr(s) + 2
    } else {
        payload_end(s) + 2
    }
}

/// `e` is the error that a malformed command gives.
pub open spec fn command_error_matches(s: Seq<char>, e: ParseCommandError) -> bool {
    match e {
        ParseCommandError::Unrecognized(f) => {
            !has_word(s, 'g', 'e', 't') && !has_word(s, 's', 'e', 't') && f@ == s
        },
        ParseCommandError::ParseGetCommandError(g) => {
            has_word(s, 'g', 'e', 't') && !get_ok(s) && get_error_matches(s, g)
        },
        ParseCommandError::ParseSetCommandError(x) => {
            has_word(s, 's', 'e', 't') && !set_ok(s) && set_error_matches(s, x)
        },
    }
}

proof fn lemma_utf8_len_pos(c: char)
    ensures
        1 <= utf8_len(c) <= 4,
{
}

proof fn lemma_bytes_step(t: Seq<char>, k: int)
    requires
        0 <= k < t.len(),
    ensures
        bytes_len(t.take(k + 1)) == bytes_len(t.take(k)) + utf8_len(t[k]),
{
    assert(t.take(k + 1).drop_last() =~= t.take(k));
}

/// Each character takes at least one byte, so longer prefixes take strictly more bytes.
proof fn lemma_bytes_mono(t: Seq<char>, a: int, b: int)
    requires
        0 <= a <= b <= t.len(),
    ensures
        bytes_len(t.take(a)) + (b - a) <= bytes_len(t.take(b)),
    decreases b - a,
{
    if a < b {
        lemma_bytes_mono(t, a, b - 1);
        lemma_bytes_step(t, b - 1);
        lemma_utf8_len_pos(t[b - 1]);
    }
}

proof fn lemma_payload_chars(s: Seq<char>, j: int)
    requires
        0 <= j <= payload_area(s).len(),
        bytes_len(payload_area(s).take(j)) == declared_len(s),
    ensures
        payload_fits(s),
        payload_chars(s) == j,
{
    let a = payload_area(s);
    assert(0 <= j <= a.len() && bytes_len(a.take(j)) == declared_len(s));
    let c = payload_chars(s);
    if c < j {
        lemma_bytes_mono(a, c, j);
    } else if c > j {
        lemma_bytes_mono(a, j, c);
    }
}

proof fn lemma_index_of(s: Seq<char>, c: char, i: int)
    requires
        0 <= i <= s.len(),
        forall|k: int| 0 <= k < i ==> s[k] != c,
    ensures
        i <= index_of(s, c) <= s.len(),
        i < s.len() && s[i] == c ==> index_of(s, c) == i,
        i == s.len() ==> index_of(s, c) == s.len(),
    decreases i,
{
    if i > 0 {
        assert forall|k: int| 0 <= k < i - 1 implies s.skip(1)[k] != c by {
            assert(s.skip(1)[k] == s[k + 1]);
        }
        lemma_index_of(s.skip(1), c, i - 1);
    } else {
        lemma_index_of_le(s, c);
    }
}

pub proof fn lemma_index_of_bounds(s: Seq<char>, c: char)
    ensures
        0 <= index_of(s, c) <= s.len(),
{
    lemma_index_of_le(s, c);
}

proof fn lemma_index_of_le(s: Seq<char>, c: char)
    ensures
        0 <= index_of(s, c) <= s.len(),
    decreases s.len(),
{
    if s.len() > 0 {
        lemma_index_of_le(s.skip(1), c);
    }
}

proof fn lemma_digit_run(s: Seq<char>, i: int)
    requires
        0 <= i <= s.len(),
        forall|k: int| 0 <= k < i ==> is_digit(s[k]),
    ensures
        i <= digit_run(s) <= s.len(),
        i < s.len() && !is_digit(s[i]) ==> digit_run(s) == i,
        forall|k: int| 0 <= k < digit_run(s) ==> is_digit(#[trigger] s[k]),
    decreases s.len(),
{
    if s.len() > 0 && is_digit(s[0]) {
        let t = s.skip(1);
        let j = if i > 0 { i - 1 } else { 0 };
        assert forall|k: int| 0 <= k < j implies is_digit(t[k]) by {
            assert(t[k] == s[k + 1]);
        }
        lemma_digit_run(t, j);
        assert forall|k: int| 0 <= k < digit_run(s) implies is_digit(#[trigger] s[k]) by {
            if k > 0 {
                assert(s[k] == t[k - 1]);
            }
        }
    }
}

proof fn lemma_digits_nonneg(t: Seq<char>)
    requires
        forall|k: int| 0 <= k < t.len() ==> is_digit(#[trigger] t[k]),
    ensures
        digits_value(t) >= 0,
    decreases t.len(),
{
    if t.len() > 0 {
        lemma_digits_nonneg(t.drop_last());
    }
}

proof fn lemma_digits_monotone(t: Seq<char>, j: int)
    requires
        0 <= j <= t.len(),
        forall|k: int| 0 <= k < t.len() ==> is_digit(#[trigger] t[k]),
    ensures
        digits_value(t.take(j)) <= digits_value(t),
    decreases t.len() - j,
{
    if j == t.len() {
        assert(t.take(j) =~= t);
    } else {
        let u = t.drop_last();
        assert(u.take(j) =~= t.take(j));
        lemma_digits_monotone(u, j);
        lemma_digits_nonneg(u);
    }
}

/// The first index at or after `from` where `c` occurs, or `n`; fails on a control character first.
fn scan_for(inp: &str, n: usize, from: usize, c: char, stop_on_control: bool) -> (r: Result<
    usize,
    usize,
>)
    requires
        n == inp@.len(),
        from <= n,
    ensures
        match r {
            Ok(p) => {
                &&& from <= p <= inp@.len()
                &&& p < inp@.len() ==> inp@[p as int] == c
                &&& p == from + index_of(inp@.skip(from as int), c)
                &&& stop_on_control ==> no_control(inp@.subrange(from as int, p as int))
            },
            Err(p) => {
                &&& stop_on_control
                &&& from <= p < from + index_of(inp@.skip(from as int), c)
                &&& is_control_char(inp@[p as int])
            },
        },
{
    let ghost s = inp@;
    let mut p: usize = from;
    while p < n
        invariant
            from <= p <= n,
            n == s.len(),
            s == inp@,
            forall|k: int| from <= k < p ==> s[k] != c,
            stop_on_control ==> no_control(s.subrange(from as int, p as int)),
        ensures
            p < n ==> s[p as int] == c,
        decreases n - p,
    {
        let ch = inp.get_char(p);
        if ch == c {
            break;
        }
        if stop_on_control && (ch <= '\u{1f}' || ('\u{7f}' <= ch && ch <= '\u{9f}')) {
            proof {
                let t = s.skip(from as int);
                assert forall|k: int| 0 <= k < p - from + 1 implies t[k] != c by {
                    assert(t[k] == s[k + from]);
                }
                lemma_index_of(t, c, p - from + 1);
            }
            return Err(p);
        }
        proof {
            if stop_on_control {
                assert forall|i: int| 0 <= i < s.subrange(from as int, p + 1).len() implies !is_control_char(
                    #[trigger] s.subrange(from as int, p + 1)[i],
                ) by {
                    if i < p - from {
                        assert(s.subrange(from as int, p + 1)[i] == s.subrange(from as int, p as int)[i]);
                    }
                }
            }
        }
        p = p + 1;
    }
    proof {
        let t = s.skip(from as int);
        assert forall|k: int| 0 <= k < p - from implies t[k] != c by {
            assert(t[k] == s[k + from]);
        }
        lemma_index_of(t, c, p - from);
    }
    Ok(p)
}

/// The first index at or after `from` where `c` occurs, if any.
pub(crate) fn find_char(inp: &str, n: usize, from: usize, c: char) -> (r: Option<usize>)
    requires
        n == inp@.len(),
        from <= n,
    ensures
        match r {
            Some(p) => from <= p < n && p == from + index_of(inp@.skip(from as int), c) && inp@[p as int] == c,
            None => from + index_of(inp@.skip(from as int), c) == n,
        },
{
    match scan_for(inp, n, from, c, false) {
        Ok(p) => {
            if p < n {
                Some(p)
            } else {
                None
            }
        },
        Err(_) => None,
    }
}

/// The end of the run of ASCII digits that starts at `from`.
fn scan_digits(inp: &str, n: usize, from: usize) -> (end: usize)
    requires
        n == inp@.len(),
        from <= n,
    ensures
        end == from + digit_run(inp@.skip(from as int)),
        from <= end <= n,
        forall|k: int| from <= k < end ==> is_digit(#[trigger] inp@[k]),
{
    let ghost s = inp@;
    let mut p: usize = from;
    while p < n
        invariant
            from <= p <= n,
            n == s.len(),
            s == inp@,
            forall|k: int| from <= k < p ==> is_digit(s[k]),
        ensures
            p < n ==> !is_digit(s[p as int]),
        decreases n - p,
    {
        let ch = inp.get_char(p);
        if !('0' <= ch && ch <= '9') {
            break;
        }
        p = p + 1;
    }
    proof {
        let t = s.skip(from as int);
        assert forall|k: int| 0 <= k < p - from implies is_digit(t[k]) by {
            assert(t[k] == s[k + from]);
        }
        lemma_digit_run(t, p - from);
        if p < n {
            assert(t[p - from] == s[p as int]);
        }
    }
    p
}

/// An owned copy of what follows position `from`.
fn rest_from(inp: &str, n: usize, from: usize) -> (r: String)
    requires
        n == inp@.len(),
        from <= n,
    ensures
        r@ == inp@.skip(from as int),
{
    let rest = inp.substring_char(from, n);
    assert(rest@ =~= inp@.skip(from as int));
    owned(rest)
}

/// Bytes that `c` takes in UTF-8.
pub fn char_utf8_len(c: char) -> (r: usize)
    ensures
        r == utf8_len(c),
{
    let v = c as u32;
    if v < 0x80 {
        1
    } else if v < 0x800 {
        2
    } else if v < 0x10000 {
        3
    } else {
        4
    }
}

/// Bytes that `s` takes in UTF-8.
pub fn text_bytes_len(s: &str) -> (r: usize)
    requires
        bytes_len(s@) <= usize::MAX,
    ensures
        r == bytes_len(s@),
{
    let n = s.unicode_len();
    let mut acc: usize = 0;
    let mut i: usize = 0;
    assert(s@.take(0) =~= Seq::<char>::empty());
    while i < n
        invariant
            i <= n,
            n == s@.len(),
            acc == bytes_len(s@.take(i as int)),
            bytes_len(s@) <= usize::MAX,
        decreases n - i,
    {
        let ch = s.get_char(i);
        proof {
            lemma_bytes_step(s@, i as int);
            lemma_bytes_mono(s@, i + 1, n as int);
            assert(s@.take(n as int) =~= s@);
        }
        acc = acc + char_utf8_len(ch);
        i = i + 1;
    }
    assert(s@.take(n as int) =~= s@);
    acc
}

/// The value of the digits in `from..to`, when it is at most `MAX_VALUE_LEN`.
fn digits_to_len(inp: &str, from: usize, to: usize) -> (r: Option<usize>)
    requires
        from <= to <= inp@.len(),
        forall|k: int| from <= k < to ==> is_digit(#[trigger] inp@[k]),
    ensures
        match r {
            Some(v) => v == digits_value(inp@.subrange(from as int, to as int)) && v <= MAX_VALUE_LEN,
            None => digits_value(inp@.subrange(from as int, to as int)) > MAX_VALUE_LEN,
        },
{
    let ghost s = inp@;
    let ghost t = s.subrange(from as int, to as int);
    let mut acc: usize = 0;
    let mut i: usize = from;
    while i < to
        invariant
            from <= i <= to <= s.len(),
            s == inp@,
            t == s.subrange(from as int, to as int),
            forall|k: int| from <= k < to ==> is_digit(#[trigger] s[k]),
            acc == digits_value(s.subrange(from as int, i as int)),
            acc <= MAX_VALUE_LEN,
        decreases to - i,
    {
        let ch = inp.get_char(i);
        let d = (ch as u32 - 48) as usize;
        let ghost pre = s.subrange(from as int, i as int);
        let ghost nxt = s.subrange(from as int, i + 1);
        assert(nxt.drop_last() =~= pre);
        assert(nxt.last() == ch);
        if acc > (MAX_VALUE_LEN - d) / 10 {
            proof {
                assert(digits_value(nxt) == acc * 10 + d);
                assert(digits_value(nxt) > MAX_VALUE_LEN);
                assert forall|k: int| 0 <= k < t.len() implies is_digit(#[trigger] t[k]) by {
                    assert(t[k] == s[k + from]);
                }
                assert(t.take(i + 1 - from) =~= nxt);
                lemma_digits_monotone(t, i + 1 - from);
            }
            return None;
        }
        acc = acc * 10 + d;
        i = i + 1;
    }
    Some(acc)
}

/// Parses one `get` line at the start of `inp`: `get` SP key (SP key)* CRLF.
/// On success returns what follows the line and the keys, in order.
pub fn get_command_parser<'a>(inp: &'a str) -> (r: Result<(&'a str, Command), ParseGetCommandError>)
    ensures
        r is Ok <==> get_ok(inp@),
        match r {
            Ok((tail, cmd)) => {
                &&& tail@ == inp@.skip(get_cr(inp@) + 2)
                &&& cmd matches Command::Get(keys) && strings_view(keys@) == split_spaces(get_key_text(inp@))
            },
            Err(e) => get_error_matches(inp@, e),
        },
{
    let ghost s = inp@;
    let n = inp.unicode_len();
    if !(n >= 4 && inp.get_char(0) == 'g' && inp.get_char(1) == 'e' && inp.get_char(2) == 't'
        && inp.get_char(3) == ' ') {
        return Err(ParseGetCommandError::Prefix(owned(inp)));
    }
    let cr = match find_char(inp, n, 4, '\r') {
        Some(p) => p,
        None => {
            return Err(ParseGetCommandError::Unterminated(rest_from(inp, n, 4)));
        },
    };
    let ghost text = s.subrange(4, cr as int);
    let mut keys: Vec<String> = Vec::new();
    let mut all_nonempty = true;
    let mut st: usize = 4;
    let mut i: usize = 4;
    assert(s.subrange(4, 4) =~= Seq::<char>::empty());
    assert(strings_view(keys@).push(s.subrange(4, 4)) =~= seq![Seq::<char>::empty()]);
    while i < cr
        invariant
            4 <= st <= i <= cr < n,
            n == s.len(),
            text == s.subrange(4, cr as int),
            cr == get_cr(s),
            has_word(s, 'g', 'e', 't'),
            s == inp@,
            split_spaces(s.subrange(4, i as int)) == strings_view(keys@).push(
                s.subrange(st as int, i as int),
            ),
            no_control(s.subrange(4, i as int)),
            all_nonempty == (forall|j: int| 0 <= j < keys@.len() ==> (#[trigger] keys@[j])@.len() > 0),
        decreases cr - i,
    {
        let ch = inp.get_char(i);
        let ghost pre = s.subrange(4, i as int);
        let ghost nxt = s.subrange(4, i + 1);
        assert(nxt.drop_last() =~= pre);
        assert(nxt.last() == ch);
        if ch <= '\u{1f}' || ('\u{7f}' <= ch && ch <= '\u{9f}') {
            proof {
                assert(text[i - 4] == ch);
                assert(is_control_char(text[i - 4]));
                assert(text =~= get_key_text(s));
                assert(!no_control(text));
            }
            return Err(ParseGetCommandError::BadKey(rest_from(inp, n, 4)));
        }
        let ghost old_keys = keys@;
        if ch == ' ' {
            let piece = owned(inp.substring_char(st, i));
            all_nonempty = all_nonempty && i > st;
            keys.push(piece);
            proof {
                assert(keys@.len() == old_keys.len() + 1);
                assert(forall|j: int| 0 <= j < old_keys.len() ==> keys@[j] == old_keys[j]);
                assert(keys@[old_keys.len() as int]@ == s.subrange(st as int, i as int));
                assert(strings_view(keys@) =~= strings_view(old_keys).push(s.subrange(st as int, i as int)));
                assert(s.subrange(i + 1, i + 1) =~= Seq::<char>::empty());
            }
            st = i + 1;
        } else {
            proof {
                assert(s.subrange(st as int, i as int).push(ch) =~= s.subrange(st as int, i + 1));
                assert(strings_view(keys@).push(s.subrange(st as int, i as int)).update(
                    keys@.len() as int,
                    s.subrange(st as int, i + 1),
                ) =~= strings_view(keys@).push(s.subrange(st as int, i + 1)));
            }
        }
        proof {
            assert forall|k: int| 0 <= k < nxt.len() implies !is_control_char(#[trigger] nxt[k]) by {
                if k < pre.len() {
                    assert(nxt[k] == pre[k]);
                }
            }
        }
        i = i + 1;
    }
    let last = owned(inp.substring_char(st, cr));
    let ghost before = keys@;
    all_nonempty = all_nonempty && cr > st;
    keys.push(last);
    proof {
        assert(strings_view(keys@) =~= strings_view(before).push(s.subrange(st as int, cr as int)));
        assert(text =~= get_key_text(s));
        assert forall|j: int| 0 <= j < keys@.len() implies (#[trigger] strings_view(keys@)[j]) == keys@[j]@ by {}
        assert(forall|j: int| 0 <= j < before.len() ==> keys@[j] == before[j]);
        assert(keys@[before.len() as int]@ == s.subrange(st as int, cr as int));
    }
    if !all_nonempty {
        proof {
            if cr == st {
                let j = keys@.len() - 1;
                assert(keys@[j]@ == s.subrange(st as int, cr as int));
                assert(split_spaces(text)[j] == keys@[j]@);
            } else {
                let j = choose|j: int| 0 <= j < before.len() && !((#[trigger] before[j])@.len() > 0);
                assert(keys@[j] == before[j]);
                assert(split_spaces(text)[j] == keys@[j]@);
            }
        }
        return Err(ParseGetCommandError::BadKey(rest_from(inp, n, 4)));
    }
    if !(cr + 1 < n && inp.get_char(cr + 1) == '\n') {
        let rest = inp.substring_char(cr, n);
        assert(rest@ =~= s.skip(cr as int));
        return Err(ParseGetCommandError::LineEnding(owned(rest)));
    }
    let tail = inp.substring_char(cr + 2, n);
    assert(tail@ =~= s.skip(cr + 2));
    Ok((tail, Command::Get(keys)))
}

/// Parses one `set` command at the start of `inp`:
/// `set` SP key SP flags SP exptime SP length CRLF payload CRLF, where the payload is exactly
/// `length` bytes of UTF-8. On success returns what follows the command, the key and the payload.
pub fn set_command_parser<'a>(inp: &'a str) -> (r: Result<(&'a str, Command), ParseSetCommandError>)
    ensures
        r is Ok <==> set_ok(inp@),
        match r {
            Ok((tail, cmd)) => {
                &&& tail@ == inp@.skip(payload_end(inp@) + 2)
                &&& cmd matches Command::Store(k, v) && k@ == set_key(inp@) && v@ == set_value(inp@)
            },
            Err(e) => set_error_matches(inp@, e),
        },
{
    let ghost s = inp@;
    let n = inp.unicode_len();
    if !(n >= 4 && inp.get_char(0) == 's' && inp.get_char(1) == 'e' && inp.get_char(2) == 't'
        && inp.get_char(3) == ' ') {
        return Err(ParseSetCommandError::Prefix(owned(inp)));
    }
    let ke = match scan_for(inp, n, 4, ' ', true) {
        Ok(p) => p,
        Err(p) => {
            proof {
                lemma_index_of_le(s.skip(4), ' ');
                assert(s.subrange(4, key_end(s))[p - 4] == s[p as int]);
            }
            return Err(ParseSetCommandError::BadKey(rest_from(inp, n, 4)));
        },
    };
    if ke == 4 || ke == n {
        return Err(ParseSetCommandError::BadKey(rest_from(inp, n, 4)));
    }
    let fe = scan_digits(inp, n, ke + 1);
    if !(fe > ke + 1 && fe < n && inp.get_char(fe) == ' ') {
        return Err(ParseSetCommandError::BadNumber(rest_from(inp, n, ke + 1)));
    }
    let ee = scan_digits(inp, n, fe + 1);
    if !(ee > fe + 1 && ee < n && inp.get_char(ee) == ' ') {
        return Err(ParseSetCommandError::BadNumber(rest_from(inp, n, fe + 1)));
    }
    let le = scan_digits(inp, n, ee + 1);
    if le == ee + 1 {
        return Err(ParseSetCommandError::BadNumber(rest_from(inp, n, ee + 1)));
    }
    let len = match digits_to_len(inp, ee + 1, le) {
        Some(v) => v,
        None => {
            return Err(ParseSetCommandError::TooLarge(rest_from(inp, n, ee + 1)));
        },
    };
    if !(n - le > 1 && inp.get_char(le) == '\r' && inp.get_char(le + 1) == '\n') {
        return Err(ParseSetCommandError::HeaderEnd(rest_from(inp, n, le)));
    }
    let ps = le + 2;
    let ghost area = s.skip(ps as int);
    let mut i: usize = ps;
    let mut acc: usize = 0;
    let mut pe: Option<usize> = if len == 0 {
        Some(ps)
    } else {
        None
    };
    assert(area.take(0) =~= Seq::<char>::empty());
    while i < n && acc < len + 2
        invariant
            ps <= i <= n,
            n == s.len(),
            s == inp@,
            area == s.skip(ps as int),
            len <= MAX_VALUE_LEN,
            acc == bytes_len(area.take(i - ps)),
            acc < len + 6,
            match pe {
                Some(j) => ps <= j <= i && bytes_len(area.take(j - ps)) == len,
                None => forall|j: int| 0 <= j <= i - ps ==> bytes_len(#[trigger] area.take(j)) != len,
            },
        decreases n - i,
    {
        let ch = inp.get_char(i);
        proof {
            assert(area[i - ps] == ch);
            lemma_bytes_step(area, i - ps);
        }
        acc = acc + char_utf8_len(ch);
        i = i + 1;
        if acc == len && pe.is_none() {
            pe = Some(i);
        }
    }
    proof {
        assert(area.len() == n - ps);
    }
    if acc < len + 2 {
        assert(area.take(i - ps) =~= area);
        return Err(ParseSetCommandError::ShortPayload(rest_from(inp, n, ps)));
    }
    proof {
        lemma_bytes_mono(area, i - ps, area.len() as int);
        assert(area.take(area.len() as int) =~= area);
    }
    let pe = match pe {
        Some(j) => j,
        None => {
            proof {
                assert forall|j: int| 0 <= j <= area.len() implies bytes_len(#[trigger] area.take(j)) != len by {
                    if j > i - ps {
                        lemma_bytes_mono(area, i - ps, j);
                    }
                }
            }
            return Err(ParseSetCommandError::Split(rest_from(inp, n, ps)));
        },
    };
    proof {
        lemma_payload_chars(s, pe - ps);
    }
    if !(n - pe > 1 && inp.get_char(pe) == '\r' && inp.get_char(pe + 1) == '\n') {
        return Err(ParseSetCommandError::Terminator(rest_from(inp, n, pe)));
    }
    let key = owned(inp.substring_char(4, ke));
    let value = owned(inp.substring_char(ps, pe));
    let tail = inp.substring_char(pe + 2, n);
    assert(tail@ =~= s.skip(pe + 2));
    Ok((tail, Command::Store(key, value)))
}

/// Parses one command, `get` or `set`, at the start of `input`, and returns what follows it.
pub fn parse_next<'a>(input: &'a str) -> (r: Result<(&'a str, Command), ParseCommandError>)
    ensures
        r is Ok <==> (get_ok(input@) || set_ok(input@)),
        match r {
            Ok((tail, cmd)) => parses_to(input@, cmd) && tail@ == input@.skip(consumed(input@)),
            Err(e) => command_error_matches(input@, e),
        },
{
    match get_command_parser(input) {
        Ok((tail, cmd)) => {
            return Ok((tail, cmd));
        },
        Err(ParseGetCommandError::Prefix(_)) => {},
        Err(e) => {
            return Err(ParseCommandError::ParseGetCommandError(e));
        },
    }
    match set_command_parser(input) {
        Ok((tail, cmd)) => Ok((tail, cmd)),
        Err(ParseSetCommandError::Prefix(_)) => Err(ParseCommandError::Unrecognized(owned(input))),
        Err(e) => Err(ParseCommandError::ParseSetCommandError(e)),
    }
}

/// Parses one command, `get` or `set`, at the start of `input`; what follows it is ignored.
pub fn command_parse(input: &str) -> (r: Result<Command, ParseCommandError>)
    ensures
        r is Ok <==> (get_ok(input@) || set_ok(input@)),
        match r {
            Ok(cmd) => parses_to(input@, cmd),
            Err(e) => command_error_matches(input@, e),
        },
{
    match parse_next(input) {
        Ok((_tail, cmd)) => Ok(cmd),
        Err(e) => Err(e),
    }
}

/// A key as the grammar admits it: non-empty, with no space and no control character.
pub open spec fn is_key(w: Seq<char>) -> bool {
    w.len() > 0 && no_control(w) && !w.contains(' ')
}

proof fn lemma_split_word(w: Seq<char>)
    requires
        !w.contains(' '),
    ensures
        split_spaces(w) == seq![w],
    decreases w.len(),
{
    if w.len() > 0 {
        let d = w.drop_last();
        assert(!d.contains(' ')) by {
            if d.contains(' ') {
                let i = choose|i: int| 0 <= i < d.len() && d[i] == ' ';
                assert(w[i] == ' ');
            }
        }
        lemma_split_word(d);
        assert(w.last() != ' ') by {
            assert(w[w.len() - 1] == w.last());
        }
        assert(d.push(w.last()) =~= w);
        assert(split_spaces(w) =~= seq![w]);
    } else {
        assert(w =~= Seq::<char>::empty());
    }
}

proof fn lemma_split_append(x: Seq<char>, w: Seq<char>)
    requires
        !w.contains(' '),
    ensures
        split_spaces(x + seq![' '] + w) == split_spaces(x).push(w),
    decreases w.len(),
{
    let s = x + seq![' '] + w;
    if w.len() == 0 {
        assert(s.drop_last() =~= x);
        assert(w =~= Seq::<char>::empty());
    } else {
        let d = w.drop_last();
        assert(!d.contains(' ')) by {
            if d.contains(' ') {
                let i = choose|i: int| 0 <= i < d.len() && d[i] == ' ';
                assert(w[i] == ' ');
            }
        }
        lemma_split_append(x, d);
        assert(s.drop_last() =~= x + seq![' '] + d);
        assert(s.last() == w.last());
        assert(w.last() != ' ') by {
            assert(w[w.len() - 1] == w.last());
        }
        assert(d.push(w.last()) =~= w);
        assert(split_spaces(s) =~= split_spaces(x).push(w));
    }
}

proof fn lemma_join_words(ks: Seq<Seq<char>>)
    requires
        ks.len() >= 1,
        forall|i: int| 0 <= i < ks.len() ==> is_key(#[trigger] ks[i]),
    ensures
        split_spaces(join_words(ks)) == ks,
        no_control(join_words(ks)),
        !join_words(ks).contains('\r'),
    decreases ks.len(),
{
    let j = join_words(ks);
    if ks.len() == 1 {
        assert(is_key(ks[0]));
        lemma_split_word(ks[0]);
        assert(seq![ks[0]] =~= ks);
    } else {
        let d = ks.drop_last();
        assert forall|i: int| 0 <= i < d.len() implies is_key(#[trigger] d[i]) by {
            assert(d[i] == ks[i]);
        }
        lemma_join_words(d);
        let w = ks.last();
        assert(is_key(ks[ks.len() - 1]));
        lemma_split_append(join_words(d), w);
        assert(d.push(w) =~= ks);
        let a = join_words(d);
        assert forall|i: int| 0 <= i < j.len() implies !is_control_char(#[trigger] j[i]) by {
            if i < a.len() {
                assert(j[i] == a[i]);
            } else if i > a.len() {
                assert(j[i] == w[i - a.len() - 1]);
            }
        }
        assert(!j.contains('\r')) by {
            if j.contains('\r') {
                let i = choose|i: int| 0 <= i < j.len() && j[i] == '\r';
                assert(!is_control_char(j[i]));
            }
        }
    }
}

/// A `get` line written from any non-empty list of keys parses back to those keys, in order,
/// and leaves what follows the line untouched.
pub proof fn lemma_get_line_parses(ks: Seq<Seq<char>>, tail: Seq<char>)
    requires
        ks.len() >= 1,
        forall|i: int| 0 <= i < ks.len() ==> is_key(#[trigger] ks[i]),
    ensures
        ({
            let s = seq!['g', 'e', 't', ' '] + join_words(ks) + seq!['\r', '\n'] + tail;
            &&& get_ok(s)
            &&& get_keys(s) == ks
            &&& s.skip(get_cr(s) + 2) == tail
        }),
{
    let j = join_words(ks);
    let s = seq!['g', 'e', 't', ' '] + j + seq!['\r', '\n'] + tail;
    lemma_join_words(ks);
    let r = s.skip(4);
    assert forall|k: int| 0 <= k < j.len() implies r[k] != '\r' by {
        assert(r[k] == j[k]);
        assert(!is_control_char(j[k]));
    }
    assert(r[j.len() as int] == '\r');
    lemma_index_of(r, '\r', j.len() as int);
    assert(get_key_text(s) =~= j);
    assert(s[get_cr(s) + 1] == '\n');
    assert(s.skip(get_cr(s) + 2) =~= tail);
}

pub open spec fn all_digits(w: Seq<char>) -> bool {
    forall|i: int| 0 <= i < w.len() ==> is_digit(#[trigger] w[i])
}

/// The run of digits `w` stands at `at` in `s` and is followed by a non-digit.
proof fn lemma_digit_field(s: Seq<char>, at: int, w: Seq<char>)
    requires
        0 <= at,
        at + w.len() < s.len(),
        s.subrange(at, at + w.len()) == w,
        all_digits(w),
        !is_digit(s[at + w.len()]),
    ensures
        digit_run(s.skip(at)) == w.len(),
{
    let r = s.skip(at);
    assert forall|k: int| 0 <= k < w.len() implies is_digit(r[k]) by {
        assert(r[k] == s.subrange(at, at + w.len())[k]);
    }
    assert(r[w.len() as int] == s[at + w.len()]);
    lemma_digit_run(r, w.len() as int);
}

proof fn lemma_payload_followed_by_crlf(s: Seq<char>, p: Seq<char>, tail: Seq<char>)
    requires
        payload_area(s) == p + seq!['\r', '\n'] + tail,
        declared_len(s) == bytes_len(p),
    ensures
        !payload_short(s),
        payload_fits(s),
        payload_chars(s) == p.len(),
{
    let a = payload_area(s);
    assert(a.take(p.len() as int) =~= p);
    lemma_bytes_step(a, p.len() as int);
    lemma_bytes_step(a, p.len() as int + 1);
    assert(a[p.len() as int] == '\r');
    assert(a[p.len() as int + 1] == '\n');
    lemma_bytes_mono(a, p.len() as int + 2, a.len() as int);
    assert(a.take(a.len() as int) =~= a);
    lemma_payload_chars(s, p.len() as int);
}

/// The header line of a `set` command built from its fields.
pub open spec fn set_header(k: Seq<char>, f: Seq<char>, e: Seq<char>, d: Seq<char>) -> Seq<char> {
    seq!['s', 'e', 't', ' '] + k + seq![' '] + f + seq![' '] + e + seq![' '] + d + seq!['\r', '\n']
}

proof fn lemma_set_header(k: Seq<char>, f: Seq<char>, e: Seq<char>, d: Seq<char>, rest: Seq<char>)
    requires
        is_key(k),
        f.len() > 0 && all_digits(f),
        e.len() > 0 && all_digits(e),
        d.len() > 0 && all_digits(d),
        digits_value(d) <= MAX_VALUE_LEN,
    ensures
        ({
            let s = set_header(k, f, e, d) + rest;
            &&& set_header_ok(s)
            &&& set_key(s) == k
            &&& declared_len(s) == digits_value(d)
            &&& payload_start(s) == set_header(k, f, e, d).len()
            &&& payload_area(s) == rest
        }),
{
    let s = set_header(k, f, e, d) + rest;
    let ke: int = 4 + k.len() as int;
    let fe: int = ke + 1 + f.len() as int;
    let ee: int = fe + 1 + e.len() as int;
    let le: int = ee + 1 + d.len() as int;
    let r = s.skip(4);
    assert forall|x: int| 0 <= x < k.len() implies r[x] != ' ' by {
        assert(r[x] == k[x]);
    }
    assert(r[k.len() as int] == ' ');
    lemma_index_of(r, ' ', k.len() as int);
    assert(key_end(s) == ke);
    assert(s.subrange(4, ke) =~= k);
    assert(s.subrange(ke + 1, fe) =~= f);
    assert(s[fe] == ' ');
    lemma_digit_field(s, ke + 1, f);
    assert(s.subrange(fe + 1, ee) =~= e);
    assert(s[ee] == ' ');
    lemma_digit_field(s, fe + 1, e);
    assert(s.subrange(ee + 1, le) =~= d);
    assert(s[le] == '\r');
    assert(s[le + 1] == '\n');
    lemma_digit_field(s, ee + 1, d);
    assert(length_end(s) == le);
    assert(payload_area(s) =~= rest);
}

/// A `set` command whose payload takes exactly as many bytes as its length field says parses to
/// its key and that payload, and leaves what follows the command untouched.
pub proof fn lemma_set_command_parses(
    k: Seq<char>,
    f: Seq<char>,
    e: Seq<char>,
    d: Seq<char>,
    p: Seq<char>,
    tail: Seq<char>,
)
    requires
        is_key(k),
        f.len() > 0 && all_digits(f),
        e.len() > 0 && all_digits(e),
        d.len() > 0 && all_digits(d),
        digits_value(d) == bytes_len(p),
        bytes_len(p) <= MAX_VALUE_LEN,
    ensures
        ({
            let s = set_header(k, f, e, d) + p + seq!['\r', '\n'] + tail;
            &&& set_ok(s)
            &&& set_key(s) == k
            &&& set_value(s) == p
            &&& s.skip(payload_end(s) + 2) == tail
        }),
{
    let h = set_header(k, f, e, d);
    let rest = p + seq!['\r', '\n'] + tail;
    let s = h + p + seq!['\r', '\n'] + tail;
    assert(s =~= h + rest);
    lemma_set_header(k, f, e, d, rest);
    lemma_payload_followed_by_crlf(s, p, tail);
    let ps: int = h.len() as int;
    let pe: int = ps + p.len() as int;
    assert(payload_end(s) == pe);
    assert(s.subrange(ps, pe) =~= p);
    assert(s[pe] == '\r');
    assert(s[pe + 1] == '\n');
    assert(s.skip(pe + 2) =~= tail);
}

/// A `set` command whose payload, CRLF included, takes fewer bytes than its length field and
/// the CRLF need does not parse: more input is needed.
pub proof fn lemma_set_short_payload(
    k: Seq<char>,
    f: Seq<char>,
    e: Seq<char>,
    d: Seq<char>,
    p: Seq<char>,
)
    requires
        is_key(k),
        f.len() > 0 && all_digits(f),
        e.len() > 0 && all_digits(e),
        d.len() > 0 && all_digits(d),
        digits_value(d) <= MAX_VALUE_LEN,
        bytes_len(p) < digits_value(d),
    ensures
        ({
            let s = set_header(k, f, e, d) + p + seq!['\r', '\n'];
            &&& payload_short(s)
            &&& !set_ok(s)
        }),
{
    let h = set_header(k, f, e, d);
    let rest = p + seq!['\r', '\n'];
    let s = h + p + seq!['\r', '\n'];
    assert(s =~= h + rest);
    lemma_set_header(k, f, e, d, rest);
    assert(rest.take(p.len() as int) =~= p);
    lemma_bytes_step(rest, p.len() as int);
    lemma_bytes_step(rest, p.len() as int + 1);
    assert(rest.take(rest.len() as int) =~= rest);
}

} // verus!
