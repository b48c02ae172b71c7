use vstd::prelude::*;

use crate::parser::{bytes_len, text_bytes_len};

verus! {

broadcast use vstd::string::group_string_axioms;

/// A parsed client request.
#[derive(Debug, PartialEq, Eq)]
pub enum Command {
    /// Look up each key, in order; duplicates are kept.
    Get(Vec<String>),
    /// Store one value under one key.
    Store(String, String),
}

/// The character views of a sequence of strings.
pub open spec fn strings_view(v: Seq<String>) -> Seq<Seq<char>> {
    v.map_values(|k: String| k@)
}

/// The words of `ks` joined by single spaces.
pub open spec fn join_words(ks: Seq<Seq<char>>) -> Seq<char>
    decreases ks.len(),
{
    if ks.len() == 0 {
        Seq::empty()
    } else if ks.len() == 1 {
        ks[0]
    } else {
        join_words(ks.drop_last()) + seq![' '] + ks.last()
    }
}

pub open spec fn digit_char(d: nat) -> char {
    if d == 0 { '0' } else if d == 1 { '1' } else if d == 2 { '2' } else if d == 3 { '3' } else if d
        == 4 { '4' } else if d == 5 { '5' } else if d == 6 { '6' } else if d == 7 { '7' } else if d
        == 8 { '8' } else { '9' }
}

/// The decimal digits of `n`, most significant first.
pub open spec fn decimal(n: nat) -> Seq<char>
    decreases n,
{
    if n < 10 {
        seq![digit_char(n)]
    } else {
        decimal(n / 10).push(digit_char(n % 10))
    }
}

/// The request text that a command is written as.
pub open spec fn command_text(c: Command) -> Seq<char> {
    match c {
        Command::Get(keys) => seq!['g', 'e', 't', ' '] + join_words(strings_view(keys@)) + seq![
            '\r',
            '\n',
        ],
        Command::Store(k, v) => seq!['s', 'e', 't', ' '] + k@ + seq![' ', '1', ' ', '2', ' ']
            + decimal(bytes_len(v@) as nat) + seq![' '] + v@ + seq!['\r', '\n'],
    }
}

/// Appends the decimal digits of `n` to `out`.
fn append_decimal(out: &mut String, n: usize)
    ensures
        final(out)@ == old(out)@ + decimal(n as nat),
    decreases n,
{
    if n >= 10 {
        append_decimal(out, n / 10);
    }
    let d = n % 10;
    let digits = "0123456789";
    proof {
        reveal_strlit("0123456789");
    }
    let ch = digits.substring_char(d, d + 1);
    assert(ch@ =~= seq![digit_char(d as nat)]);
    out.append(ch);
    assert(final(out)@ =~= old(out)@ + decimal(n as nat));
}

impl Command {
    /// The request text of this command; a value's length is written in UTF-8 bytes.
    pub fn to_string_command(&self) -> (r: String)
        requires
            self matches Command::Store(_, v) ==> bytes_len(v@) <= usize::MAX,
        ensures
            r@ == command_text(*self),
    {
        match self {
            Command::Get(keys) => {
                proof {
                    reveal_strlit("get ");
                    reveal_strlit(" ");
                    reveal_strlit("\r\n");
                }
                let mut out = owned("get ");
                let ghost start = out@;
                let mut i: usize = 0;
                assert(strings_view(keys@).take(0) =~= Seq::<Seq<char>>::empty());
                while i < keys.len()
                    invariant
                        i <= keys@.len(),
                        start == seq!['g', 'e', 't', ' '],
                        out@ == start + join_words(strings_view(keys@).take(i as int)),
                        " "@ == seq![' '],
                    decreases keys@.len() - i,
                {
                    let ghost ks = strings_view(keys@);
                    assert(ks.take(i + 1).drop_last() =~= ks.take(i as int));
                    assert(ks.take(i + 1).last() == keys@[i as int]@);
                    if i > 0 {
                        out.append(" ");
                    }
                    out.append(keys[i].as_str());
                    proof {
                        if i == 0 {
                            assert(ks.take(1) =~= seq![ks[0]]);
                        }
                    }
                    assert(out@ =~= start + join_words(ks.take(i + 1)));
                    i = i + 1;
                }
                assert(strings_view(keys@).take(keys@.len() as int) =~= strings_view(keys@));
                out.append("\r\n");
                assert(out@ =~= command_text(*self));
                out
            },
            Command::Store(k, v) => {
                proof {
                    reveal_strlit("set ");
                    reveal_strlit(" 1 2 ");
                    reveal_strlit(" ");
                    reveal_strlit("\r\n");
                }
                let mut out = owned("set ");
                out.append(k.as_str());
                out.append(" 1 2 ");
                append_decimal(&mut out, text_bytes_len(v.as_str()));
                out.append(" ");
                out.append(v.as_str());
                out.append("\r\n");
                assert(out@ =~= command_text(*self));
                out
            },
        }
    }
}

/// An owned copy of `s`.
pub(crate) fn owned(s: &str) -> (r: String)
    ensures
        r@ == s@,
{
    s.to_string()
}

} // verus!
