use vstd::prelude::*;
use vstd::utf8::{decode_utf8, valid_utf8};

use crate::command::{owned, Command};
use crate::parser::{
    consumed, find_char, get_ok, index_of, lemma_index_of_bounds, parse_next, payload_area,
    payload_chars, payload_fits, parses_to, payload_short, set_command_parser,
    set_header_ok, set_ok, ParseSetCommandError,
};
use crate::server::{parse_error_line, parse_error_reply};

verus! {

/// Largest number of bytes read from a connection at once.
pub const MAX_MESSAGE_SIZE: usize = 1024;

/// Milliseconds after acceptance at which a connection is closed.
pub const TCP_TIMEOUT_MS: u64 = 1000;

/// What one attempt to read from the socket gave.
#[derive(Debug)]
pub enum ReadEvent {
    /// Bytes arrived; none means the peer closed the connection.
    Bytes(Vec<u8>),
    /// Nothing is ready yet.
    Pending,
    /// The read failed.
    Failed,
}

/// What the connection handler does next.
#[derive(Debug)]
pub enum Step {
    /// Run the commands in order, writing each response; then write `error_reply`, if any.
    Process { commands: Vec<Command>, error_reply: Option<String> },
    /// Write this text, then close the connection.
    ReplyAndClose(String),
    /// Yield, then read again.
    Retry,
    /// Close the connection without a reply.
    Close,
}

/// The state of one accepted connection.
#[derive(Debug)]
pub struct Connection {
    pub opened_at_ms: u64,
    pub timeout_ms: u64,
    /// Text received that does not yet form a complete command.
    pub buffer: String,
}

/// Relies on std::str::from_utf8: it succeeds exactly on valid UTF-8, giving the text encoded.
#[verifier::external_body]
fn decode_text(b: &[u8]) -> (r: Option<&str>)
    ensures
        r is Some <==> valid_utf8(b@),
        r matches Some(t) ==> t@ == decode_utf8(b@),
{
    std::str::from_utf8(b).ok()
}

/// `s` holds no complete command yet: no line in it has ended, or the payload of its `set`
/// command has not all arrived.
pub open spec fn incomplete(s: Seq<char>) -> bool {
    ||| index_of(s, '\r') + 1 >= s.len()
    ||| set_header_ok(s) && payload_short(s)
}

/// Splitting `buf` gives the commands `cmds`, in order, then either the incomplete rest `rest`,
/// or (`failed`) input that does not parse, which is dropped.
pub open spec fn frames(buf: Seq<char>, cmds: Seq<Command>, rest: Seq<char>, failed: bool) -> bool
    decreases cmds.len(),
{
    if cmds.len() == 0 {
        if incomplete(buf) {
            !failed && rest == buf
        } else {
            failed && rest == Seq::<char>::empty() && !(get_ok(buf) || set_ok(buf))
        }
    } else {
        &&& !incomplete(buf)
        &&& parses_to(buf, cmds[0])
        &&& 0 < consumed(buf) <= buf.len()
        &&& frames(buf.skip(consumed(buf)), cmds.skip(1), rest, failed)
    }
}

fn is_incomplete(s: &str) -> (r: bool)
    ensures
        r == incomplete(s@),
{
    let n = s.unicode_len();
    proof {
        assert(s@.skip(0) =~= s@);
    }
    match find_char(s, n, 0, '\r') {
        None => {
            return true;
        },
        Some(p) => {
            if p + 1 >= n {
                return true;
            }
        },
    }
    match set_command_parser(s) {
        Err(ParseSetCommandError::ShortPayload(_)) => true,
        _ => false,
    }
}

/// Takes every complete command from the start of `text`, in order, appending them to `out`.
fn frame_all<'a>(text: &'a str, out: &mut Vec<Command>) -> (r: (&'a str, bool))
    ensures
        final(out)@.len() >= old(out)@.len(),
        final(out)@.take(old(out)@.len() as int) == old(out)@,
        frames(text@, final(out)@.skip(old(out)@.len() as int), r.0@, r.1),
    decreases text@.len(),
{
    if is_incomplete(text) {
        assert(out@.skip(out@.len() as int) =~= Seq::<Command>::empty());
        assert(out@.take(out@.len() as int) =~= out@);
        return (text, false);
    }
    match parse_next(text) {
        Ok((tail, cmd)) => {
            let ghost before = out@;
            proof {
                match cmd {
                    Command::Get(_) => {
                        lemma_index_of_bounds(text@.skip(4), '\r');
                    },
                    Command::Store(_, _) => {
                        assert(text@[0] == 's');
                        assert(payload_fits(text@));
                        assert(0 <= payload_chars(text@) <= payload_area(text@).len());
                    },
                }
            }
            out.push(cmd);
            let r = frame_all(tail, out);
            proof {
                let k = before.len() as int;
                let cmds = out@.skip(k);
                assert(out@.take(k + 1) =~= before.push(cmd));
                assert(cmds[0] == out@.take(k + 1)[k]);
                assert(cmds.skip(1) =~= out@.skip(k + 1));
                assert(out@.take(k) =~= out@.take(k + 1).take(k));
            }
            r
        },
        Err(_) => {
            proof {
                reveal_strlit("");
            }
            assert(out@.skip(out@.len() as int) =~= Seq::<Command>::empty());
            assert(out@.take(out@.len() as int) =~= out@);
            assert(""@ =~= Seq::<char>::empty());
            ("", true)
        },
    }
}

impl Connection {
    /// A connection accepted at `now_ms`, with nothing received yet.
    pub fn new(now_ms: u64, timeout_ms: u64) -> (r: Connection)
        ensures
            r.opened_at_ms == now_ms,
            r.timeout_ms == timeout_ms,
            r.buffer@ == Seq::<char>::empty(),
    {
        Connection { opened_at_ms: now_ms, timeout_ms, buffer: String::new() }
    }

    /// The connection's time budget, counted from acceptance, is spent at `now_ms`.
    pub open spec fn expired_at(&self, now_ms: u64) -> bool {
        now_ms as int - self.opened_at_ms as int >= self.timeout_ms as int
    }

    pub fn is_expired(&self, now_ms: u64) -> (r: bool)
        ensures
            r == self.expired_at(now_ms),
    {
        now_ms >= self.opened_at_ms && now_ms - self.opened_at_ms >= self.timeout_ms
    }

    /// Decides what to do with one read made at `now_ms`. New text joins what was left over,
    /// and every complete command in it comes out, in arrival order; an incomplete rest is kept.
    pub fn on_event(&mut self, now_ms: u64, ev: ReadEvent) -> (r: Step)
        ensures
            final(self).opened_at_ms == old(self).opened_at_ms,
            final(self).timeout_ms == old(self).timeout_ms,
            old(self).expired_at(now_ms) ==> r is Close && final(self).buffer == old(self).buffer,
            !old(self).expired_at(now_ms) ==> match ev {
                ReadEvent::Pending => r is Retry && final(self).buffer == old(self).buffer,
                ReadEvent::Failed => r is Close && final(self).buffer == old(self).buffer,
                ReadEvent::Bytes(b) => {
                    if b@.len() == 0 {
                        r is Close && final(self).buffer == old(self).buffer
                    } else if !valid_utf8(b@) {
                        &&& r matches Step::ReplyAndClose(t) && t@ == parse_error_line()
                        &&& final(self).buffer == old(self).buffer
                    } else {
                        r matches Step::Process { commands, error_reply } && {
                            &&& frames(
                                old(self).buffer@ + decode_utf8(b@),
                                commands@,
                                final(self).buffer@,
                                error_reply is Some,
                            )
                            &&& error_reply matches Some(t) ==> t@ == parse_error_line()
                        }
                    }
                },
            },
    {
        if self.is_expired(now_ms) {
            return Step::Close;
        }
        match ev {
            ReadEvent::Pending => Step::Retry,
            ReadEvent::Failed => Step::Close,
            ReadEvent::Bytes(b) => {
                if b.len() == 0 {
                    return Step::Close;
                }
                match decode_text(b.as_slice()) {
                    None => Step::ReplyAndClose(parse_error_reply()),
                    Some(text) => {
                        self.buffer.append(text);
                        let mut commands: Vec<Command> = Vec::new();
                        let (rest, failed) = frame_all(self.buffer.as_str(), &mut commands);
                        let left = owned(rest);
                        assert(commands@.skip(0) =~= commands@);
                        self.buffer = left;
                        let error_reply = if failed {
                            Some(parse_error_reply())
                        } else {
                            None
                        };
                        Step::Process { commands, error_reply }
                    },
                }
            },
        }
    }
}

/// Decides whether a client's connection or request is let in; an implementation may keep
/// history of earlier requests in `self`.
pub trait Admission {
    /// Whether this policy, in its present state, lets in the client at `now_ms`.
    spec fn permits(&self, client_ip: u128, client_port: u16, now_ms: u64) -> bool;

    fn permit(&mut self, client_ip: u128, client_port: u16, now_ms: u64) -> (r: bool)
        ensures
            r == old(self).permits(client_ip, client_port, now_ms),
    ;
}

/// The policy that lets every client in.
#[derive(Debug, Clone, Copy, Default)]
pub struct AlwaysAdmit;

impl Admission for AlwaysAdmit {
    open spec fn permits(&self, client_ip: u128, client_port: u16, now_ms: u64) -> bool {
        true
    }

    fn permit(&mut self, client_ip: u128, client_port: u16, now_ms: u64) -> (r: bool) {
        true
    }
}

} // verus!
