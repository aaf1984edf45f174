//! The command surface: typed commands, the exact shape of the array
//! frames that encode them, and their effect on the store.
//!
//! `spec_command` is the defining description of the command grammar
//! over decoded frames; `Command::from_frame` is proved against it.
//! Command names are matched case-insensitively; `EX`/`PX` options
//! too. An unrecognized name parses as `Unknown` (its response is an
//! error, but the connection lives on); a malformed shape is rejected
//! and the connection must close.

use crate::db::{history_of, key_named, receivers_of, spec_get, spec_when, Db, EntryV};
use crate::frame::{Frame, FrameV};
use crate::parser::{token_bytes, token_int, token_string, Parser, ParserError};
use crate::util::{bytes_eq, clone_bytes, extend_bytes, lower_ascii, to_lower};
use vstd::prelude::*;

verus! {

broadcast use vstd::std_specs::vec::group_vec_axioms;

/// Get the value of a key.
pub struct Get {
    pub key: Vec<u8>,
}

/// Set a key to a value, with an optional TTL in milliseconds.
pub struct SetCmd {
    pub key: Vec<u8>,
    pub value: Vec<u8>,
    pub expire: Option<u64>,
}

/// Delete one or more keys.
pub struct Del {
    pub keys: Vec<Vec<u8>>,
}

/// Publish a message to a channel.
pub struct Publish {
    pub channel: Vec<u8>,
    pub message: Vec<u8>,
}

/// Subscribe to one or more channels.
pub struct Subscribe {
    pub channels: Vec<Vec<u8>>,
}

/// Unsubscribe from the listed channels, or from all of them when the
/// list is empty.
pub struct Unsubscribe {
    pub channels: Vec<Vec<u8>>,
}

/// Liveness probe: answered with `PONG`, or echoed with its payload.
pub struct Ping {
    pub msg: Option<Vec<u8>>,
}

/// A command whose name is not recognized.
pub struct Unknown {
    pub cmd_name: Vec<u8>,
}

/// A parsed command.
pub enum Command {
    Get(Get),
    SetCmd(SetCmd),
    Del(Del),
    Publish(Publish),
    Subscribe(Subscribe),
    Unsubscribe(Unsubscribe),
    Ping(Ping),
    Unknown(Unknown),
}

/// The mathematical value of a command.
pub enum CommandV {
    Get { key: Seq<u8> },
    SetCmd { key: Seq<u8>, value: Seq<u8>, expire: Option<u64> },
    Del { keys: Seq<Seq<u8>> },
    Publish { channel: Seq<u8>, message: Seq<u8> },
    Subscribe { channels: Seq<Seq<u8>> },
    Unsubscribe { channels: Seq<Seq<u8>> },
    Ping { msg: Option<Seq<u8>> },
    Unknown { name: Seq<u8> },
}

/// The models of a list of byte strings.
pub open spec fn names_view(v: Vec<Vec<u8>>) -> Seq<Seq<u8>> {
    Seq::new(v@.len(), |i: int| v@[i]@)
}

/// Model of a command.
pub open spec fn cmd_view(c: Command) -> CommandV {
    match c {
        Command::Get(g) => CommandV::Get { key: g.key@ },
        Command::SetCmd(s) => CommandV::SetCmd { key: s.key@, value: s.value@, expire: s.expire },
        Command::Del(d) => CommandV::Del { keys: names_view(d.keys) },
        Command::Publish(p) => CommandV::Publish { channel: p.channel@, message: p.message@ },
        Command::Subscribe(s) => CommandV::Subscribe { channels: names_view(s.channels) },
        Command::Unsubscribe(u) => CommandV::Unsubscribe { channels: names_view(u.channels) },
        Command::Ping(p) => CommandV::Ping {
            msg: match p.msg {
                Option::Some(m) => Option::Some(m@),
                Option::None => Option::None,
            },
        },
        Command::Unknown(u) => CommandV::Unknown { name: u.cmd_name@ },
    }
}

// Command and option names, as lowercase ASCII bytes.
pub open spec fn name_get() -> Seq<u8> {
    seq![103u8, 101u8, 116u8]
}

pub open spec fn name_set() -> Seq<u8> {
    seq![115u8, 101u8, 116u8]
}

pub open spec fn name_del() -> Seq<u8> {
    seq![100u8, 101u8, 108u8]
}

pub open spec fn name_publish() -> Seq<u8> {
    seq![112u8, 117u8, 98u8, 108u8, 105u8, 115u8, 104u8]
}

pub open spec fn name_subscribe() -> Seq<u8> {
    seq![115u8, 117u8, 98u8, 115u8, 99u8, 114u8, 105u8, 98u8, 101u8]
}

pub open spec fn name_unsubscribe() -> Seq<u8> {
    seq![117u8, 110u8, 115u8, 117u8, 98u8, 115u8, 99u8, 114u8, 105u8, 98u8, 101u8]
}

pub open spec fn name_ping() -> Seq<u8> {
    seq![112u8, 105u8, 110u8, 103u8]
}

pub open spec fn opt_ex() -> Seq<u8> {
    seq![101u8, 120u8]
}

pub open spec fn opt_px() -> Seq<u8> {
    seq![112u8, 120u8]
}

/// Every token from `from` on reads as a string.
pub open spec fn all_strings(items: Seq<FrameV>, from: int) -> bool {
    forall|i: int| from <= i < items.len() ==> token_string(#[trigger] items[i]) is Some
}

/// The strings of the tokens from `from` on.
pub open spec fn strings_of(items: Seq<FrameV>, from: int) -> Seq<Seq<u8>> {
    Seq::new((items.len() - from) as nat, |i: int| token_string(items[from + i])->Some_0)
}

/// Seconds to milliseconds, saturating at the largest instant.
pub open spec fn spec_secs_to_ms(s: u64) -> u64 {
    if s > u64::MAX / 1000 {
        u64::MAX
    } else {
        (s * 1000) as u64
    }
}

/// The reading of `GET key`.
pub open spec fn spec_get_cmd(items: Seq<FrameV>) -> Option<CommandV> {
    if items.len() == 2 {
        match token_string(items[1]) {
            Option::Some(k) => Option::Some(CommandV::Get { key: k }),
            Option::None => Option::None,
        }
    } else {
        Option::None
    }
}

/// The reading of `SET key value [EX secs | PX ms]`. An option other
/// than `EX`/`PX` rejects the whole command (a fatal protocol error).
pub open spec fn spec_set_cmd(items: Seq<FrameV>) -> Option<CommandV> {
    if items.len() < 3 {
        Option::None
    } else {
        match (token_string(items[1]), token_bytes(items[2])) {
            (Option::Some(k), Option::Some(v)) => {
                if items.len() == 3 {
                    Option::Some(CommandV::SetCmd { key: k, value: v, expire: Option::None })
                } else {
                    match token_string(items[3]) {
                        Option::None => Option::None,
                        Option::Some(o) => {
                            let ol = lower_ascii(o);
                            if ol == opt_ex() {
                                if items.len() == 5 {
                                    match token_int(items[4]) {
                                        Option::Some(s) => Option::Some(
                                            CommandV::SetCmd {
                                                key: k,
                                                value: v,
                                                expire: Option::Some(spec_secs_to_ms(s)),
                                            },
                                        ),
                                        Option::None => Option::None,
                                    }
                                } else {
                                    Option::None
                                }
                            } else if ol == opt_px() {
                                if items.len() == 5 {
                                    match token_int(items[4]) {
                                        Option::Some(ms) => Option::Some(
                                            CommandV::SetCmd {
                                                key: k,
                                                value: v,
                                                expire: Option::Some(ms),
                                            },
                                        ),
                                        Option::None => Option::None,
                                    }
                                } else {
                                    Option::None
                                }
                            } else {
                                Option::None
                            }
                        },
                    }
                }
            },
            _ => Option::None,
        }
    }
}

/// The reading of `PUBLISH channel message`.
pub open spec fn spec_publish_cmd(items: Seq<FrameV>) -> Option<CommandV> {
    if items.len() == 3 {
        match (token_string(items[1]), token_bytes(items[2])) {
            (Option::Some(c), Option::Some(m)) => Option::Some(
                CommandV::Publish { channel: c, message: m },
            ),
            _ => Option::None,
        }
    } else {
        Option::None
    }
}

/// The reading of `PING [msg]`.
pub open spec fn spec_ping_cmd(items: Seq<FrameV>) -> Option<CommandV> {
    if items.len() == 1 {
        Option::Some(CommandV::Ping { msg: Option::None })
    } else if items.len() == 2 {
        match token_bytes(items[1]) {
            Option::Some(m) => Option::Some(CommandV::Ping { msg: Option::Some(m) }),
            Option::None => Option::None,
        }
    } else {
        Option::None
    }
}

/// The one reading of a token list as a command. `None` rejects the
/// frame; the connection closes. An unknown name is a command in its
/// own right, whatever follows it.
pub open spec fn spec_command(items: Seq<FrameV>) -> Option<CommandV> {
    if items.len() == 0 {
        Option::None
    } else {
        match token_string(items[0]) {
            Option::None => Option::None,
            Option::Some(raw) => {
                let name = lower_ascii(raw);
                if name == name_get() {
                    spec_get_cmd(items)
                } else if name == name_set() {
                    spec_set_cmd(items)
                } else if name == name_del() {
                    if items.len() >= 2 && all_strings(items, 1) {
                        Option::Some(CommandV::Del { keys: strings_of(items, 1) })
                    } else {
                        Option::None
                    }
                } else if name == name_publish() {
                    spec_publish_cmd(items)
                } else if name == name_subscribe() {
                    if items.len() >= 2 && all_strings(items, 1) {
                        Option::Some(CommandV::Subscribe { channels: strings_of(items, 1) })
                    } else {
                        Option::None
                    }
                } else if name == name_unsubscribe() {
                    if all_strings(items, 1) {
                        Option::Some(CommandV::Unsubscribe { channels: strings_of(items, 1) })
                    } else {
                        Option::None
                    }
                } else if name == name_ping() {
                    spec_ping_cmd(items)
                } else {
                    Option::Some(CommandV::Unknown { name: name })
                }
            },
        }
    }
}

// ---------------------------------------------------------------------
// Byte constants for names and responses
// ---------------------------------------------------------------------

pub open spec fn ok_bytes() -> Seq<u8> {
    seq![79u8, 75u8]
}

pub open spec fn pong_bytes() -> Seq<u8> {
    seq![80u8, 79u8, 78u8, 71u8]
}

/// The text `ERR unknown command '`.
pub open spec fn err_unknown_prefix() -> Seq<u8> {
    seq![
        69u8,
        82u8,
        82u8,
        32u8,
        117u8,
        110u8,
        107u8,
        110u8,
        111u8,
        119u8,
        110u8,
        32u8,
        99u8,
        111u8,
        109u8,
        109u8,
        97u8,
        110u8,
        100u8,
        32u8,
        39u8,
    ]
}

/// The error text for an unrecognized command name.
pub open spec fn spec_err_unknown(name: Seq<u8>) -> Seq<u8> {
    err_unknown_prefix() + name + seq![39u8]
}

/// The error text for `UNSUBSCRIBE` outside a subscribe session.
pub open spec fn unsub_context_bytes() -> Seq<u8> {
    seq![69u8, 82u8, 82u8, 32u8, 117u8, 110u8, 115u8, 117u8, 98u8, 115u8, 99u8, 114u8, 105u8, 98u8, 101u8, 32u8, 105u8, 115u8, 32u8, 117u8, 110u8, 115u8, 117u8, 112u8, 112u8, 111u8, 114u8, 116u8, 101u8, 100u8, 32u8, 105u8, 110u8, 32u8, 116u8, 104u8, 105u8, 115u8, 32u8, 99u8, 111u8, 110u8, 116u8, 101u8, 120u8, 116u8]
}

/// Bytes of the `UNSUBSCRIBE`-out-of-context error.
pub(crate) fn unsub_context_msg() -> (v: Vec<u8>)
    ensures
        v@ == unsub_context_bytes(),
{
    let v: Vec<u8> = vec![69u8, 82u8, 82u8, 32u8, 117u8, 110u8, 115u8, 117u8, 98u8, 115u8, 99u8, 114u8, 105u8, 98u8, 101u8, 32u8, 105u8, 115u8, 32u8, 117u8, 110u8, 115u8, 117u8, 112u8, 112u8, 111u8, 114u8, 116u8, 101u8, 100u8, 32u8, 105u8, 110u8, 32u8, 116u8, 104u8, 105u8, 115u8, 32u8, 99u8, 111u8, 110u8, 116u8, 101u8, 120u8, 116u8];
    proof {
        assert(v@ =~= unsub_context_bytes());
    }
    v
}

/// Bytes of `OK`.
pub(crate) fn ok_msg() -> (v: Vec<u8>)
    ensures
        v@ == ok_bytes(),
{
    let v: Vec<u8> = vec![79u8, 75u8];
    proof {
        assert(v@ =~= ok_bytes());
    }
    v
}

/// Bytes of `PONG`.
pub(crate) fn pong_msg() -> (v: Vec<u8>)
    ensures
        v@ == pong_bytes(),
{
    let v: Vec<u8> = vec![80u8, 79u8, 78u8, 71u8];
    proof {
        assert(v@ =~= pong_bytes());
    }
    v
}

/// The message `ERR unknown command '<name>'`.
pub(crate) fn err_unknown(name: &Vec<u8>) -> (v: Vec<u8>)
    ensures
        v@ == spec_err_unknown(name@),
{
    let mut v: Vec<u8> = vec![69u8, 82u8, 82u8, 32u8, 117u8, 110u8, 107u8, 110u8, 111u8, 119u8,
        110u8, 32u8, 99u8, 111u8, 109u8, 109u8, 97u8, 110u8, 100u8, 32u8, 39u8];
    proof {
        assert(v@ =~= err_unknown_prefix());
    }
    extend_bytes(&mut v, name);
    v.push(39u8);
    proof {
        assert(v@ =~= spec_err_unknown(name@));
    }
    v
}

// ---------------------------------------------------------------------
// Parsing
// ---------------------------------------------------------------------

/// Consume every further token as a string. The run stops at the end
/// of the frame; any non-string token rejects the command.
fn collect_strings(parser: &mut Parser, acc: Vec<Vec<u8>>) -> (r: Result<
    Vec<Vec<u8>>,
    ParserError,
>)
    ensures
        match r {
            Ok(keys) => (forall|i: int|
                0 <= i < old(parser).remaining().len() ==> token_string(
                    #[trigger] old(parser).remaining()[i],
                ) is Some) && names_view(keys) == names_view(acc) + strings_of(
                old(parser).remaining(),
                0,
            ),
            Err(e) => e is Other && exists|i: int|
                0 <= i < old(parser).remaining().len() && token_string(
                    #[trigger] old(parser).remaining()[i],
                ) is None,
        },
    decreases parser.remaining().len(),
{
    let ghost rem = parser.remaining();
    match parser.next_string() {
        Err(ParserError::EndOfStream) => {
            proof {
                assert(names_view(acc) + strings_of(rem, 0) =~= names_view(acc));
            }
            Ok(acc)
        },
        Err(e) => {
            proof {
                assert(token_string(rem[0]) is None);
            }
            Err(e)
        },
        Ok(s) => {
            let mut acc2 = acc;
            let ghost acc_v = names_view(acc2);
            let ghost acc_pre = acc2@;
            acc2.push(s);
            proof {
                assert(names_view(acc2) =~= acc_v.push(token_string(rem[0])->Some_0)) by {
                    assert(token_string(rem[0]) == Option::Some(acc2@.last()@));
                    assert forall|i: int| 0 <= i < names_view(acc2).len() implies names_view(
                        acc2,
                    )[i] == acc_v.push(token_string(rem[0])->Some_0)[i] by {
                        if i < acc_v.len() {
                            assert(acc2@[i] == acc_pre[i]);
                        }
                    }
                }
            }
            let r = collect_strings(parser, acc2);
            match r {
                Ok(keys) => {
                    proof {
                        assert forall|i: int| 0 <= i < rem.len() implies token_string(
                            #[trigger] rem[i],
                        ) is Some by {
                            if i > 0 {
                                assert(rem.skip(1)[i - 1] == rem[i]);
                            }
                        }
                        assert(names_view(keys) =~= names_view(acc) + strings_of(rem, 0)) by {
                            assert(names_view(keys) == (acc_v.push(token_string(rem[0])->Some_0))
                                + strings_of(rem.skip(1), 0));
                            assert forall|i: int|
                                0 <= i < strings_of(rem, 0).len() implies strings_of(rem, 0)[i]
                                == (seq![token_string(rem[0])->Some_0] + strings_of(
                                rem.skip(1),
                                0,
                            ))[i] by {
                                if i > 0 {
                                    assert(rem.skip(1)[i - 1] == rem[i]);
                                }
                            }
                            assert(strings_of(rem, 0) =~= seq![token_string(rem[0])->Some_0]
                                + strings_of(rem.skip(1), 0));
                        }
                    }
                    Ok(keys)
                },
                Err(e) => {
                    proof {
                        let i = choose|i: int|
                            0 <= i < rem.skip(1).len() && token_string(
                                #[trigger] rem.skip(1)[i],
                            ) is None;
                        assert(rem.skip(1)[i] == rem[i + 1]);
                        assert(token_string(rem[i + 1]) is None);
                    }
                    Err(e)
                },
            }
        },
    }
}

impl Command {
    /// Parse a decoded frame into a command, exactly as
    /// `spec_command` reads it. The frame must be an array; its
    /// tokens name the command and its arguments.
    pub fn from_frame(frame: Frame) -> (r: Result<Command, ParserError>)
        ensures
            match r {
                Ok(c) => frame@ is Array && spec_command(frame@->Array_0) == Option::Some(
                    cmd_view(c),
                ),
                Err(_) => !(frame@ is Array) || spec_command(frame@->Array_0) is None,
            },
    {
        let mut parser = match Parser::new(frame) {
            Ok(p) => p,
            Err(e) => {
                return Err(e);
            },
        };
        let ghost items = parser.remaining();
        let raw = match parser.next_string() {
            Ok(v) => v,
            Err(e) => {
                return Err(e);
            },
        };
        let name = to_lower(&raw);
        let lit_get: Vec<u8> = vec![103u8, 101u8, 116u8];
        let lit_set: Vec<u8> = vec![115u8, 101u8, 116u8];
        let lit_del: Vec<u8> = vec![100u8, 101u8, 108u8];
        let lit_publish: Vec<u8> = vec![112u8, 117u8, 98u8, 108u8, 105u8, 115u8, 104u8];
        let lit_subscribe: Vec<u8> = vec![115u8, 117u8, 98u8, 115u8, 99u8, 114u8, 105u8, 98u8,
            101u8];
        let lit_unsubscribe: Vec<u8> = vec![117u8, 110u8, 115u8, 117u8, 98u8, 115u8, 99u8,
            114u8, 105u8, 98u8, 101u8];
        let lit_ping: Vec<u8> = vec![112u8, 105u8, 110u8, 103u8];
        proof {
            assert(lit_get@ =~= name_get());
            assert(lit_set@ =~= name_set());
            assert(lit_del@ =~= name_del());
            assert(lit_publish@ =~= name_publish());
            assert(lit_subscribe@ =~= name_subscribe());
            assert(lit_unsubscribe@ =~= name_unsubscribe());
            assert(lit_ping@ =~= name_ping());
            assert(items.len() >= 2 ==> items.skip(1)[0] == items[1]);
        }
        if bytes_eq(&name, &lit_get) {
            let key = match parser.next_string() {
                Ok(k) => k,
                Err(e) => {
                    return Err(e);
                },
            };
            match parser.finish() {
                Ok(_) => {
                    proof {
                        assert(items.skip(1).skip(1).len() == items.len() - 2);
                    }
                    Ok(Command::Get(Get { key }))
                },
                Err(e) => Err(e),
            }
        } else if bytes_eq(&name, &lit_set) {
            parse_set_args(parser, Ghost(items))
        } else if bytes_eq(&name, &lit_del) {
            let first = match parser.next_string() {
                Ok(k) => k,
                Err(e) => {
                    return Err(e);
                },
            };
            let ghost fv = first@;
            let ghost rem2 = parser.remaining();
            let mut acc: Vec<Vec<u8>> = Vec::new();
            acc.push(first);
            let ghost accv = names_view(acc);
            proof {
                assert(accv =~= seq![fv]);
                assert(items.skip(1)[0] == items[1]);
                assert(items.skip(1).skip(1) =~= items.skip(2));
            }
            match collect_strings(&mut parser, acc) {
                Ok(keys) => {
                    proof {
                        assert(names_view(keys) =~= seq![token_string(items[1])->Some_0]
                            + strings_of(rem2, 0));
                        lemma_tail_strings(items, rem2, keys@, names_view(keys));
                    }
                    Ok(Command::Del(Del { keys }))
                },
                Err(e) => {
                    proof {
                        lemma_tail_nonstring(items, rem2);
                    }
                    Err(e)
                },
            }
        } else if bytes_eq(&name, &lit_publish) {
            let channel = match parser.next_string() {
                Ok(k) => k,
                Err(e) => {
                    return Err(e);
                },
            };
            let message = match parser.next_bytes() {
                Ok(m) => m,
                Err(e) => {
                    proof {
                        assert(items.skip(2).len() == 0 ==> items.len() == 2);
                        assert(items.skip(2).len() > 0 ==> items.skip(2)[0] == items[2]);
                    }
                    return Err(e);
                },
            };
            match parser.finish() {
                Ok(_) => {
                    proof {
                        assert(items.skip(2)[0] == items[2]);
                        assert(items.skip(3).len() == items.len() - 3);
                    }
                    Ok(Command::Publish(Publish { channel, message }))
                },
                Err(e) => {
                    proof {
                        assert(items.skip(2)[0] == items[2]);
                    }
                    Err(e)
                },
            }
        } else if bytes_eq(&name, &lit_subscribe) {
            let first = match parser.next_string() {
                Ok(k) => k,
                Err(e) => {
                    return Err(e);
                },
            };
            let ghost fv = first@;
            let ghost rem2 = parser.remaining();
            let mut acc: Vec<Vec<u8>> = Vec::new();
            acc.push(first);
            let ghost accv = names_view(acc);
            proof {
                assert(accv =~= seq![fv]);
                assert(items.skip(1)[0] == items[1]);
                assert(items.skip(1).skip(1) =~= items.skip(2));
            }
            match collect_strings(&mut parser, acc) {
                Ok(channels) => {
                    proof {
                        assert(names_view(channels) =~= seq![token_string(items[1])->Some_0]
                            + strings_of(rem2, 0));
                        lemma_tail_strings(items, rem2, channels@, names_view(channels));
                    }
                    Ok(Command::Subscribe(Subscribe { channels }))
                },
                Err(e) => {
                    proof {
                        lemma_tail_nonstring(items, rem2);
                    }
                    Err(e)
                },
            }
        } else if bytes_eq(&name, &lit_unsubscribe) {
            let ghost rem1 = parser.remaining();
            let acc0: Vec<Vec<u8>> = Vec::new();
            let ghost acc0v = names_view(acc0);
            proof {
                assert(acc0v =~= Seq::<Seq<u8>>::empty());
            }
            match collect_strings(&mut parser, acc0) {
                Ok(channels) => {
                    proof {
                        assert forall|i: int| 1 <= i < items.len() implies token_string(
                            #[trigger] items[i],
                        ) is Some by {
                            assert(rem1[i - 1] == items[i]);
                        }
                        assert(names_view(channels) =~= strings_of(items, 1)) by {
                            assert(names_view(channels) == acc0v + strings_of(rem1, 0));
                            assert forall|i: int|
                                0 <= i < strings_of(items, 1).len() implies strings_of(
                                items,
                                1,
                            )[i] == strings_of(rem1, 0)[i] by {
                                assert(rem1[i] == items[i + 1]);
                            }
                            assert(strings_of(items, 1) =~= strings_of(rem1, 0));
                            assert(acc0v + strings_of(rem1, 0) =~= strings_of(rem1, 0));
                        }
                    }
                    Ok(Command::Unsubscribe(Unsubscribe { channels }))
                },
                Err(e) => {
                    proof {
                        let i = choose|i: int|
                            0 <= i < rem1.len() && token_string(#[trigger] rem1[i]) is None;
                        assert(rem1[i] == items[i + 1]);
                        assert(token_string(items[i + 1]) is None);
                    }
                    Err(e)
                },
            }
        } else if bytes_eq(&name, &lit_ping) {
            match parser.next_bytes() {
                Ok(m) => match parser.finish() {
                    Ok(_) => {
                        proof {
                            assert(items.skip(2).len() == items.len() - 2);
                        }
                        Ok(Command::Ping(Ping { msg: Some(m) }))
                    },
                    Err(e) => Err(e),
                },
                Err(ParserError::EndOfStream) => Ok(Command::Ping(Ping { msg: None })),
                Err(e) => Err(e),
            }
        } else {
            Ok(Command::Unknown(Unknown { cmd_name: name }))
        }
    }
}

/// The collected tail equals the strings of the frame's tokens after
/// the command name.
proof fn lemma_tail_strings(
    items: Seq<FrameV>,
    rem2: Seq<FrameV>,
    keys: Seq<Vec<u8>>,
    kv: Seq<Seq<u8>>,
)
    requires
        items.len() >= 2,
        rem2 == items.skip(2),
        token_string(items[1]) is Some,
        keys.len() >= 1,
        kv.len() == keys.len(),
        forall|i: int| 0 <= i < keys.len() ==> kv[i] == (#[trigger] keys[i])@,
        kv == seq![token_string(items[1])->Some_0] + strings_of(rem2, 0),
        forall|i: int| 0 <= i < rem2.len() ==> token_string(#[trigger] rem2[i]) is Some,
    ensures
        all_strings(items, 1),
        kv == strings_of(items, 1),
{
    assert forall|i: int| 1 <= i < items.len() implies token_string(
        #[trigger] items[i],
    ) is Some by {
        if i >= 2 {
            assert(rem2[i - 2] == items[i]);
        }
    }
    assert forall|i: int| 0 <= i < strings_of(items, 1).len() implies strings_of(items, 1)[i]
        == kv[i] by {
        if i > 0 {
            assert(rem2[i - 1] == items[i + 1]);
        }
    }
    assert(kv =~= strings_of(items, 1));
}

/// Some tail token is not a string.
proof fn lemma_tail_nonstring(items: Seq<FrameV>, rem2: Seq<FrameV>)
    requires
        items.len() >= 2,
        rem2 == items.skip(2),
        exists|i: int| 0 <= i < rem2.len() && token_string(#[trigger] rem2[i]) is None,
    ensures
        !all_strings(items, 1),
{
    let i = choose|i: int| 0 <= i < rem2.len() && token_string(#[trigger] rem2[i]) is None;
    assert(rem2[i] == items[i + 2]);
    assert(token_string(items[i + 2]) is None);
}

/// Parse the arguments of `SET`, after its name was recognized.
fn parse_set_args(parser: Parser, items_g: Ghost<Seq<FrameV>>) -> (r: Result<
    Command,
    ParserError,
>)
    requires
        parser.remaining() == items_g@.skip(1),
        items_g@.len() >= 1,
    ensures
        match r {
            Ok(c) => spec_set_cmd(items_g@) == Option::Some(cmd_view(c)),
            Err(_) => spec_set_cmd(items_g@) is None,
        },
{
    let ghost items = items_g@;
    let mut parser = parser;
    let key = match parser.next_string() {
        Ok(k) => k,
        Err(e) => {
            return Err(e);
        },
    };
    let value = match parser.next_bytes() {
        Ok(v) => v,
        Err(e) => {
            proof {
                assert(items.skip(2).len() == 0 ==> items.len() == 2);
                assert(items.skip(2).len() > 0 ==> items.skip(2)[0] == items[2]);
            }
            return Err(e);
        },
    };
    proof {
        assert(items.skip(2)[0] == items[2]);
    }
    match parser.next_string() {
        Err(ParserError::EndOfStream) => {
            proof {
                assert(items.skip(3).len() == items.len() - 3);
            }
            Ok(Command::SetCmd(SetCmd { key, value, expire: None }))
        },
        Err(e) => {
            proof {
                assert(items.skip(3)[0] == items[3]);
            }
            Err(e)
        },
        Ok(opt) => {
            proof {
                assert(items.skip(3)[0] == items[3]);
            }
            let ol = to_lower(&opt);
            let lit_ex: Vec<u8> = vec![101u8, 120u8];
            let lit_px: Vec<u8> = vec![112u8, 120u8];
            proof {
                assert(lit_ex@ =~= opt_ex());
                assert(lit_px@ =~= opt_px());
            }
            let is_ex = bytes_eq(&ol, &lit_ex);
            let is_px = bytes_eq(&ol, &lit_px);
            if is_ex || is_px {
                let n = match parser.next_int() {
                    Ok(n) => n,
                    Err(e) => {
                        proof {
                            assert(items.skip(4).len() == 0 ==> items.len() == 4);
                            assert(items.skip(4).len() > 0 ==> items.skip(4)[0] == items[4]);
                        }
                        return Err(e);
                    },
                };
                proof {
                    assert(items.skip(4)[0] == items[4]);
                }
                match parser.finish() {
                    Ok(_) => {
                        proof {
                            assert(items.skip(5).len() == items.len() - 5);
                        }
                        let ms = if is_ex {
                            if n > u64::MAX / 1000 {
                                u64::MAX
                            } else {
                                proof {
                                    assert((u64::MAX / 1000) * 1000 <= u64::MAX) by {
                                        vstd::arithmetic::div_mod::lemma_fundamental_div_mod(
                                            u64::MAX as int,
                                            1000,
                                        );
                                    }
                                    assert(n * 1000 <= (u64::MAX / 1000) * 1000) by (nonlinear_arith)
                                        requires
                                            0 <= n <= u64::MAX / 1000,
                                    ;
                                }
                                n * 1000
                            }
                        } else {
                            n
                        };
                        Ok(Command::SetCmd(SetCmd { key, value, expire: Some(ms) }))
                    },
                    Err(e) => Err(e),
                }
            } else {
                Err(ParserError::Other(clone_bytes(&ol)))
            }
        },
    }
}

// ---------------------------------------------------------------------
// Applying commands to the store
// ---------------------------------------------------------------------

/// What applying a command yields.
#[derive(Debug, PartialEq)]
pub enum Applied {
    /// A response frame to write back, and whether the eviction worker
    /// must be woken.
    Reply(Frame, bool),
    /// The connection enters subscribe mode on these channels.
    StartSubscribe(Vec<Vec<u8>>),
    /// The command cannot be applied here; the connection must close.
    Fatal(Vec<u8>),
}

/// Whether `k` is among the listed names.
pub open spec fn name_in(names: Seq<Seq<u8>>, k: Seq<u8>) -> bool {
    exists|i: int| 0 <= i < names.len() && names[i] == k
}

/// The name a command answers to, as the responses spell it.
pub open spec fn spec_cmd_name(cv: CommandV) -> Seq<u8> {
    match cv {
        CommandV::Get { .. } => name_get(),
        CommandV::SetCmd { .. } => name_set(),
        CommandV::Del { .. } => name_del(),
        CommandV::Publish { .. } => seq![112u8, 117u8, 98u8],
        CommandV::Subscribe { .. } => name_subscribe(),
        CommandV::Unsubscribe { .. } => name_unsubscribe(),
        CommandV::Ping { .. } => name_ping(),
        CommandV::Unknown { name } => name,
    }
}

impl Command {
    /// The command's name, as the responses spell it.
    pub open spec fn spec_name(self) -> Seq<u8> {
        spec_cmd_name(cmd_view(self))
    }

    /// The command's name.
    pub fn get_name(&self) -> (r: Vec<u8>)
        ensures
            r@ == self.spec_name(),
    {
        match self {
            Command::Get(_) => {
                let v: Vec<u8> = vec![103u8, 101u8, 116u8];
                proof {
                    assert(v@ =~= name_get());
                }
                v
            },
            Command::SetCmd(_) => {
                let v: Vec<u8> = vec![115u8, 101u8, 116u8];
                proof {
                    assert(v@ =~= name_set());
                }
                v
            },
            Command::Del(_) => {
                let v: Vec<u8> = vec![100u8, 101u8, 108u8];
                proof {
                    assert(v@ =~= name_del());
                }
                v
            },
            Command::Publish(_) => {
                let v: Vec<u8> = vec![112u8, 117u8, 98u8];
                proof {
                    assert(v@ =~= seq![112u8, 117u8, 98u8]);
                }
                v
            },
            Command::Subscribe(_) => {
                let v: Vec<u8> = vec![115u8, 117u8, 98u8, 115u8, 99u8, 114u8, 105u8, 98u8,
                    101u8];
                proof {
                    assert(v@ =~= name_subscribe());
                }
                v
            },
            Command::Unsubscribe(_) => {
                let v: Vec<u8> = vec![117u8, 110u8, 115u8, 117u8, 98u8, 115u8, 99u8, 114u8,
                    105u8, 98u8, 101u8];
                proof {
                    assert(v@ =~= name_unsubscribe());
                }
                v
            },
            Command::Ping(_) => {
                let v: Vec<u8> = vec![112u8, 105u8, 110u8, 103u8];
                proof {
                    assert(v@ =~= name_ping());
                }
                v
            },
            Command::Unknown(u) => clone_bytes(&u.cmd_name),
        }
    }

    /// Apply the command against the store at instant `now` and
    /// produce the response. Subscribe-mode commands are not applied
    /// here: `SUBSCRIBE` asks the caller to enter subscribe mode, and
    /// a top-level `UNSUBSCRIBE` is fatal for the connection.
    pub fn apply(self, db: &mut Db, now: u64) -> (r: Applied)
        requires
            old(db).wf(),
            cmd_view(self) matches CommandV::Publish { channel, .. } ==> history_of(
                *old(db),
                channel,
            ).len() < u64::MAX,
        ensures
            final(db).wf(),
            final(db).spec_shutdown() == old(db).spec_shutdown(),
            match cmd_view(self) {
                CommandV::Get { key } => *final(db) == *old(db) && (r matches Applied::Reply(
                    f,
                    n,
                ) && !n && f@ == match spec_get(*old(db), key, now) {
                    Option::Some(v) => FrameV::Bulk(v),
                    Option::None => FrameV::Null,
                }),
                CommandV::SetCmd { key, value, expire } => r matches Applied::Reply(f, n) && f@
                    == FrameV::Simple(ok_bytes()) && final(db).spec_entry(key)
                    == Option::Some(
                    EntryV { data: value, expires_at: spec_when(expire, now) },
                ) && (forall|k: Seq<u8>|
                    k != key ==> final(db).spec_entry(k) == old(db).spec_entry(k)) && (forall|
                    nm: Seq<u8>,
                |
                    final(db).spec_channel(nm) == old(db).spec_channel(nm)) && n == match spec_when(
                    expire,
                    now,
                ) {
                    Option::Some(w) => match old(db).spec_next_expiration() {
                        Option::Some(nw) => nw > w,
                        Option::None => true,
                    },
                    Option::None => false,
                },
                CommandV::Del { keys } => r matches Applied::Reply(f, n) && !n && f@
                    == FrameV::Simple(ok_bytes()) && (forall|k: Seq<u8>|
                    #[trigger] final(db).spec_entry(k) == if name_in(keys, k) {
                        Option::<EntryV>::None
                    } else {
                        old(db).spec_entry(k)
                    }) && (forall|nm: Seq<u8>|
                    final(db).spec_channel(nm) == old(db).spec_channel(nm)),
                CommandV::Publish { channel, message } => r matches Applied::Reply(f, n) && !n
                    && f@ == FrameV::Integer(receivers_of(*old(db), channel) as u64) && (forall|
                    k: Seq<u8>,
                |
                    final(db).spec_entry(k) == old(db).spec_entry(k)) && (old(db).spec_channel(
                    channel,
                ) is Some ==> history_of(*final(db), channel) == history_of(
                    *old(db),
                    channel,
                ).push(message) && receivers_of(*final(db), channel) == receivers_of(
                    *old(db),
                    channel,
                )) && (old(db).spec_channel(channel) is None ==> *final(db) == *old(db)) && (
                forall|nm: Seq<u8>|
                    nm != channel ==> final(db).spec_channel(nm) == old(db).spec_channel(nm)),
                CommandV::Subscribe { channels } => *final(db) == *old(db) && (
                r matches Applied::StartSubscribe(cs) && names_view(cs) == channels),
                CommandV::Unsubscribe { .. } => *final(db) == *old(db) && (
                r matches Applied::Fatal(m) && m@ == unsub_context_bytes()),
                CommandV::Ping { msg } => *final(db) == *old(db) && (r matches Applied::Reply(
                    f,
                    n,
                ) && !n && f@ == match msg {
                    Option::Some(m) => FrameV::Bulk(m),
                    Option::None => FrameV::Simple(pong_bytes()),
                }),
                CommandV::Unknown { name } => *final(db) == *old(db) && (
                r matches Applied::Reply(f, n) && !n && f@ == FrameV::Error(
                    spec_err_unknown(name),
                )),
            },
    {
        match self {
            Command::Get(g) => {
                let resp = match db.get(&g.key, now) {
                    Some(v) => Frame::Bulk(v),
                    None => Frame::Null,
                };
                Applied::Reply(resp, false)
            },
            Command::SetCmd(s) => {
                let n = db.set(s.key, s.value, s.expire, now);
                Applied::Reply(Frame::Simple(ok_msg()), n)
            },
            Command::Del(d) => {
                db.del(&d.keys);
                proof {
                    assert forall|k: Seq<u8>| key_named(d.keys@, k) == name_in(
                        names_view(d.keys),
                        k,
                    ) by {
                        if key_named(d.keys@, k) {
                            let i = choose|i: int|
                                0 <= i < d.keys@.len() && (#[trigger] d.keys@[i])@ == k;
                            assert(names_view(d.keys)[i] == k);
                        }
                        if name_in(names_view(d.keys), k) {
                            let i = choose|i: int|
                                0 <= i < names_view(d.keys).len() && names_view(d.keys)[i]
                                    == k;
                            assert((d.keys@[i])@ == k);
                        }
                    }
                }
                Applied::Reply(Frame::Simple(ok_msg()), false)
            },
            Command::Publish(p) => {
                let count = db.publish(&p.channel, p.message);
                Applied::Reply(Frame::Integer(count), false)
            },
            Command::Subscribe(s) => Applied::StartSubscribe(s.channels),
            Command::Unsubscribe(_) => Applied::Fatal(unsub_context_msg()),
            Command::Ping(p) => match p.msg {
                Some(m) => Applied::Reply(Frame::Bulk(m), false),
                None => Applied::Reply(Frame::Simple(pong_msg()), false),
            },
            Command::Unknown(u) => {
                let msg = err_unknown(&u.cmd_name);
                Applied::Reply(Frame::Error(msg), false)
            },
        }
    }
}

impl Get {
    /// A `GET` for `key`.
    pub fn new(key: Vec<u8>) -> (c: Get)
        ensures
            c.key@ == key@,
    {
        Get { key }
    }
}

impl SetCmd {
    /// A `SET` of `key` to `value`, expiring `expire` ms after it is
    /// applied if given.
    pub fn new(key: Vec<u8>, value: Vec<u8>, expire: Option<u64>) -> (c: SetCmd)
        ensures
            c.key@ == key@,
            c.value@ == value@,
            c.expire == expire,
    {
        SetCmd { key, value, expire }
    }
}

impl Del {
    /// A `DEL` of the listed keys.
    pub fn new(keys: Vec<Vec<u8>>) -> (c: Del)
        ensures
            c.keys@ == keys@,
    {
        Del { keys }
    }
}

impl Publish {
    /// A `PUBLISH` of `message` on `channel`.
    pub fn new(channel: Vec<u8>, message: Vec<u8>) -> (c: Publish)
        ensures
            c.channel@ == channel@,
            c.message@ == message@,
    {
        Publish { channel, message }
    }
}

impl Subscribe {
    /// A `SUBSCRIBE` to the listed channels.
    pub fn new(channels: Vec<Vec<u8>>) -> (c: Subscribe)
        ensures
            c.channels@ == channels@,
    {
        Subscribe { channels }
    }
}

impl Unsubscribe {
    /// An `UNSUBSCRIBE` from the listed channels (all, when empty).
    pub fn new(channels: Vec<Vec<u8>>) -> (c: Unsubscribe)
        ensures
            c.channels@ == channels@,
    {
        Unsubscribe { channels }
    }
}

impl Ping {
    /// A `PING`, with an optional payload to echo.
    pub fn new(msg: Option<Vec<u8>>) -> (c: Ping)
        ensures
            c.msg == msg,
    {
        Ping { msg }
    }
}

impl Unknown {
    /// A stand-in for an unrecognized command name.
    pub fn new(cmd_name: Vec<u8>) -> (c: Unknown)
        ensures
            c.cmd_name@ == cmd_name@,
    {
        Unknown { cmd_name }
    }

    /// The unrecognized name.
    pub fn get_name(&self) -> (r: &Vec<u8>)
        ensures
            r@ == self.cmd_name@,
    {
        &self.cmd_name
    }
}

} // verus!
