//! The bulletin-board message: a user name and a text, carried over HTTP as
//! the JSON object `{"user":"...","text":"..."}`, and the page assembly the
//! board server performs.

use crate::chat::action::DecodeError;
use crate::chat::action::append_escaped;
use crate::chat::action::append_str;
use crate::chat::action::chars_to_string;
use crate::chat::action::escape_str;
use crate::chat::action::has_prefix;
use crate::chat::action::has_prefix_at;
use crate::chat::action::lemma_take_canonical;
use crate::chat::action::lemma_take_escaped;
use crate::chat::action::msg_sep;
use crate::chat::action::quote;
use crate::chat::action::starts_with;
use crate::chat::action::take_string;
use crate::chat::action::take_string_exec;
use crate::chat::action::to_chars;
use vstd::prelude::*;

verus! {

/// One bulletin-board post.
#[derive(Debug)]
pub struct Message {
    pub user: String,
    pub text: String,
}

impl Message {
    pub fn new(user: String, text: String) -> (m: Message)
        ensures
            m.user@ == user@,
            m.text@ == text@,
    {
        Message { text, user }
    }
}

pub open spec fn message_prefix() -> Seq<char> {
    "{\"user\":\""@
}

pub open spec fn message_close() -> Seq<char> {
    "}"@
}

/// The canonical wire text of a message.
pub open spec fn message_json(user: Seq<char>, text: Seq<char>) -> Seq<char> {
    message_prefix() + escape_str(user) + quote() + msg_sep() + escape_str(text) + quote()
        + message_close()
}

/// The parse of a message wire text: `Some` exactly on canonical encodings.
pub open spec fn parse_message(s: Seq<char>) -> Option<(Seq<char>, Seq<char>)> {
    if starts_with(s, message_prefix()) {
        match take_string(s.skip(message_prefix().len() as int)) {
            Some(p) => if starts_with(p.1, msg_sep()) {
                match take_string(p.1.skip(msg_sep().len() as int)) {
                    Some(q) => if q.1 == message_close() {
                        Some((p.0, q.0))
                    } else {
                        None
                    },
                    None => None,
                }
            } else {
                None
            },
            None => None,
        }
    } else {
        None
    }
}

/// Round-trip law: every message parses back from its encoding.
pub proof fn lemma_message_round_trip(user: Seq<char>, text: Seq<char>)
    ensures
        parse_message(message_json(user, text)) == Some((user, text)),
{
    let s = message_json(user, text);
    let tail2 = escape_str(text) + quote() + message_close();
    let tail1 = escape_str(user) + quote() + (msg_sep() + tail2);
    assert(s =~= message_prefix() + tail1);
    assert(s.take(message_prefix().len() as int) =~= message_prefix());
    assert(starts_with(s, message_prefix()));
    assert(s.skip(message_prefix().len() as int) =~= tail1);
    lemma_take_escaped(user, msg_sep() + tail2);
    let rest1 = msg_sep() + tail2;
    assert(rest1.take(msg_sep().len() as int) =~= msg_sep());
    assert(starts_with(rest1, msg_sep()));
    assert(rest1.skip(msg_sep().len() as int) =~= tail2);
    lemma_take_escaped(text, message_close());
}

/// Canonicity: a text that parses at all is the encoding of its parse.
pub proof fn lemma_message_parse_canonical(s: Seq<char>)
    ensures
        parse_message(s) matches Some(p) ==> s == message_json(p.0, p.1),
{
    if parse_message(s) is Some {
        let tail = s.skip(message_prefix().len() as int);
        lemma_take_canonical(tail);
        let p = take_string(tail)->Some_0;
        let rest1 = p.1;
        let tail2 = rest1.skip(msg_sep().len() as int);
        lemma_take_canonical(tail2);
        let q = take_string(tail2)->Some_0;
        assert(rest1 =~= msg_sep() + tail2);
        assert(s =~= message_prefix() + tail);
        assert(s =~= message_json(p.0, q.0));
    }
}

/// Serializes a message to its wire text.
pub fn encode_message(m: &Message) -> (r: String)
    ensures
        r@ == message_json(m.user@, m.text@),
{
    let mut out: Vec<char> = Vec::new();
    append_str(&mut out, "{\"user\":\"");
    append_escaped(&mut out, m.user.as_str());
    append_str(&mut out, "\",\"text\":\"");
    append_escaped(&mut out, m.text.as_str());
    append_str(&mut out, "\"}");
    proof {
        reveal_strlit("\",\"text\":\"");
        reveal_strlit(",\"text\":\"");
        assert("\",\"text\":\""@ =~= quote() + msg_sep());
        reveal_strlit("\"}");
        reveal_strlit("}");
        assert("\"}"@ =~= quote() + message_close());
        assert(out@ =~= message_json(m.user@, m.text@));
    }
    chars_to_string(&out)
}

/// Whether everything from position `j` on is exactly the closing brace.
fn rest_is_brace(cs: &Vec<char>, j: usize) -> (r: bool)
    requires
        j <= cs@.len(),
    ensures
        r == (cs@.skip(j as int) == message_close()),
{
    proof {
        reveal_strlit("}");
    }
    if cs.len() - j == 1 && cs[j] == '}' {
        proof {
            assert(cs@.skip(j as int) =~= message_close());
        }
        true
    } else {
        proof {
            if cs@.skip(j as int) == message_close() {
                assert(cs@.skip(j as int).len() == 1);
                assert(cs@.skip(j as int)[0] == '}');
                assert(cs@[j as int] == '}');
            }
        }
        false
    }
}

/// Deserializes a message wire text. Succeeds exactly on the canonical
/// output of `encode_message`.
pub fn decode_message(s: &str) -> (r: Result<Message, DecodeError>)
    ensures
        (r matches Ok(m) ==> parse_message(s@) == Some((m.user@, m.text@))),
        (r is Err ==> parse_message(s@) is None),
{
    let cs = to_chars(s);
    if has_prefix(&cs, "{\"user\":\"") {
        let plen = "{\"user\":\"".unicode_len();
        match take_string_exec(&cs, plen) {
            Some(p) => {
                let (t, j) = p;
                let ghost rest1 = cs@.skip(j as int);
                if has_prefix_at(&cs, j, ",\"text\":\"") {
                    let slen = ",\"text\":\"".unicode_len();
                    proof {
                        assert(cs@.skip(j as int).len() >= msg_sep().len());
                        assert(j + slen <= cs@.len());
                        assert(rest1.skip(msg_sep().len() as int) =~= cs@.skip(j + slen));
                    }
                    match take_string_exec(&cs, j + slen) {
                        Some(q) => {
                            let (t2, j2) = q;
                            if rest_is_brace(&cs, j2) {
                                Ok(
                                    Message {
                                        user: chars_to_string(&t),
                                        text: chars_to_string(&t2),
                                    },
                                )
                            } else {
                                Err(DecodeError::MalformedAction)
                            }
                        },
                        None => Err(DecodeError::MalformedAction),
                    }
                } else {
                    Err(DecodeError::MalformedAction)
                }
            },
            None => Err(DecodeError::MalformedAction),
        }
    } else {
        Err(DecodeError::MalformedAction)
    }
}

/// The page the board serves: header, then the data file if it exists,
/// then footer.
pub fn assemble_page(header: &str, data: Option<&str>, footer: &str) -> (r: String)
    ensures
        r@ == header@ + (match data {
            Some(d) => d@,
            None => Seq::<char>::empty(),
        }) + footer@,
{
    let mut out: Vec<char> = Vec::new();
    append_str(&mut out, header);
    match data {
        Some(d) => append_str(&mut out, d),
        None => (),
    }
    append_str(&mut out, footer);
    chars_to_string(&out)
}

/// One line of the board's data file: the message followed by a newline.
pub fn board_record(m: &Message) -> (r: String)
    ensures
        r@ == message_json(m.user@, m.text@) + "\n"@,
{
    let mut out: Vec<char> = Vec::new();
    let json = encode_message(m);
    append_str(&mut out, json.as_str());
    append_str(&mut out, "\n");
    chars_to_string(&out)
}

} // verus!
