//! The action protocol: the tagged wire message exchanged with chat clients,
//! its JSON text encoding, and a decoder that accepts exactly the encoder's
//! output.
//!
//! The wire shapes are a compatibility contract with browser-side clients:
//! `{"Connect":{"addr":"..."}}`, `{"Disconnect":{"addr":"..."}}` and
//! `{"Msg":{"user":"...","text":"..."}}`.

use vstd::prelude::*;
use vstd::string::*;

verus! {

/// Represents a single, atomic action taken by a chat member.
#[derive(Debug, Clone)]
pub enum ChatAction {
    Connect { addr: String },
    Disconnect { addr: String },
    Msg { user: String, text: String },
}

/// The abstract value of a `ChatAction`: its fields as character sequences.
pub enum ActionView {
    Connect { addr: Seq<char> },
    Disconnect { addr: Seq<char> },
    Msg { user: Seq<char>, text: Seq<char> },
}

impl View for ChatAction {
    type V = ActionView;

    open spec fn view(&self) -> ActionView {
        match self {
            ChatAction::Connect { addr } => ActionView::Connect { addr: addr@ },
            ChatAction::Disconnect { addr } => ActionView::Disconnect { addr: addr@ },
            ChatAction::Msg { user, text } => ActionView::Msg { user: user@, text: text@ },
        }
    }
}

impl PartialEq for ChatAction {
    fn eq(&self, other: &Self) -> (r: bool) {
        match (self, other) {
            (ChatAction::Connect { addr: a }, ChatAction::Connect { addr: b }) => *a == *b,
            (ChatAction::Disconnect { addr: a }, ChatAction::Disconnect { addr: b }) => *a == *b,
            (
                ChatAction::Msg { user: u1, text: t1 },
                ChatAction::Msg { user: u2, text: t2 },
            ) => *u1 == *u2 && *t1 == *t2,
            _ => false,
        }
    }
}

impl vstd::std_specs::cmp::PartialEqSpecImpl for ChatAction {
    open spec fn obeys_eq_spec() -> bool {
        true
    }

    open spec fn eq_spec(&self, other: &ChatAction) -> bool {
        self@ == other@
    }
}

/// Decoding failure: the input is not the encoding of any action.
#[derive(Debug, Clone, Copy, PartialEq, Eq, Structural)]
pub enum DecodeError {
    MalformedAction,
}

/// The lowercase hexadecimal digit for a value below 16.
pub open spec fn hex_digit(v: int) -> char {
    if v == 0 {
        '0'
    } else if v == 1 {
        '1'
    } else if v == 2 {
        '2'
    } else if v == 3 {
        '3'
    } else if v == 4 {
        '4'
    } else if v == 5 {
        '5'
    } else if v == 6 {
        '6'
    } else if v == 7 {
        '7'
    } else if v == 8 {
        '8'
    } else if v == 9 {
        '9'
    } else if v == 10 {
        'a'
    } else if v == 11 {
        'b'
    } else if v == 12 {
        'c'
    } else if v == 13 {
        'd'
    } else if v == 14 {
        'e'
    } else {
        'f'
    }
}

/// The value of a lowercase hexadecimal digit, if it is one.
pub open spec fn hex_val(d: char) -> Option<int> {
    if d == '0' {
        Some(0int)
    } else if d == '1' {
        Some(1int)
    } else if d == '2' {
        Some(2int)
    } else if d == '3' {
        Some(3int)
    } else if d == '4' {
        Some(4int)
    } else if d == '5' {
        Some(5int)
    } else if d == '6' {
        Some(6int)
    } else if d == '7' {
        Some(7int)
    } else if d == '8' {
        Some(8int)
    } else if d == '9' {
        Some(9int)
    } else if d == 'a' {
        Some(10int)
    } else if d == 'b' {
        Some(11int)
    } else if d == 'c' {
        Some(12int)
    } else if d == 'd' {
        Some(13int)
    } else if d == 'e' {
        Some(14int)
    } else if d == 'f' {
        Some(15int)
    } else {
        None
    }
}

/// A control character with no short named escape: the encoder writes it as
/// `\u00XX`.
pub open spec fn needs_unicode_escape(c: char) -> bool {
    (c as u32) < 32 && c != '\n' && c != '\r' && c != '\t'
}

/// The escape sequence the encoder emits for one character of a quoted
/// string.
pub open spec fn escape_char(c: char) -> Seq<char> {
    if c == '"' {
        seq!['\\', '"']
    } else if c == '\\' {
        seq!['\\', '\\']
    } else if c == '\n' {
        seq!['\\', 'n']
    } else if c == '\r' {
        seq!['\\', 'r']
    } else if c == '\t' {
        seq!['\\', 't']
    } else if needs_unicode_escape(c) {
        seq!['\\', 'u', '0', '0', hex_digit((c as u32) as int / 16), hex_digit(
            (c as u32) as int % 16,
        )]
    } else {
        seq![c]
    }
}

/// A character the encoder leaves unescaped inside a quoted string.
pub open spec fn plain_char(c: char) -> bool {
    c != '"' && c != '\\' && (c as u32) >= 32
}

/// The character a canonical `\u00XX` escape stands for: a control
/// character with no shorter escape.
pub open spec fn unescape_u(d1: char, d0: char) -> Option<char> {
    match (hex_val(d1), hex_val(d0)) {
        (Some(h), Some(l)) => {
            let v = h * 16 + l;
            if v < 32 && v != 9 && v != 10 && v != 13 {
                Some((v as u32) as char)
            } else {
                None
            }
        },
        _ => None,
    }
}

/// The body of a quoted string: every character escaped in turn.
pub open spec fn escape_str(s: Seq<char>) -> Seq<char>
    decreases s.len(),
{
    if s.len() == 0 {
        Seq::empty()
    } else {
        escape_char(s[0]) + escape_str(s.drop_first())
    }
}

/// The character an escape sequence `\x` stands for, if `\x` is one the
/// encoder emits.
pub open spec fn unescape_char(c: char) -> Option<char> {
    if c == '"' {
        Some('"')
    } else if c == '\\' {
        Some('\\')
    } else if c == 'n' {
        Some('\n')
    } else if c == 'r' {
        Some('\r')
    } else if c == 't' {
        Some('\t')
    } else {
        None
    }
}

pub open spec fn connect_prefix() -> Seq<char> {
    "{\"Connect\":{\"addr\":\""@
}

pub open spec fn disconnect_prefix() -> Seq<char> {
    "{\"Disconnect\":{\"addr\":\""@
}

pub open spec fn msg_prefix() -> Seq<char> {
    "{\"Msg\":{\"user\":\""@
}

/// What separates the two quoted fields of a `Msg`, after the first closing
/// quote has been consumed.
pub open spec fn msg_sep() -> Seq<char> {
    ",\"text\":\""@
}

pub open spec fn quote() -> Seq<char> {
    seq!['"']
}

pub open spec fn obj_close() -> Seq<char> {
    "}}"@
}

/// The canonical wire text of an action value.
pub open spec fn encode_view(v: ActionView) -> Seq<char> {
    match v {
        ActionView::Connect { addr } => connect_prefix() + escape_str(addr) + quote()
            + obj_close(),
        ActionView::Disconnect { addr } => disconnect_prefix() + escape_str(addr) + quote()
            + obj_close(),
        ActionView::Msg { user, text } => msg_prefix() + escape_str(user) + quote() + msg_sep()
            + escape_str(text) + quote() + obj_close(),
    }
}

pub open spec fn starts_with(s: Seq<char>, p: Seq<char>) -> bool {
    s.len() >= p.len() && s.take(p.len() as int) == p
}

/// Parse a quoted-string body: the unescaped content up to the first
/// unescaped quote, and whatever follows that quote. Strict: characters the
/// encoder would have escaped are rejected in plain position.
pub open spec fn take_string(s: Seq<char>) -> Option<(Seq<char>, Seq<char>)>
    decreases s.len(),
{
    if s.len() == 0 {
        None
    } else if s[0] == '"' {
        Some((Seq::empty(), s.drop_first()))
    } else if s[0] == '\\' {
        if s.len() < 2 {
            None
        } else if s[1] == 'u' {
            if s.len() < 6 || s[2] != '0' || s[3] != '0' {
                None
            } else {
                match unescape_u(s[4], s[5]) {
                    Some(c) => match take_string(s.skip(6)) {
                        Some(p) => Some((seq![c] + p.0, p.1)),
                        None => None,
                    },
                    None => None,
                }
            }
        } else {
            match unescape_char(s[1]) {
                Some(c) => match take_string(s.skip(2)) {
                    Some(p) => Some((seq![c] + p.0, p.1)),
                    None => None,
                },
                None => None,
            }
        }
    } else if plain_char(s[0]) {
        match take_string(s.drop_first()) {
            Some(p) => Some((seq![s[0]] + p.0, p.1)),
            None => None,
        }
    } else {
        None
    }
}

/// The parse of a full wire text: `Some` exactly on canonical encodings.
pub open spec fn parse_view(s: Seq<char>) -> Option<ActionView> {
    if starts_with(s, connect_prefix()) {
        match take_string(s.skip(connect_prefix().len() as int)) {
            Some(p) => if p.1 == obj_close() {
                Some(ActionView::Connect { addr: p.0 })
            } else {
                None
            },
            None => None,
        }
    } else if starts_with(s, disconnect_prefix()) {
        match take_string(s.skip(disconnect_prefix().len() as int)) {
            Some(p) => if p.1 == obj_close() {
                Some(ActionView::Disconnect { addr: p.0 })
            } else {
                None
            },
            None => None,
        }
    } else if starts_with(s, msg_prefix()) {
        match take_string(s.skip(msg_prefix().len() as int)) {
            Some(p) => if starts_with(p.1, msg_sep()) {
                match take_string(p.1.skip(msg_sep().len() as int)) {
                    Some(q) => if q.1 == obj_close() {
                        Some(ActionView::Msg { user: p.0, text: q.0 })
                    } else {
                        None
                    },
                    None => None,
                }
            } else {
                None
            },
            None => None,
        }
    } else {
        None
    }
}

/// Escaping one more character on the right appends its escape sequence.
proof fn lemma_escape_snoc(s: Seq<char>, c: char)
    ensures
        escape_str(s.push(c)) == escape_str(s) + escape_char(c),
    decreases s.len(),
{
    if s.len() == 0 {
        assert(s.push(c)[0] == c);
        assert(s.push(c).drop_first() =~= Seq::<char>::empty());
        assert(s =~= Seq::<char>::empty());
        assert(escape_str(Seq::<char>::empty()) == Seq::<char>::empty());
        assert(escape_str(s.push(c)) =~= escape_str(s) + escape_char(c));
    } else {
        assert(s.push(c)[0] == s[0]);
        assert(s.push(c).drop_first() =~= s.drop_first().push(c));
        lemma_escape_snoc(s.drop_first(), c);
        assert(escape_str(s.push(c)) =~= escape_str(s) + escape_char(c));
    }
}

/// A quoted-string body followed by a quote parses back to itself.
pub proof fn lemma_take_escaped(t: Seq<char>, rest: Seq<char>)
    ensures
        take_string(escape_str(t) + quote() + rest) == Some((t, rest)),
    decreases t.len(),
{
    let s = escape_str(t) + quote() + rest;
    if t.len() == 0 {
        assert(escape_str(t) =~= Seq::<char>::empty());
        assert(s[0] == '"');
        assert(s.drop_first() =~= rest);
        assert(take_string(s) == Some((Seq::<char>::empty(), rest)));
        assert(Seq::<char>::empty() =~= t);
    } else {
        let c = t[0];
        let tl = t.drop_first();
        lemma_take_escaped(tl, rest);
        if plain_char(c) {
            assert(escape_char(c) =~= seq![c]);
            assert(s[0] == c);
            assert(s.drop_first() =~= escape_str(tl) + quote() + rest);
            assert(take_string(s) == Some((seq![c] + tl, rest)));
            assert(seq![c] + tl =~= t);
        } else if needs_unicode_escape(c) {
            let u = (c as u32) as int;
            let d1 = hex_digit(u / 16);
            let d0 = hex_digit(u % 16);
            assert(escape_char(c) =~= seq!['\\', 'u', '0', '0', d1, d0]);
            assert(s[0] == '\\');
            assert(s.len() >= 6);
            assert(s[1] == 'u' && s[2] == '0' && s[3] == '0' && s[4] == d1 && s[5] == d0);
            assert(0 <= u < 32);
            assert(hex_val(d1) == Some(u / 16));
            assert(hex_val(d0) == Some(u % 16));
            assert((u / 16) * 16 + u % 16 == u);
            vstd::utf8::char_u32_cast(c, c as u32);
            if u == 9 {
                vstd::utf8::char_u32_cast('\t', 9u32);
                assert(c == '\t');
            }
            if u == 10 {
                vstd::utf8::char_u32_cast('\n', 10u32);
                assert(c == '\n');
            }
            if u == 13 {
                vstd::utf8::char_u32_cast('\r', 13u32);
                assert(c == '\r');
            }
            assert(unescape_u(d1, d0) == Some(c));
            assert(s.skip(6) =~= escape_str(tl) + quote() + rest);
            assert(take_string(s) == Some((seq![c] + tl, rest)));
            assert(seq![c] + tl =~= t);
        } else {
            let e = escape_char(c)[1];
            assert(escape_char(c) =~= seq!['\\', e]);
            assert(s[0] == '\\');
            assert(s.len() >= 2);
            assert(s[1] == e);
            assert(e != 'u');
            assert(unescape_char(e) == Some(c));
            assert(s.skip(2) =~= escape_str(tl) + quote() + rest);
            assert(take_string(s) == Some((seq![c] + tl, rest)));
            assert(seq![c] + tl =~= t);
        }
    }
}

/// A successful string parse is the parse of a canonical escape: the input
/// is the escaped content, the closing quote, then the remainder.
pub proof fn lemma_take_canonical(s: Seq<char>)
    ensures
        take_string(s) matches Some(p) ==> s == escape_str(p.0) + quote() + p.1,
    decreases s.len(),
{
    if take_string(s) is Some {
        let p = take_string(s)->Some_0;
        if s[0] == '"' {
            assert(p.0 =~= Seq::<char>::empty());
            assert(escape_str(p.0) =~= Seq::<char>::empty());
            assert(s =~= escape_str(p.0) + quote() + p.1);
        } else if s[0] == '\\' && s[1] == 'u' {
            let c = unescape_u(s[4], s[5])->Some_0;
            let q = take_string(s.skip(6))->Some_0;
            lemma_take_canonical(s.skip(6));
            assert(p.0 == seq![c] + q.0);
            assert(p.1 == q.1);
            assert((seq![c] + q.0)[0] == c);
            assert((seq![c] + q.0).drop_first() =~= q.0);
            let h = hex_val(s[4])->Some_0;
            let l = hex_val(s[5])->Some_0;
            let v = h * 16 + l;
            assert(0 <= h <= 15 && 0 <= l <= 15);
            assert(c == (v as u32) as char);
            assert((c as u32) as int == v);
            assert(needs_unicode_escape(c)) by {
                vstd::utf8::char_u32_cast(c, c as u32);
                assert(('\n' as u32) as int == 10 && ('\r' as u32) as int == 13 && ('\t'
                    as u32) as int == 9);
            }
            assert(c != '"' && c != '\\') by {
                assert(('"' as u32) as int == 34 && ('\\' as u32) as int == 92);
            }
            assert(v / 16 == h && v % 16 == l);
            assert(hex_digit(v / 16) == s[4]);
            assert(hex_digit(v % 16) == s[5]);
            assert(escape_char(c) =~= seq!['\\', 'u', '0', '0', s[4], s[5]]);
            assert(escape_str(p.0) =~= escape_char(c) + escape_str(q.0));
            assert(s =~= seq!['\\', 'u', '0', '0', s[4], s[5]] + s.skip(6));
            assert(s =~= escape_str(p.0) + quote() + p.1);
        } else if s[0] == '\\' {
            let c = unescape_char(s[1])->Some_0;
            let q = take_string(s.skip(2))->Some_0;
            lemma_take_canonical(s.skip(2));
            assert(p.0 == seq![c] + q.0);
            assert(p.1 == q.1);
            assert((seq![c] + q.0)[0] == c);
            assert((seq![c] + q.0).drop_first() =~= q.0);
            assert(escape_char(c) =~= seq!['\\', s[1]]);
            assert(escape_str(p.0) =~= escape_char(c) + escape_str(q.0));
            assert(s =~= seq!['\\', s[1]] + s.skip(2));
            assert(s =~= escape_str(p.0) + quote() + p.1);
        } else {
            let q = take_string(s.drop_first())->Some_0;
            lemma_take_canonical(s.drop_first());
            assert(p.0 == seq![s[0]] + q.0);
            assert((seq![s[0]] + q.0)[0] == s[0]);
            assert((seq![s[0]] + q.0).drop_first() =~= q.0);
            assert(escape_char(s[0]) =~= seq![s[0]]);
            assert(escape_str(p.0) =~= escape_char(s[0]) + escape_str(q.0));
            assert(s =~= seq![s[0]] + s.drop_first());
            assert(s =~= escape_str(p.0) + quote() + p.1);
        }
    }
}

/// The three wire prefixes are pairwise incompatible: they differ at index 2.
proof fn lemma_prefixes_distinct()
    ensures
        connect_prefix().len() == 20,
        disconnect_prefix().len() == 23,
        msg_prefix().len() == 16,
        connect_prefix()[2] == 'C',
        disconnect_prefix()[2] == 'D',
        msg_prefix()[2] == 'M',
{
    reveal_strlit("{\"Connect\":{\"addr\":\"");
    reveal_strlit("{\"Disconnect\":{\"addr\":\"");
    reveal_strlit("{\"Msg\":{\"user\":\"");
}

/// A string that starts with one wire prefix starts with no other.
proof fn lemma_prefix_cases(s: Seq<char>, p1: Seq<char>, p2: Seq<char>, i: int)
    requires
        starts_with(s, p1),
        0 <= i < p1.len(),
        i < p2.len(),
        p1[i] != p2[i],
    ensures
        !starts_with(s, p2),
{
    if starts_with(s, p2) {
        assert(s.take(p1.len() as int)[i] == s[i]);
        assert(s.take(p2.len() as int)[i] == s[i]);
        assert(p1[i] == s[i]);
        assert(p2[i] == s[i]);
    }
}

/// Round-trip law: every action value parses back from its encoding.
pub proof fn lemma_round_trip(v: ActionView)
    ensures
        parse_view(encode_view(v)) == Some(v),
{
    lemma_prefixes_distinct();
    let s = encode_view(v);
    match v {
        ActionView::Connect { addr } => {
            let tail = escape_str(addr) + quote() + obj_close();
            assert(s =~= connect_prefix() + tail);
            assert(s.take(connect_prefix().len() as int) =~= connect_prefix());
            assert(starts_with(s, connect_prefix()));
            assert(s.skip(connect_prefix().len() as int) =~= tail);
            lemma_take_escaped(addr, obj_close());
        },
        ActionView::Disconnect { addr } => {
            let tail = escape_str(addr) + quote() + obj_close();
            assert(s =~= disconnect_prefix() + tail);
            assert(s.take(disconnect_prefix().len() as int) =~= disconnect_prefix());
            assert(starts_with(s, disconnect_prefix()));
            lemma_prefix_cases(s, disconnect_prefix(), connect_prefix(), 2);
            assert(s.skip(disconnect_prefix().len() as int) =~= tail);
            lemma_take_escaped(addr, obj_close());
        },
        ActionView::Msg { user, text } => {
            let tail2 = escape_str(text) + quote() + obj_close();
            let tail1 = escape_str(user) + quote() + (msg_sep() + tail2);
            assert(s =~= msg_prefix() + tail1);
            assert(s.take(msg_prefix().len() as int) =~= msg_prefix());
            assert(starts_with(s, msg_prefix()));
            lemma_prefix_cases(s, msg_prefix(), connect_prefix(), 2);
            lemma_prefix_cases(s, msg_prefix(), disconnect_prefix(), 2);
            assert(s.skip(msg_prefix().len() as int) =~= tail1);
            lemma_take_escaped(user, msg_sep() + tail2);
            let rest1 = msg_sep() + tail2;
            assert(rest1.take(msg_sep().len() as int) =~= msg_sep());
            assert(starts_with(rest1, msg_sep()));
            assert(rest1.skip(msg_sep().len() as int) =~= tail2);
            lemma_take_escaped(text, obj_close());
        },
    }
}

/// Canonicity: a string that parses at all is the encoding of its parse.
/// Together with the round-trip law this makes the encoding injective.
pub proof fn lemma_parse_canonical(s: Seq<char>)
    ensures
        parse_view(s) matches Some(v) ==> s == encode_view(v),
{
    if parse_view(s) is Some {
        let v = parse_view(s)->Some_0;
        if starts_with(s, connect_prefix()) {
            let tail = s.skip(connect_prefix().len() as int);
            lemma_take_canonical(tail);
            let p = take_string(tail)->Some_0;
            assert(s =~= connect_prefix() + tail);
            assert(s =~= encode_view(ActionView::Connect { addr: p.0 }));
        } else if starts_with(s, disconnect_prefix()) {
            let tail = s.skip(disconnect_prefix().len() as int);
            lemma_take_canonical(tail);
            let p = take_string(tail)->Some_0;
            assert(s =~= disconnect_prefix() + tail);
            assert(s =~= encode_view(ActionView::Disconnect { addr: p.0 }));
        } else {
            let tail = s.skip(msg_prefix().len() as int);
            lemma_take_canonical(tail);
            let p = take_string(tail)->Some_0;
            let rest1 = p.1;
            let tail2 = rest1.skip(msg_sep().len() as int);
            lemma_take_canonical(tail2);
            let q = take_string(tail2)->Some_0;
            assert(rest1 =~= msg_sep() + tail2);
            assert(s =~= msg_prefix() + tail);
            assert(s =~= encode_view(ActionView::Msg { user: p.0, text: q.0 }));
        }
    }
}

/// The encoding is injective: distinct action values have distinct wire
/// texts.
pub proof fn lemma_encode_injective(v1: ActionView, v2: ActionView)
    requires
        encode_view(v1) == encode_view(v2),
    ensures
        v1 == v2,
{
    lemma_round_trip(v1);
    lemma_round_trip(v2);
}

/// Relies on `String: FromIterator<char>` via `collect`: the collected
/// string holds exactly the characters of the vector, in order.
#[verifier::external_body]
pub(crate) fn chars_to_string(v: &Vec<char>) -> (r: String)
    ensures
        r@ == v@,
{
    v.iter().collect()
}

/// The characters of `s`, as a vector.
pub(crate) fn to_chars(s: &str) -> (r: Vec<char>)
    ensures
        r@ == s@,
{
    let n = s.unicode_len();
    let mut r: Vec<char> = Vec::new();
    let mut i: usize = 0;
    while i < n
        invariant
            0 <= i <= n,
            n == s@.len(),
            r@ == s@.take(i as int),
        decreases n - i,
    {
        r.push(s.get_char(i));
        proof {
            assert(r@ =~= s@.take(i + 1));
        }
        i = i + 1;
    }
    proof {
        assert(s@.take(n as int) =~= s@);
    }
    r
}

/// Appends the characters of `p` to `out`.
pub(crate) fn append_str(out: &mut Vec<char>, p: &str)
    ensures
        final(out)@ == old(out)@ + p@,
{
    let n = p.unicode_len();
    let mut i: usize = 0;
    while i < n
        invariant
            0 <= i <= n,
            n == p@.len(),
            out@ == old(out)@ + p@.take(i as int),
        decreases n - i,
    {
        out.push(p.get_char(i));
        proof {
            assert(old(out)@ + p@.take(i as int) + seq![p@[i as int]] =~= old(out)@ + p@.take(
                i + 1,
            ));
        }
        i = i + 1;
    }
    proof {
        assert(p@.take(n as int) =~= p@);
    }
}

/// The lowercase hexadecimal digit for a value below 16, as executable code.
fn hex_digit_exec(v: u32) -> (r: char)
    requires
        v < 16,
    ensures
        r == hex_digit(v as int),
{
    if v == 0 {
        '0'
    } else if v == 1 {
        '1'
    } else if v == 2 {
        '2'
    } else if v == 3 {
        '3'
    } else if v == 4 {
        '4'
    } else if v == 5 {
        '5'
    } else if v == 6 {
        '6'
    } else if v == 7 {
        '7'
    } else if v == 8 {
        '8'
    } else if v == 9 {
        '9'
    } else if v == 10 {
        'a'
    } else if v == 11 {
        'b'
    } else if v == 12 {
        'c'
    } else if v == 13 {
        'd'
    } else if v == 14 {
        'e'
    } else {
        'f'
    }
}

/// The value of a lowercase hexadecimal digit, as executable code.
fn hex_val_exec(d: char) -> (r: Option<u32>)
    ensures
        (r matches Some(v) ==> v < 16 && hex_val(d) == Some(v as int)),
        (r is None ==> hex_val(d) is None),
{
    if d == '0' {
        Some(0)
    } else if d == '1' {
        Some(1)
    } else if d == '2' {
        Some(2)
    } else if d == '3' {
        Some(3)
    } else if d == '4' {
        Some(4)
    } else if d == '5' {
        Some(5)
    } else if d == '6' {
        Some(6)
    } else if d == '7' {
        Some(7)
    } else if d == '8' {
        Some(8)
    } else if d == '9' {
        Some(9)
    } else if d == 'a' {
        Some(10)
    } else if d == 'b' {
        Some(11)
    } else if d == 'c' {
        Some(12)
    } else if d == 'd' {
        Some(13)
    } else if d == 'e' {
        Some(14)
    } else if d == 'f' {
        Some(15)
    } else {
        None
    }
}

/// Appends the escaped form of the characters of `p` to `out`.
pub(crate) fn append_escaped(out: &mut Vec<char>, p: &str)
    ensures
        final(out)@ == old(out)@ + escape_str(p@),
{
    let n = p.unicode_len();
    let mut i: usize = 0;
    proof {
        assert(escape_str(p@.take(0)) =~= Seq::<char>::empty());
        assert(out@ =~= old(out)@ + escape_str(p@.take(0)));
    }
    while i < n
        invariant
            0 <= i <= n,
            n == p@.len(),
            out@ == old(out)@ + escape_str(p@.take(i as int)),
        decreases n - i,
    {
        let c = p.get_char(i);
        if c == '"' {
            out.push('\\');
            out.push('"');
        } else if c == '\\' {
            out.push('\\');
            out.push('\\');
        } else if c == '\n' {
            out.push('\\');
            out.push('n');
        } else if c == '\r' {
            out.push('\\');
            out.push('r');
        } else if c == '\t' {
            out.push('\\');
            out.push('t');
        } else if (c as u32) < 32 {
            out.push('\\');
            out.push('u');
            out.push('0');
            out.push('0');
            let u = c as u32;
            out.push(hex_digit_exec(u / 16));
            out.push(hex_digit_exec(u % 16));
        } else {
            out.push(c);
        }
        proof {
            lemma_escape_snoc(p@.take(i as int), c);
            assert(p@.take(i + 1) =~= p@.take(i as int).push(c));
            assert(out@ =~= old(out)@ + escape_str(p@.take(i + 1)));
        }
        i = i + 1;
    }
    proof {
        assert(p@.take(n as int) =~= p@);
    }
}

/// The closing of a one-field object: a quote then two braces.
proof fn lemma_close_lit()
    ensures
        "\"}}"@ == quote() + obj_close(),
{
    reveal_strlit("\"}}");
    reveal_strlit("}}");
    assert("\"}}"@ =~= quote() + obj_close());
}

/// The text between the two fields of a `Msg`: a quote then the separator.
proof fn lemma_sep_lit()
    ensures
        "\",\"text\":\""@ == quote() + msg_sep(),
{
    reveal_strlit("\",\"text\":\"");
    reveal_strlit(",\"text\":\"");
    assert("\",\"text\":\""@ =~= quote() + msg_sep());
}

/// Serializes an action to its wire text.
pub fn encode(a: &ChatAction) -> (r: String)
    ensures
        r@ == encode_view(a@),
{
    let mut out: Vec<char> = Vec::new();
    match a {
        ChatAction::Connect { addr } => {
            append_str(&mut out, "{\"Connect\":{\"addr\":\"");
            append_escaped(&mut out, addr.as_str());
            append_str(&mut out, "\"}}");
            proof {
                lemma_close_lit();
                assert(out@ =~= encode_view(a@));
            }
        },
        ChatAction::Disconnect { addr } => {
            append_str(&mut out, "{\"Disconnect\":{\"addr\":\"");
            append_escaped(&mut out, addr.as_str());
            append_str(&mut out, "\"}}");
            proof {
                lemma_close_lit();
                assert(out@ =~= encode_view(a@));
            }
        },
        ChatAction::Msg { user, text } => {
            append_str(&mut out, "{\"Msg\":{\"user\":\"");
            append_escaped(&mut out, user.as_str());
            append_str(&mut out, "\",\"text\":\"");
            append_escaped(&mut out, text.as_str());
            append_str(&mut out, "\"}}");
            proof {
                lemma_close_lit();
                lemma_sep_lit();
                assert(out@ =~= encode_view(a@));
            }
        },
    }
    chars_to_string(&out)
}

/// Whether `cs` starts with the characters of `p`.
pub(crate) fn has_prefix(cs: &Vec<char>, p: &str) -> (r: bool)
    ensures
        r == starts_with(cs@, p@),
{
    let n = p.unicode_len();
    if cs.len() < n {
        assert(!starts_with(cs@, p@));
        return false;
    }
    let mut i: usize = 0;
    while i < n
        invariant
            0 <= i <= n,
            n == p@.len(),
            n <= cs@.len(),
            forall|j: int| 0 <= j < i ==> cs@[j] == p@[j],
        decreases n - i,
    {
        if cs[i] != p.get_char(i) {
            assert(cs@.take(p@.len() as int)[i as int] == cs@[i as int]);
            assert(!starts_with(cs@, p@));
            return false;
        }
        i = i + 1;
    }
    proof {
        assert(cs@.take(p@.len() as int) =~= p@);
    }
    true
}

/// Whether everything from position `j` on is exactly the two closing
/// braces.
fn rest_is_close(cs: &Vec<char>, j: usize) -> (r: bool)
    requires
        j <= cs@.len(),
    ensures
        r == (cs@.skip(j as int) == obj_close()),
{
    proof {
        reveal_strlit("}}");
    }
    if cs.len() - j == 2 && cs[j] == '}' && cs[j + 1] == '}' {
        proof {
            assert(cs@.skip(j as int) =~= obj_close());
        }
        true
    } else {
        proof {
            if cs@.skip(j as int) == obj_close() {
                assert(cs@.skip(j as int).len() == 2);
                assert(cs@.skip(j as int)[0] == '}');
                assert(cs@.skip(j as int)[1] == '}');
                assert(cs@[j as int] == '}');
                assert(cs@[j + 1] == '}');
            }
        }
        false
    }
}

/// The inverse of one escape sequence, as executable code.
pub(crate) fn unescape_char_exec(c: char) -> (r: Option<char>)
    ensures
        r == unescape_char(c),
{
    if c == '"' {
        Some('"')
    } else if c == '\\' {
        Some('\\')
    } else if c == 'n' {
        Some('\n')
    } else if c == 'r' {
        Some('\r')
    } else if c == 't' {
        Some('\t')
    } else {
        None
    }
}

/// Parses a quoted-string body starting at `from`; on success returns the
/// content and the position just past the closing quote.
pub(crate) fn take_string_exec(cs: &Vec<char>, from: usize) -> (r: Option<(Vec<char>, usize)>)
    requires
        from <= cs@.len(),
    ensures
        match r {
            Some(p) => from < p.1 <= cs@.len() && take_string(cs@.skip(from as int)) == Some(
                (p.0@, cs@.skip(p.1 as int)),
            ),
            None => take_string(cs@.skip(from as int)) is None,
        },
    decreases cs@.len() - from,
{
    let ghost s = cs@.skip(from as int);
    if from == cs.len() {
        return None;
    }
    let c = cs[from];
    proof {
        assert(s[0] == c);
    }
    if c == '"' {
        proof {
            assert(s.drop_first() =~= cs@.skip(from + 1));
        }
        Some((Vec::new(), from + 1))
    } else if c == '\\' {
        if from + 1 == cs.len() {
            proof {
                assert(s.len() < 2);
            }
            return None;
        }
        let e = cs[from + 1];
        proof {
            assert(s[1] == e);
        }
        if e == 'u' {
            if cs.len() - from < 6 {
                proof {
                    assert(s.len() < 6);
                }
                return None;
            }
            proof {
                assert(s[2] == cs@[from + 2] && s[3] == cs@[from + 3] && s[4] == cs@[from + 4]
                    && s[5] == cs@[from + 5]);
            }
            if cs[from + 2] != '0' || cs[from + 3] != '0' {
                return None;
            }
            let h = match hex_val_exec(cs[from + 4]) {
                Some(h) => h,
                None => {
                    return None;
                },
            };
            let l = match hex_val_exec(cs[from + 5]) {
                Some(l) => l,
                None => {
                    return None;
                },
            };
            let v: u32 = h * 16 + l;
            if v < 32 && v != 9 && v != 10 && v != 13 {
                let u = (v as u8) as char;
                proof {
                    assert(u == (v as u32) as char);
                    assert(unescape_u(s[4], s[5]) == Some(u));
                    assert(s.skip(6) =~= cs@.skip(from + 6));
                }
                match take_string_exec(cs, from + 6) {
                    Some(p) => {
                        let (mut t, j) = p;
                        let ghost t0 = t@;
                        t.insert(0, u);
                        proof {
                            assert(t@ =~= seq![u] + t0);
                        }
                        return Some((t, j));
                    },
                    None => {
                        return None;
                    },
                }
            } else {
                return None;
            }
        }
        match unescape_char_exec(e) {
            Some(u) => {
                proof {
                    assert(s.skip(2) =~= cs@.skip(from + 2));
                }
                match take_string_exec(cs, from + 2) {
                    Some(p) => {
                        let (mut t, j) = p;
                        let ghost t0 = t@;
                        t.insert(0, u);
                        proof {
                            assert(t@ =~= seq![u] + t0);
                        }
                        Some((t, j))
                    },
                    None => None,
                }
            },
            None => None,
        }
    } else if (c as u32) >= 32 {
        proof {
            assert(plain_char(c));
            assert(s.drop_first() =~= cs@.skip(from + 1));
        }
        match take_string_exec(cs, from + 1) {
            Some(p) => {
                let (mut t, j) = p;
                let ghost t0 = t@;
                t.insert(0, c);
                proof {
                    assert(t@ =~= seq![c] + t0);
                }
                Some((t, j))
            },
            None => None,
        }
    } else {
        proof {
            assert(!plain_char(c));
        }
        None
    }
}

/// Deserializes wire text. Succeeds exactly on the canonical output of
/// `encode`; anything else is a `MalformedAction` error.
pub fn decode(s: &str) -> (r: Result<ChatAction, DecodeError>)
    ensures
        r matches Ok(a) ==> parse_view(s@) == Some(a@),
        r is Err ==> parse_view(s@) is None,
{
    let cs = to_chars(s);
    if has_prefix(&cs, "{\"Connect\":{\"addr\":\"") {
        let plen = "{\"Connect\":{\"addr\":\"".unicode_len();
        match take_string_exec(&cs, plen) {
            Some(p) => {
                let (t, j) = p;
                if rest_is_close(&cs, j) {
                    Ok(ChatAction::Connect { addr: chars_to_string(&t) })
                } else {
                    Err(DecodeError::MalformedAction)
                }
            },
            None => Err(DecodeError::MalformedAction),
        }
    } else if has_prefix(&cs, "{\"Disconnect\":{\"addr\":\"") {
        let plen = "{\"Disconnect\":{\"addr\":\"".unicode_len();
        match take_string_exec(&cs, plen) {
            Some(p) => {
                let (t, j) = p;
                if rest_is_close(&cs, j) {
                    Ok(ChatAction::Disconnect { addr: chars_to_string(&t) })
                } else {
                    Err(DecodeError::MalformedAction)
                }
            },
            None => Err(DecodeError::MalformedAction),
        }
    } else if has_prefix(&cs, "{\"Msg\":{\"user\":\"") {
        let plen = "{\"Msg\":{\"user\":\"".unicode_len();
        match take_string_exec(&cs, plen) {
            Some(p) => {
                let (t, j) = p;
                let ghost rest1 = cs@.skip(j as int);
                if has_prefix_at(&cs, j, ",\"text\":\"") {
                    let slen = ",\"text\":\"".unicode_len();
                    proof {
                        assert(cs@.skip(j as int).len() >= msg_sep().len());
                        assert(j + slen <= cs@.len());
                        assert(rest1.skip(msg_sep().len() as int) =~= cs@.skip(j + slen));
                    }
                    match take_string_exec(&cs, j + slen) {
                        Some(q) => {
                            let (t2, j2) = q;
                            if rest_is_close(&cs, j2) {
                                Ok(
                                    ChatAction::Msg {
                                        user: chars_to_string(&t),
                                        text: chars_to_string(&t2),
                                    },
                                )
                            } else {
                                Err(DecodeError::MalformedAction)
                            }
                        },
                        None => Err(DecodeError::MalformedAction),
                    }
                } else {
                    Err(DecodeError::MalformedAction)
                }
            },
            None => Err(DecodeError::MalformedAction),
        }
    } else {
        Err(DecodeError::MalformedAction)
    }
}

/// Whether the characters of `p` appear at position `at` of `cs`.
pub(crate) fn has_prefix_at(cs: &Vec<char>, at: usize, p: &str) -> (r: bool)
    requires
        at <= cs@.len(),
    ensures
        r == starts_with(cs@.skip(at as int), p@),
{
    let n = p.unicode_len();
    if cs.len() - at < n {
        assert(!starts_with(cs@.skip(at as int), p@));
        return false;
    }
    let mut i: usize = 0;
    while i < n
        invariant
            0 <= i <= n,
            n == p@.len(),
            at + n <= cs@.len(),
            cs@.len() <= usize::MAX,
            forall|j: int| 0 <= j < i ==> cs@[at + j] == p@[j],
        decreases n - i,
    {
        if cs[at + i] != p.get_char(i) {
            proof {
                let sk = cs@.skip(at as int);
                if starts_with(sk, p@) {
                    assert(sk.take(p@.len() as int)[i as int] == sk[i as int]);
                    assert(sk[i as int] == cs@[at + i]);
                }
            }
            return false;
        }
        i = i + 1;
    }
    proof {
        let sk = cs@.skip(at as int);
        assert forall|j: int| 0 <= j < p@.len() implies sk.take(p@.len() as int)[j] == p@[j] by {
            assert(sk[j] == cs@[at + j]);
        }
        assert(sk.take(p@.len() as int) =~= p@);
    }
    true
}

} // verus!

