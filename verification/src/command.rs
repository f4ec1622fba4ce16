use vstd::prelude::*;
use vstd::string::*;
use vstd::utf8::*;

use crate::frame::{encode, lemma_parse_encoded_frame, parse_contents, transparent, Frame, ESCAPED_ESCAPE, ESCAPED_FLAG};

verus! {

/// What the owner of a server asks it to do.
#[derive(Debug, PartialEq, Eq)]
pub enum ServerCommand {
    /// Send a message to the given channel, if any.
    Message(Option<String>, String),
    /// Terminate the server.
    Terminate,
}

impl Clone for ServerCommand {
    fn clone(&self) -> (copy: ServerCommand)
        ensures
            copy == *self,
    {
        match self {
            ServerCommand::Message(target, msg) => ServerCommand::Message(
                match target {
                    Some(t) => Some(t.clone()),
                    None => None,
                },
                msg.clone(),
            ),
            ServerCommand::Terminate => ServerCommand::Terminate,
        }
    }
}

/// A command carried in a frame between a client and the server.
#[derive(Debug)]
pub enum ChannelCommand {
    /// Identify the connection endpoint, normally by its job id.
    Identify(String),
    /// Terminate the connection.
    Terminate(String),
    /// A message for a channel, normally sent by the server.
    ChannelMessage((String, String)),
    /// Ping.
    Ping,
    /// Pong.
    Pong,
}

/// A channel command, with its texts taken as characters.
pub enum CommandView {
    Identify(Seq<char>),
    Terminate(Seq<char>),
    ChannelMessage(Seq<char>, Seq<char>),
    Ping,
    Pong,
}

impl View for ChannelCommand {
    type V = CommandView;

    open spec fn view(&self) -> CommandView {
        match self {
            ChannelCommand::Identify(id) => CommandView::Identify(id@),
            ChannelCommand::Terminate(id) => CommandView::Terminate(id@),
            ChannelCommand::ChannelMessage((id, msg)) => CommandView::ChannelMessage(id@, msg@),
            ChannelCommand::Ping => CommandView::Ping,
            ChannelCommand::Pong => CommandView::Pong,
        }
    }
}

impl Clone for ChannelCommand {
    fn clone(&self) -> (copy: ChannelCommand)
        ensures
            copy@ == self@,
    {
        match self {
            ChannelCommand::Identify(id) => ChannelCommand::Identify(id.clone()),
            ChannelCommand::Terminate(id) => ChannelCommand::Terminate(id.clone()),
            ChannelCommand::ChannelMessage((id, msg)) => ChannelCommand::ChannelMessage(
                (id.clone(), msg.clone()),
            ),
            ChannelCommand::Ping => ChannelCommand::Ping,
            ChannelCommand::Pong => ChannelCommand::Pong,
        }
    }
}

/// The text a command is written as.
pub open spec fn command_text(c: CommandView) -> Seq<char> {
    match c {
        CommandView::Identify(id) => "@identify<"@ + id + ">"@,
        CommandView::Terminate(id) => "@terminate<"@ + id + ">"@,
        CommandView::ChannelMessage(id, msg) => "@message<"@ + id + ">"@ + msg,
        CommandView::Ping => "@ping"@,
        CommandView::Pong => "@pong"@,
    }
}

/// Whether `c` is a decimal digit in the sense of the `\d` class of the
/// `regex` crate (Unicode category Nd).
pub uninterp spec fn decimal_digit(c: char) -> bool;

/// Tells whether `c` is a decimal digit, as `regex` matches `\d`.
///
/// Calls `regex::Regex::is_match` with the pattern `^\d$` on the one-character
/// text `c`, and claims no more than that the answer is `decimal_digit(c)`.
#[verifier::external_body]
fn is_decimal_digit(c: char) -> (digit: bool)
    ensures
        digit == decimal_digit(c),
{
    let mut buf = [0u8; 4];
    regex::Regex::new(r"^\d$").unwrap().is_match(c.encode_utf8(&mut buf))
}

/// A character that may appear in a job id (the class `[a-f\d-]`): `a` to
/// `f`, `-`, an ASCII digit, or a character beyond ASCII that is a decimal
/// digit. Among ASCII characters the digits of `\d` are `0` to `9`.
pub open spec fn is_id_char(c: char) -> bool {
    if (c as u32) < 128 {
        ('a' <= c && c <= 'f') || c == '-' || ('0' <= c && c <= '9')
    } else {
        decimal_digit(c)
    }
}

/// A job id as commands carry it: one or more id characters.
pub open spec fn valid_id(id: Seq<char>) -> bool {
    id.len() > 0 && forall|i: int| 0 <= i < id.len() ==> is_id_char(#[trigger] id[i])
}

/// How many id characters follow position `i` of `t` without a break.
pub open spec fn id_run(t: Seq<char>, i: int) -> nat
    decreases t.len() - i,
{
    if 0 <= i < t.len() && is_id_char(t[i]) {
        1 + id_run(t, i + 1)
    } else {
        0
    }
}

/// Where `t` holds `tag`, then one or more id characters, then `>`: the
/// position of that `>`.
pub open spec fn id_end(t: Seq<char>, tag: Seq<char>) -> Option<int> {
    let start = tag.len() as int;
    let end = start + id_run(t, start);
    if start <= t.len() && t.subrange(0, start) == tag && end > start && end < t.len() && t[end]
        == '>' {
        Some(end)
    } else {
        None
    }
}

/// No line break in `s`.
pub open spec fn single_line(s: Seq<char>) -> bool {
    forall|i: int| 0 <= i < s.len() ==> s[i] != '\n'
}

/// The command a text stands for, if any. `@ping` and `@pong` stand alone;
/// `@identify<id>` and `@terminate<id>` may be followed by anything;
/// `@message<id>` is followed by the message, which has no line break.
pub open spec fn decode_command(t: Seq<char>) -> Option<CommandView> {
    if t == "@ping"@ {
        Some(CommandView::Ping)
    } else if t == "@pong"@ {
        Some(CommandView::Pong)
    } else if let Some(e) = id_end(t, "@identify<"@) {
        Some(CommandView::Identify(t.subrange("@identify<"@.len() as int, e)))
    } else if let Some(e) = id_end(t, "@terminate<"@) {
        Some(CommandView::Terminate(t.subrange("@terminate<"@.len() as int, e)))
    } else if let Some(e) = id_end(t, "@message<"@) {
        if single_line(t.subrange(e + 1, t.len() as int)) {
            Some(
                CommandView::ChannelMessage(
                    t.subrange("@message<"@.len() as int, e),
                    t.subrange(e + 1, t.len() as int),
                ),
            )
        } else {
            None
        }
    } else {
        None
    }
}

/// The command a frame carries: its content read as UTF-8 text, decoded.
pub open spec fn frame_command(content: Seq<u8>) -> Option<CommandView> {
    if valid_utf8(content) {
        decode_command(decode_utf8(content))
    } else {
        None
    }
}

/// A command that its text stands for: ids are valid and a message has no
/// line break.
pub open spec fn well_formed(c: CommandView) -> bool {
    match c {
        CommandView::Identify(id) => valid_id(id),
        CommandView::Terminate(id) => valid_id(id),
        CommandView::ChannelMessage(id, msg) => valid_id(id) && single_line(msg),
        CommandView::Ping => true,
        CommandView::Pong => true,
    }
}

/// Over a stretch of `n` id characters from `start`, the run goes on.
proof fn lemma_id_run_over(t: Seq<char>, start: int, n: int)
    requires
        0 <= start,
        0 <= n,
        start + n <= t.len(),
        forall|j: int| start <= j < start + n ==> is_id_char(#[trigger] t[j]),
    ensures
        id_run(t, start) == n + id_run(t, start + n),
    decreases n,
{
    if n > 0 {
        lemma_id_run_over(t, start + 1, n - 1);
    }
}

/// The text `tag`, a valid id, `>` and `rest`: the id ends at that `>`.
proof fn lemma_id_end_tagged(tag: Seq<char>, id: Seq<char>, rest: Seq<char>)
    requires
        valid_id(id),
    ensures
        id_end(tag + id + ">"@ + rest, tag) == Some((tag.len() + id.len()) as int),
        (tag + id + ">"@ + rest).subrange(tag.len() as int, (tag.len() + id.len()) as int) == id,
        (tag + id + ">"@ + rest).subrange(
            (tag.len() + id.len() + 1) as int,
            (tag + id + ">"@ + rest).len() as int,
        ) == rest,
{
    reveal_strlit(">");
    let t = tag + id + ">"@ + rest;
    let start = tag.len() as int;
    let end = start + id.len();
    assert forall|j: int| start <= j < end implies is_id_char(#[trigger] t[j]) by {
        assert(t[j] == id[j - start]);
    }
    lemma_id_run_over(t, start, id.len() as int);
    assert(t[end] == '>');
    assert(id_run(t, end) == 0);
    assert(t.subrange(0, start) =~= tag);
    assert(t.subrange(start, end) =~= id);
    assert(t.subrange(end + 1, t.len() as int) =~= rest);
}

/// A text that does not start with `tag` has no id after it.
proof fn lemma_id_end_other(t: Seq<char>, tag: Seq<char>, i: int)
    requires
        0 <= i < tag.len(),
        i < t.len(),
        t[i] != tag[i],
    ensures
        id_end(t, tag) is None,
{
    if tag.len() <= t.len() {
        assert(t.subrange(0, tag.len() as int)[i] != tag[i]);
    }
}

/// The text of a well-formed command decodes to that command.
pub proof fn lemma_decode_command_text(c: CommandView)
    requires
        well_formed(c),
    ensures
        decode_command(command_text(c)) == Some(c),
{
    reveal_strlit("@ping");
    reveal_strlit("@pong");
    reveal_strlit("@identify<");
    reveal_strlit("@terminate<");
    reveal_strlit("@message<");
    reveal_strlit(">");
    let t = command_text(c);
    match c {
        CommandView::Identify(id) => {
            assert(t == "@identify<"@ + id + ">"@ + Seq::<char>::empty());
            lemma_id_end_tagged("@identify<"@, id, Seq::empty());
            assert(t.len() != "@ping"@.len());
            assert(t.len() != "@pong"@.len());
        },
        CommandView::Terminate(id) => {
            assert(t == "@terminate<"@ + id + ">"@ + Seq::<char>::empty());
            lemma_id_end_tagged("@terminate<"@, id, Seq::empty());
            assert(t.len() != "@ping"@.len());
            assert(t.len() != "@pong"@.len());
            assert(t[1] == 't');
            lemma_id_end_other(t, "@identify<"@, 1);
        },
        CommandView::ChannelMessage(id, msg) => {
            assert(t == "@message<"@ + id + ">"@ + msg);
            lemma_id_end_tagged("@message<"@, id, msg);
            assert(t.len() != "@ping"@.len());
            assert(t.len() != "@pong"@.len());
            assert(t[1] == 'm');
            lemma_id_end_other(t, "@identify<"@, 1);
            lemma_id_end_other(t, "@terminate<"@, 1);
        },
        CommandView::Ping => {},
        CommandView::Pong => {
            assert(t[2] != "@ping"@[2]);
        },
    }
}

/// `@identify<id>` followed by anything, for a valid id, is an
/// identification with that id.
pub proof fn lemma_identify_text(id: Seq<char>, rest: Seq<char>)
    requires
        valid_id(id),
    ensures
        decode_command("@identify<"@ + id + ">"@ + rest) == Some(CommandView::Identify(id)),
{
    reveal_strlit("@ping");
    reveal_strlit("@pong");
    reveal_strlit("@identify<");
    reveal_strlit(">");
    let t = "@identify<"@ + id + ">"@ + rest;
    lemma_id_end_tagged("@identify<"@, id, rest);
    assert(t[1] == 'i');
    assert(t != "@ping"@) by {
        assert("@ping"@[1] == 'p');
    }
    assert(t != "@pong"@) by {
        assert("@pong"@[1] == 'p');
    }
}

/// `@terminate<id>` followed by anything, for a valid id, is a termination
/// with that id.
pub proof fn lemma_terminate_text(id: Seq<char>, rest: Seq<char>)
    requires
        valid_id(id),
    ensures
        decode_command("@terminate<"@ + id + ">"@ + rest) == Some(CommandView::Terminate(id)),
{
    reveal_strlit("@ping");
    reveal_strlit("@pong");
    reveal_strlit("@identify<");
    reveal_strlit("@terminate<");
    reveal_strlit(">");
    let t = "@terminate<"@ + id + ">"@ + rest;
    lemma_id_end_tagged("@terminate<"@, id, rest);
    assert(t[1] == 't');
    assert(t != "@ping"@) by {
        assert("@ping"@[1] == 'p');
    }
    assert(t != "@pong"@) by {
        assert("@pong"@[1] == 'p');
    }
    lemma_id_end_other(t, "@identify<"@, 1);
}

/// `@message<id>` followed by a text, for a valid id, is a channel message
/// with that id and exactly that text when the text has no line break,
/// whatever characters it holds; with a line break it is no command.
pub proof fn lemma_message_text(id: Seq<char>, msg: Seq<char>)
    requires
        valid_id(id),
    ensures
        decode_command("@message<"@ + id + ">"@ + msg) == if forall|i: int|
            0 <= i < msg.len() ==> msg[i] != '\n' {
            Some(CommandView::ChannelMessage(id, msg))
        } else {
            None
        },
{
    reveal_strlit("@ping");
    reveal_strlit("@pong");
    reveal_strlit("@identify<");
    reveal_strlit("@terminate<");
    reveal_strlit("@message<");
    reveal_strlit(">");
    let t = "@message<"@ + id + ">"@ + msg;
    lemma_id_end_tagged("@message<"@, id, msg);
    assert(t[1] == 'm');
    assert(t != "@ping"@) by {
        assert("@ping"@[1] == 'p');
    }
    assert(t != "@pong"@) by {
        assert("@pong"@[1] == 'p');
    }
    lemma_id_end_other(t, "@identify<"@, 1);
    lemma_id_end_other(t, "@terminate<"@, 1);
}

/// The frame a well-formed command is sent in carries that command.
pub proof fn lemma_frame_command_of_text(c: CommandView)
    requires
        well_formed(c),
    ensures
        frame_command(encode_utf8(command_text(c))) == Some(c),
{
    encode_utf8_valid_utf8(command_text(c));
    encode_utf8_decode_utf8(command_text(c));
    lemma_decode_command_text(c);
}

/// Text without the two characters whose bytes the wire decoder drops when no
/// escape precedes them: `]` and `^`.
pub open spec fn wire_safe(t: Seq<char>) -> bool {
    forall|i: int| 0 <= i < t.len() ==> t[i] != ']' && t[i] != '^'
}

/// The UTF-8 bytes of wire-safe text hold neither escape suffix.
proof fn lemma_encode_utf8_transparent(t: Seq<char>)
    requires
        wire_safe(t),
    ensures
        transparent(encode_utf8(t)),
        t.len() > 0 ==> encode_utf8(t).len() > 0,
    decreases t.len(),
{
    if t.len() > 0 {
        let rest = t.drop_first();
        assert(wire_safe(rest)) by {
            assert forall|i: int| 0 <= i < rest.len() implies rest[i] != ']' && rest[i] != '^' by {
                assert(rest[i] == t[i + 1]);
            }
        }
        lemma_encode_utf8_transparent(rest);
        let c = t[0] as u32;
        assert(t[0] != ']' && t[0] != '^');
        char_is_scalar(t[0]);
        assert((']' as u32) == 0x5d && ('^' as u32) == 0x5e);
        if c == 0x5d {
            char_u32_cast(t[0], c);
            char_u32_cast(']', c);
        }
        if c == 0x5e {
            char_u32_cast(t[0], c);
            char_u32_cast('^', c);
        }
        assert(c != 0x5d && c != 0x5e);
        let head = encode_scalar(c);
        assert(transparent(head)) by {
            if has_width_1_encoding(c) {
                assert(((c & 0x7F) as u8) != 0x5d && ((c & 0x7F) as u8) != 0x5e) by (bit_vector)
                    requires
                        c <= 0x7F,
                        c != 0x5d,
                        c != 0x5e,
                ;
            } else {
                assert(last_continuation_byte(c) >= 0x80) by (bit_vector);
                assert(second_last_continuation_byte(c) >= 0x80) by (bit_vector);
                assert(third_last_continuation_byte(c) >= 0x80) by (bit_vector);
                assert(leading_byte_width_2(c) >= 0x80) by (bit_vector);
                assert(leading_byte_width_3(c) >= 0x80) by (bit_vector);
                assert(leading_byte_width_4(c) >= 0x80) by (bit_vector);
            }
        }
        let all = encode_utf8(t);
        assert(all == head + encode_utf8(rest));
        assert forall|i: int| 0 <= i < all.len() implies all[i] != ESCAPED_ESCAPE && all[i]
            != ESCAPED_FLAG by {
            if i < head.len() {
                assert(all[i] == head[i]);
            } else {
                assert(all[i] == encode_utf8(rest)[i - head.len()]);
            }
        }
        assert(head.len() > 0);
    }
}

/// Every character of a valid id is wire-safe.
proof fn lemma_valid_id_wire_safe(id: Seq<char>)
    requires
        valid_id(id),
    ensures
        wire_safe(id),
{
    assert forall|i: int| 0 <= i < id.len() implies id[i] != ']' && id[i] != '^' by {
        assert(is_id_char(id[i]));
    }
}

/// A well-formed command whose message (if any) is wire-safe, sent as the
/// bytes of its frame and read back, arrives as exactly one frame, and that
/// frame carries the command.
pub proof fn lemma_command_over_wire(c: CommandView)
    requires
        well_formed(c),
        c matches CommandView::ChannelMessage(_, msg) ==> wire_safe(msg),
    ensures
        parse_contents(encode(encode_utf8(command_text(c))), Seq::empty()) == seq![
            encode_utf8(command_text(c)),
        ],
        frame_command(encode_utf8(command_text(c))) == Some(c),
{
    reveal_strlit("@ping");
    reveal_strlit("@pong");
    reveal_strlit("@identify<");
    reveal_strlit("@terminate<");
    reveal_strlit("@message<");
    reveal_strlit(">");
    let t = command_text(c);
    assert(wire_safe(t)) by {
        match c {
            CommandView::Identify(id) => {
                lemma_valid_id_wire_safe(id);
                assert forall|i: int| 0 <= i < t.len() implies t[i] != ']' && t[i] != '^' by {
                    if 10 <= i < 10 + id.len() {
                        assert(t[i] == id[i - 10]);
                    }
                }
            },
            CommandView::Terminate(id) => {
                lemma_valid_id_wire_safe(id);
                assert forall|i: int| 0 <= i < t.len() implies t[i] != ']' && t[i] != '^' by {
                    if 11 <= i < 11 + id.len() {
                        assert(t[i] == id[i - 11]);
                    }
                }
            },
            CommandView::ChannelMessage(id, msg) => {
                lemma_valid_id_wire_safe(id);
                assert forall|i: int| 0 <= i < t.len() implies t[i] != ']' && t[i] != '^' by {
                    if 9 <= i < 9 + id.len() {
                        assert(t[i] == id[i - 9]);
                    } else if 10 + id.len() <= i {
                        assert(t[i] == msg[i - 10 - id.len()]);
                    }
                }
            },
            CommandView::Ping => {},
            CommandView::Pong => {},
        }
    }
    lemma_encode_utf8_transparent(t);
    lemma_parse_encoded_frame(encode_utf8(t));
    lemma_frame_command_of_text(c);
}

/// The characters of `s`.
pub(crate) fn chars_of(s: &str) -> (chars: Vec<char>)
    ensures
        chars@ == s@,
{
    broadcast use vstd::string::group_string_axioms;

    let mut chars: Vec<char> = Vec::new();
    for c in it: s.chars()
        invariant
            chars@ == it.seq().take(it.index() as int),
    {
        chars.push(c);
        assert(chars@ =~= it.seq().take(it.index() + 1));
    }
    chars
}

/// Whether `t` starts with `p`.
fn starts_with(t: &Vec<char>, p: &Vec<char>) -> (yes: bool)
    ensures
        yes == (p@.len() <= t@.len() && t@.subrange(0, p@.len() as int) == p@),
{
    if p.len() > t.len() {
        return false;
    }
    let mut i: usize = 0;
    while i < p.len()
        invariant
            i <= p@.len() <= t@.len(),
            forall|j: int| 0 <= j < i ==> t@[j] == p@[j],
        decreases p@.len() - i,
    {
        if t[i] != p[i] {
            assert(t@.subrange(0, p@.len() as int)[i as int] != p@[i as int]);
            return false;
        }
        i += 1;
    }
    assert(t@.subrange(0, p@.len() as int) =~= p@);
    true
}

/// Whether `t` is exactly `p`.
fn same_chars(t: &Vec<char>, p: &Vec<char>) -> (yes: bool)
    ensures
        yes == (t@ == p@),
{
    let prefix = starts_with(t, p);
    if prefix && t.len() == p.len() {
        assert(t@ =~= t@.subrange(0, p@.len() as int));
        true
    } else {
        proof {
            if t@ == p@ {
                assert(t@.subrange(0, p@.len() as int) =~= p@);
            }
        }
        false
    }
}

/// Whether `c` may appear in a job id.
fn id_char(c: char) -> (yes: bool)
    ensures
        yes == is_id_char(c),
{
    if (c as u32) < 128 {
        ('a' <= c && c <= 'f') || c == '-' || ('0' <= c && c <= '9')
    } else {
        is_decimal_digit(c)
    }
}

/// The end of the run of id characters that starts at `start`.
fn run_end(t: &Vec<char>, start: usize) -> (end: usize)
    requires
        start <= t@.len(),
    ensures
        end == start + id_run(t@, start as int),
{
    let mut end = start;
    while end < t.len() && id_char(t[end])
        invariant
            start <= end <= t@.len(),
            id_run(t@, start as int) == (end - start) + id_run(t@, end as int),
        decreases t@.len() - end,
    {
        end += 1;
    }
    end
}

/// Where `t` holds `tag`, one or more id characters, then `>`: the position
/// of that `>`.
fn find_id_end(t: &Vec<char>, tag: &str) -> (found: Option<usize>)
    ensures
        match found {
            Some(e) => id_end(t@, tag@) == Some(e as int),
            None => id_end(t@, tag@) is None,
        },
{
    let tag_chars = chars_of(tag);
    if !starts_with(t, &tag_chars) {
        return None;
    }
    let start = tag_chars.len();
    let end = run_end(t, start);
    if end > start && end < t.len() && t[end] == '>' {
        Some(end)
    } else {
        None
    }
}

/// Whether no line break follows position `from` of `t`.
fn single_line_from(t: &Vec<char>, from: usize) -> (yes: bool)
    requires
        from <= t@.len(),
    ensures
        yes == single_line(t@.subrange(from as int, t@.len() as int)),
{
    let mut i = from;
    while i < t.len()
        invariant
            from <= i <= t@.len(),
            forall|j: int| from <= j < i ==> t@[j] != '\n',
        decreases t@.len() - i,
    {
        if t[i] == '\n' {
            assert(t@.subrange(from as int, t@.len() as int)[i - from] == '\n');
            return false;
        }
        i += 1;
    }
    assert forall|j: int| 0 <= j < t@.len() - from implies t@.subrange(
        from as int,
        t@.len() as int,
    )[j] != '\n' by {
        assert(t@.subrange(from as int, t@.len() as int)[j] == t@[from + j]);
    }
    true
}

/// The characters of `text` from `from` up to `to`, as a `String`.
fn text_part(text: &str, from: usize, to: usize) -> (part: String)
    requires
        from <= to <= text@.len(),
    ensures
        part@ == text@.subrange(from as int, to as int),
{
    text.substring_char(from, to).to_owned()
}

impl ChannelCommand {
    /// The frame carrying this command: its text in UTF-8.
    pub fn into_frame(self) -> (frame: Frame)
        ensures
            frame@ == encode_utf8(command_text(self@)),
    {
        let text = match self {
            ChannelCommand::Identify(id) => {
                let mut t = String::from_str("@identify<");
                t.append(id.as_str());
                t.append(">");
                t
            },
            ChannelCommand::Terminate(id) => {
                let mut t = String::from_str("@terminate<");
                t.append(id.as_str());
                t.append(">");
                t
            },
            ChannelCommand::ChannelMessage((id, msg)) => {
                let mut t = String::from_str("@message<");
                t.append(id.as_str());
                t.append(">");
                t.append(msg.as_str());
                t
            },
            ChannelCommand::Ping => String::from_str("@ping"),
            ChannelCommand::Pong => String::from_str("@pong"),
        };
        Frame::from_string(text)
    }

    /// The command `text` stands for, if any.
    pub fn parse_text(text: &str) -> (command: Option<ChannelCommand>)
        ensures
            match command {
                Some(c) => decode_command(text@) == Some(c@),
                None => decode_command(text@) is None,
            },
    {
        let t = chars_of(text);
        if same_chars(&t, &chars_of("@ping")) {
            return Some(ChannelCommand::Ping);
        }
        if same_chars(&t, &chars_of("@pong")) {
            return Some(ChannelCommand::Pong);
        }
        let identify = "@identify<";
        if let Some(e) = find_id_end(&t, identify) {
            let start = chars_of(identify).len();
            return Some(ChannelCommand::Identify(text_part(text, start, e)));
        }
        let terminate = "@terminate<";
        if let Some(e) = find_id_end(&t, terminate) {
            let start = chars_of(terminate).len();
            return Some(ChannelCommand::Terminate(text_part(text, start, e)));
        }
        let message = "@message<";
        if let Some(e) = find_id_end(&t, message) {
            assert(e < t@.len());
            if single_line_from(&t, e + 1) {
                let start = chars_of(message).len();
                let id = text_part(text, start, e);
                let msg = text_part(text, e + 1, t.len());
                return Some(ChannelCommand::ChannelMessage((id, msg)));
            }
        }
        None
    }

    /// The command `frame` carries, if it carries one.
    pub fn try_from_frame(frame: Frame) -> (command: Option<ChannelCommand>)
        ensures
            match command {
                Some(c) => frame_command(frame@) == Some(c@),
                None => frame_command(frame@) is None,
            },
    {
        match frame.to_text() {
            Some(text) => {
                if Self::parse_text(text.as_str()).is_some() {
                    Some(Self::from_frame(frame))
                } else {
                    None
                }
            },
            None => None,
        }
    }

    /// The command `frame` carries; the frame must carry one.
    pub fn from_frame(frame: Frame) -> (command: ChannelCommand)
        requires
            frame_command(frame@) is Some,
        ensures
            frame_command(frame@) == Some(command@),
    {
        let text = frame.into_text();
        match Self::parse_text(text.as_str()) {
            Some(c) => c,
            None => {
                proof {
                    assert(false);
                }
                ChannelCommand::Ping
            },
        }
    }
}

} // verus!
