mod get;
pub use get::{Get, get_reply_frame, bytes_option_view};

mod unknown;
pub use unknown::{Unknown, unknown_command_message};

mod subscribe;
pub use subscribe::{Subscribe, Unsubscribe, strings_of, strings_view, subscribe_channels, channel_bulks};

mod ping;
pub use ping::Ping;

mod set;
pub use set::{SetCmd, set_frame};

mod publish;
pub use publish::Publish;

use vstd::prelude::*;
use crate::frame::{Frame, FrameView, Decoded, decode, encode, well_formed, all_well_formed, lemma_decode_encode};
use crate::parse::{Parse, ParseError, string_of};
use crate::text::{lowercase, to_lowercase, str_eq};
use vstd::utf8::encode_utf8;

verus! {

/// A command that the server reads from a client.
pub enum Command {
    Get(Get),
    Unknown(Unknown),
}

/// The value of a command: its kind and its argument.
pub enum CommandView {
    Get(Seq<char>),
    Unknown(Seq<char>),
}

impl View for Command {
    type V = CommandView;

    open spec fn view(&self) -> CommandView {
        match self {
            Command::Get(g) => CommandView::Get(g.key_view()),
            Command::Unknown(u) => CommandView::Unknown(u.name_view()),
        }
    }
}

pub open spec fn command_result_view(r: Result<Command, ParseError>) -> Result<CommandView, ParseError> {
    match r {
        Ok(c) => Ok(c@),
        Err(e) => Err(e),
    }
}

/// The command named `name` (already in lowercase) whose arguments are `args`.
pub open spec fn command_from_name(name: Seq<char>, args: Seq<FrameView>) -> Result<CommandView, ParseError> {
    if name == "get"@ {
        if args.len() == 0 {
            Err(ParseError::EndOfStream)
        } else {
            match string_of(args[0]) {
                Err(e) => Err(e),
                Ok(key) => if args.len() > 1 {
                    Err(ParseError::TrailingData)
                } else {
                    Ok(CommandView::Get(key))
                },
            }
        }
    } else {
        Ok(CommandView::Unknown(name))
    }
}

/// The command that a frame carries: an array whose first entry names the
/// command, in any case, and whose other entries are its arguments.
pub open spec fn command_from_frame(f: FrameView) -> Result<CommandView, ParseError> {
    match f {
        FrameView::Array(parts) => if parts.len() == 0 {
            Err(ParseError::EndOfStream)
        } else {
            match string_of(parts[0]) {
                Err(e) => Err(e),
                Ok(name) => command_from_name(lowercase(name), parts.drop_first()),
            }
        },
        _ => Err(ParseError::NotAnArray),
    }
}

impl Command {
    /// Reads a command from a frame.
    ///
    /// The frame must be an array whose first entry is the command name.
    /// `get` is followed by exactly one key; any other name is an `Unknown`
    /// command, whatever follows it.
    pub fn from_frame(frame: Frame) -> (r: Result<Command, ParseError>)
        ensures
            command_result_view(r) == command_from_frame(frame@),
    {
        let mut parse = Parse::new(frame)?;
        let command_name = parse.next_string()?;
        let command_name = to_lowercase(command_name.as_str());
        Command::from_name(command_name, &mut parse)
    }

    /// Reads the command named `command_name` (in lowercase) from the
    /// entries that follow the name.
    pub fn from_name(command_name: String, parse: &mut Parse) -> (r: Result<Command, ParseError>)
        ensures
            command_result_view(r) == command_from_name(command_name@, old(parse)@),
            command_name@ != "get"@ ==> final(parse)@ == old(parse)@,
            command_name@ == "get"@ && r is Ok ==> final(parse)@.len() == 0,
    {
        if str_eq(command_name.as_str(), "get") {
            let get = Get::parse_frames(parse)?;
            parse.finish()?;
            Ok(Command::Get(get))
        } else {
            Ok(Command::Unknown(Unknown::new(command_name)))
        }
    }
}


/// The frame that `Get::into_frame` sends for `key`.
pub open spec fn get_frame(key: Seq<char>) -> FrameView {
    FrameView::Array(seq![FrameView::Bulk(encode_utf8("get"@)), FrameView::Bulk(encode_utf8(key))])
}

/// Law: the server reads the frame that the client sends for a `GET` as
/// that `GET`, with the same key.
pub proof fn lemma_get_frame_read(key: Seq<char>)
    ensures
        command_from_frame(get_frame(key)) == Ok::<CommandView, ParseError>(CommandView::Get(key)),
{
    reveal_strlit("get");
    let name = "get"@;
    vstd::utf8::encode_utf8_decode_utf8(name);
    vstd::utf8::encode_utf8_valid_utf8(name);
    vstd::utf8::encode_utf8_decode_utf8(key);
    vstd::utf8::encode_utf8_valid_utf8(key);
    assert(vstd::utf8::is_ascii_chars(name));
    assert(crate::text::ascii_lowercase(name) =~= name);
    let parts = get_frame(key)->Array_0;
    assert(parts.drop_first() =~= seq![FrameView::Bulk(encode_utf8(key))]);
}


/// Law: a `GET` that the client writes on the wire is read by the server,
/// whatever bytes follow it, as that `GET` with the same key.
pub proof fn lemma_get_over_the_wire(key: Seq<char>, rest: Seq<u8>)
    requires
        encode_utf8(key).len() <= u64::MAX,
    ensures
        decode(encode(get_frame(key)) + rest) matches Decoded::Complete(f, n) && n == encode(
            get_frame(key),
        ).len() && command_from_frame(f) == Ok::<CommandView, ParseError>(CommandView::Get(key)),
{
    let parts = get_frame(key)->Array_0;
    reveal_strlit("get");
    assert(vstd::utf8::is_ascii_chars("get"@));
    vstd::utf8::is_ascii_chars_encode_utf8("get"@);
    assert(parts[0] == FrameView::Bulk(encode_utf8("get"@)));
    assert(parts.drop_first()[0] == FrameView::Bulk(encode_utf8(key)));
    assert(parts.drop_first().drop_first() =~= Seq::<FrameView>::empty());
    assert(all_well_formed(parts.drop_first().drop_first()));
    assert(well_formed(parts.drop_first()[0]));
    assert(well_formed(parts[0]));
    assert(all_well_formed(parts.drop_first()));
    assert(all_well_formed(parts));
    assert(well_formed(get_frame(key)));
    lemma_decode_encode(get_frame(key), rest);
    lemma_get_frame_read(key);
}

/// Law: whatever the case in which the command name is written, a `GET`
/// reads its key unchanged: for every name whose lowercase form is `get`
/// and every key, the frame `[name, key]` is the `GET` of that very key.
pub proof fn lemma_get_key_unchanged(name: Seq<char>, key: Seq<char>)
    requires
        lowercase(name) == "get"@,
    ensures
        command_from_frame(
            FrameView::Array(seq![FrameView::Bulk(encode_utf8(name)), FrameView::Bulk(encode_utf8(key))]),
        ) == Ok::<CommandView, ParseError>(CommandView::Get(key)),
        command_from_frame(
            FrameView::Array(seq![FrameView::Simple(name), FrameView::Simple(key)]),
        ) == Ok::<CommandView, ParseError>(CommandView::Get(key)),
{
    vstd::utf8::encode_utf8_decode_utf8(name);
    vstd::utf8::encode_utf8_valid_utf8(name);
    vstd::utf8::encode_utf8_decode_utf8(key);
    vstd::utf8::encode_utf8_valid_utf8(key);
    let a = seq![FrameView::Bulk(encode_utf8(name)), FrameView::Bulk(encode_utf8(key))];
    let b = seq![FrameView::Simple(name), FrameView::Simple(key)];
    assert(a.drop_first() =~= seq![FrameView::Bulk(encode_utf8(key))]);
    assert(b.drop_first() =~= seq![FrameView::Simple(key)]);
}

} // verus!
