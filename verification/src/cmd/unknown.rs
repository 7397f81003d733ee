use vstd::prelude::*;
use crate::frame::{Frame, FrameView, Decoded, decode, encode, crlf_free, lemma_decode_encode};
use vstd::utf8::{encode_utf8, is_ascii_chars, is_ascii_chars_encode_utf8};
use crate::text::lemma_encode_utf8_concat;

verus! {

/// The error message for an unknown command named `name`.
pub open spec fn unknown_command_message(name: Seq<char>) -> Seq<char> {
    "ERR unknown command '"@ + name + "'"@
}

/// Law: the error that the server writes on the wire for an unknown command
/// is read by the client, whatever bytes follow it, as that same error, as
/// long as the command name holds no line terminator.
pub proof fn lemma_unknown_reply_over_the_wire(name: Seq<char>, rest: Seq<u8>)
    requires
        crlf_free(encode_utf8(name)),
    ensures
        decode(encode(FrameView::Error(unknown_command_message(name))) + rest) matches Decoded::Complete(
            f,
            _,
        ) && f == FrameView::Error(unknown_command_message(name)),
{
    let pre = "ERR unknown command '"@;
    let post = "'"@;
    reveal_strlit("ERR unknown command '");
    reveal_strlit("'");
    assert(is_ascii_chars(pre));
    assert(is_ascii_chars(post));
    is_ascii_chars_encode_utf8(pre);
    is_ascii_chars_encode_utf8(post);
    lemma_encode_utf8_concat(pre, name);
    lemma_encode_utf8_concat(pre + name, post);
    let p = encode_utf8(pre);
    let n = encode_utf8(name);
    let q = encode_utf8(post);
    assert(forall|i: int| 0 <= i < p.len() ==> p[i] != 13u8);
    assert(p[p.len() - 1] == 39u8);
    assert(q[0] == 39u8);
    let all = p + n + q;
    assert(encode_utf8(unknown_command_message(name)) == all);
    assert forall|j: int| 0 <= j < all.len() - 1 implies !(#[trigger] all[j] == 13 && all[j + 1] == 10) by {
        if j < p.len() {
            assert(all[j] == p[j]);
        } else if j < p.len() + n.len() - 1 {
            assert(all[j] == n[j - p.len()] && all[j + 1] == n[j + 1 - p.len()]);
        } else if j == p.len() + n.len() - 1 {
            assert(all[j + 1] == q[0]);
        } else {
            assert(all[j] == q[j - p.len() - n.len()]);
        }
    }
    lemma_decode_encode(FrameView::Error(unknown_command_message(name)), rest);
}

/// A command that the server does not support.
pub struct Unknown {
    command_name: String,
}

impl Unknown {
    pub closed spec fn name_view(&self) -> Seq<char> {
        self.command_name@
    }

    /// An `Unknown` command named `command_name`.
    pub fn new(command_name: String) -> (r: Unknown)
        ensures
            r.name_view() == command_name@,
    {
        Unknown { command_name }
    }

    /// The name of the command.
    pub fn get_name(&self) -> (r: &str)
        ensures
            r@ == self.name_view(),
    {
        self.command_name.as_str()
    }

    /// The reply to an unknown command: the error
    /// `ERR unknown command '<name>'`.
    pub fn reply(&self) -> (f: Frame)
        ensures
            f@ == FrameView::Error(unknown_command_message(self.name_view())),
    {
        let msg = String::from_str("ERR unknown command '");
        let msg = msg.concat(self.command_name.as_str());
        let msg = msg.concat("'");
        Frame::Error(msg)
    }
}

} // verus!
