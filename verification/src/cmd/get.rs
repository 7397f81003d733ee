use vstd::prelude::*;
use vstd::utf8::encode_utf8;
use crate::frame::{Frame, FrameView};
use crate::parse::{Parse, ParseError, string_of};

verus! {

/// The view of an optional byte vector.
pub open spec fn bytes_option_view(v: Option<Vec<u8>>) -> Option<Seq<u8>> {
    match v {
        Some(b) => Some(b@),
        None => None,
    }
}

/// The reply to a `GET`: the value as a bulk string, or null when there is none.
pub open spec fn get_reply_frame(value: Option<Seq<u8>>) -> FrameView {
    match value {
        Some(v) => FrameView::Bulk(v),
        None => FrameView::Null,
    }
}

/// Get the value of a key.
pub struct Get {
    key: String,
}

impl Get {
    pub closed spec fn key_view(&self) -> Seq<char> {
        self.key@
    }

    /// A `Get` command that fetches `key`.
    pub fn new(key: &str) -> (r: Get)
        ensures
            r.key_view() == key@,
    {
        Get { key: key.to_owned() }
    }

    /// The key to get.
    pub fn key(&self) -> (r: &String)
        ensures
            r@ == self.key_view(),
    {
        &self.key
    }

    /// Reads a `Get` from the entries that follow the command name: the key.
    pub fn parse_frames(parse: &mut Parse) -> (r: Result<Get, ParseError>)
        ensures
            old(parse)@.len() == 0 ==> r == Err::<Get, ParseError>(ParseError::EndOfStream)
                && final(parse)@ == old(parse)@,
            old(parse)@.len() > 0 ==> final(parse)@ == old(parse)@.drop_first() && match string_of(
                old(parse)@[0],
            ) {
                Ok(k) => r matches Ok(g) && g.key_view() == k,
                Err(e) => r == Err::<Get, ParseError>(e),
            },
    {
        let key = parse.next_string()?;
        Ok(Get { key })
    }

    /// The frame that sends this command: `GET key` as bulk strings.
    pub fn into_frame(self) -> (f: Frame)
        ensures
            f@ == FrameView::Array(
                seq![
                    FrameView::Bulk(encode_utf8("get"@)),
                    FrameView::Bulk(encode_utf8(self.key_view())),
                ],
            ),
    {
        let mut parts: Vec<Frame> = Vec::new();
        parts.push(Frame::bulk_from_str("get"));
        parts.push(Frame::bulk_from_str(self.key.as_str()));
        let f = Frame::Array(parts);
        proof {
            crate::frame::lemma_frames_view(parts@);
            assert(f@->Array_0 =~= seq![
                FrameView::Bulk(encode_utf8("get"@)),
                FrameView::Bulk(encode_utf8(self.key_view())),
            ]);
        }
        f
    }

    /// The reply to a `Get`: the value as a bulk string, or null when the
    /// key holds none.
    pub fn reply(value: Option<Vec<u8>>) -> (f: Frame)
        ensures
            f@ == get_reply_frame(bytes_option_view(value)),
    {
        match value {
            Some(v) => Frame::Bulk(v),
            None => Frame::Null,
        }
    }
}

} // verus!
