use vstd::prelude::*;
use vstd::utf8::encode_utf8;
use crate::frame::{Frame, FrameView, lemma_frames_view};

verus! {

/// Post a message to a channel.
pub struct Publish {
    channel: String,
    message: Vec<u8>,
}

impl Publish {
    pub closed spec fn channel_view(&self) -> Seq<char> {
        self.channel@
    }

    pub closed spec fn message_view(&self) -> Seq<u8> {
        self.message@
    }

    /// A `Publish` of `message` on `channel`.
    pub fn new(channel: &str, message: Vec<u8>) -> (r: Publish)
        ensures
            r.channel_view() == channel@,
            r.message_view() == message@,
    {
        Publish { channel: channel.to_owned(), message }
    }

    /// The frame that sends this command: `PUBLISH channel message`.
    pub fn into_frame(self) -> (f: Frame)
        ensures
            f@ == FrameView::Array(
                seq![
                    FrameView::Bulk(encode_utf8("publish"@)),
                    FrameView::Bulk(encode_utf8(self.channel_view())),
                    FrameView::Bulk(self.message_view()),
                ],
            ),
    {
        let ghost ch = self.channel@;
        let ghost msg = self.message@;
        let mut parts: Vec<Frame> = Vec::new();
        parts.push(Frame::bulk_from_str("publish"));
        parts.push(Frame::bulk_from_str(self.channel.as_str()));
        parts.push(Frame::Bulk(self.message));
        let f = Frame::Array(parts);
        proof {
            lemma_frames_view(parts@);
            assert(f@->Array_0 =~= seq![
                FrameView::Bulk(encode_utf8("publish"@)),
                FrameView::Bulk(encode_utf8(ch)),
                FrameView::Bulk(msg),
            ]);
        }
        f
    }
}

} // verus!
