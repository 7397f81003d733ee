use vstd::prelude::*;
use vstd::utf8::encode_utf8;
use crate::frame::{Frame, FrameView, lemma_frames_view};

verus! {

/// Ping the server: the server answers `PONG`, or the message when there is one.
pub struct Ping {
    msg: Option<Vec<u8>>,
}

impl Ping {
    pub closed spec fn msg_view(&self) -> Option<Seq<u8>> {
        match self.msg {
            Some(m) => Some(m@),
            None => None,
        }
    }

    /// A `Ping` that carries `msg`, if any.
    pub fn new(msg: Option<Vec<u8>>) -> (r: Ping)
        ensures
            r.msg_view() == (match msg {
                Some(m) => Some(m@),
                None => None::<Seq<u8>>,
            }),
    {
        Ping { msg }
    }

    /// The frame that sends this command: `PING` and the message, if any.
    pub fn into_frame(self) -> (f: Frame)
        ensures
            f@ == FrameView::Array(
                match self.msg_view() {
                    Some(m) => seq![FrameView::Bulk(encode_utf8("ping"@)), FrameView::Bulk(m)],
                    None => seq![FrameView::Bulk(encode_utf8("ping"@))],
                },
            ),
    {
        let ghost m = self.msg_view();
        let mut parts: Vec<Frame> = Vec::new();
        parts.push(Frame::bulk_from_str("ping"));
        match self.msg {
            Some(msg) => parts.push(Frame::Bulk(msg)),
            None => {},
        }
        let f = Frame::Array(parts);
        proof {
            lemma_frames_view(parts@);
            match m {
                Some(mm) => assert(f@->Array_0 =~= seq![FrameView::Bulk(encode_utf8("ping"@)), FrameView::Bulk(mm)]),
                None => assert(f@->Array_0 =~= seq![FrameView::Bulk(encode_utf8("ping"@))]),
            }
        }
        f
    }
}

} // verus!
