use vstd::prelude::*;
use vstd::utf8::encode_utf8;
use crate::frame::{Frame, FrameView, lemma_frames_view};
use crate::parse::{ParseError, string_of};

verus! {

/// Set `key` to hold `value`, optionally for a limited time.
pub struct SetCmd {
    key: String,
    value: Vec<u8>,
    /// How long the value lives, in milliseconds.
    expire: Option<u64>,
}

/// The frame of a `SET`: `SET key value`, followed by `PX ms` when the
/// value expires.
pub open spec fn set_frame(key: Seq<char>, value: Seq<u8>, expire: Option<u64>) -> FrameView {
    let base = seq![
        FrameView::Bulk(encode_utf8("set"@)),
        FrameView::Bulk(encode_utf8(key)),
        FrameView::Bulk(value),
    ];
    match expire {
        Some(ms) => FrameView::Array(base + seq![FrameView::Bulk(encode_utf8("px"@)), FrameView::Integer(ms)]),
        None => FrameView::Array(base),
    }
}

impl SetCmd {
    pub closed spec fn key_view(&self) -> Seq<char> {
        self.key@
    }

    pub closed spec fn value_view(&self) -> Seq<u8> {
        self.value@
    }

    pub closed spec fn expire_view(&self) -> Option<u64> {
        self.expire
    }

    pub closed spec fn frame_view(&self) -> FrameView {
        set_frame(self.key@, self.value@, self.expire)
    }

    /// A `SetCmd` of `key` to `value` that expires after `expire` milliseconds, if given.
    pub fn new(key: &str, value: Vec<u8>, expire: Option<u64>) -> (r: SetCmd)
        ensures
            r.frame_view() == set_frame(key@, value@, expire),
            r.key_view() == key@,
            r.value_view() == value@,
            r.expire_view() == expire,
    {
        SetCmd { key: key.to_owned(), value, expire }
    }

    /// The frame that sends this command.
    pub fn into_frame(self) -> (f: Frame)
        ensures
            f@ == self.frame_view(),
            f@ == FrameView::Array(
                seq![
                    FrameView::Bulk(encode_utf8("set"@)),
                    FrameView::Bulk(encode_utf8(self.key_view())),
                    FrameView::Bulk(self.value_view()),
                ] + match self.expire_view() {
                    Some(ms) => seq![FrameView::Bulk(encode_utf8("px"@)), FrameView::Integer(ms)],
                    None => Seq::<FrameView>::empty(),
                },
            ),
    {
        let ghost key = self.key@;
        let ghost value = self.value@;
        let mut parts: Vec<Frame> = Vec::new();
        parts.push(Frame::bulk_from_str("set"));
        parts.push(Frame::bulk_from_str(self.key.as_str()));
        parts.push(Frame::Bulk(self.value));
        match self.expire {
            Some(ms) => {
                parts.push(Frame::bulk_from_str("px"));
                parts.push(Frame::Integer(ms));
            },
            None => {},
        }
        let f = Frame::Array(parts);
        proof {
            lemma_frames_view(parts@);
            assert(f@->Array_0 =~= set_frame(key, value, self.expire)->Array_0);
            lemma_set_frame_carries_key(key, value, self.expire);
        }
        f
    }
}

/// Law: a `SET` request is the array `set`, the key exactly as given, the
/// value exactly as given, and, when the value expires, `px` and the number
/// of milliseconds; a server reading its entries as strings gets back the
/// key unchanged.
pub proof fn lemma_set_frame_carries_key(key: Seq<char>, value: Seq<u8>, expire: Option<u64>)
    ensures
        set_frame(key, value, expire) == FrameView::Array(
            seq![
                FrameView::Bulk(encode_utf8("set"@)),
                FrameView::Bulk(encode_utf8(key)),
                FrameView::Bulk(value),
            ] + match expire {
                Some(ms) => seq![FrameView::Bulk(encode_utf8("px"@)), FrameView::Integer(ms)],
                None => Seq::<FrameView>::empty(),
            },
        ),
        set_frame(key, value, expire)->Array_0[1] == FrameView::Bulk(encode_utf8(key)),
        set_frame(key, value, expire)->Array_0[2] == FrameView::Bulk(value),
        string_of(set_frame(key, value, expire)->Array_0[1]) == Ok::<Seq<char>, ParseError>(key),
{
    vstd::utf8::encode_utf8_decode_utf8(key);
    vstd::utf8::encode_utf8_valid_utf8(key);
    let base = seq![
        FrameView::Bulk(encode_utf8("set"@)),
        FrameView::Bulk(encode_utf8(key)),
        FrameView::Bulk(value),
    ];
    assert(base + Seq::<FrameView>::empty() =~= base);
}

} // verus!
