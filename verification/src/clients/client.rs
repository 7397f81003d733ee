//! Minimal Redis client: the state of a client connection and the
//! decisions it takes on the frames the server answers with.
//!
//! The socket is driven by the caller: it writes the frame of each request
//! (see `crate::cmd`), feeds the bytes it reads to `Client::connection`,
//! and hands each frame read to the functions below.

use vstd::prelude::*;
use vstd::utf8::encode_utf8;
use vstd::slice::slice_to_vec;
use crate::connection::Connection;
use crate::frame::{Frame, FrameView, frame_is_text, lemma_frames_view, Decoded, decode, encode, lemma_decode_encode};
use crate::cmd::{strings_view, get_reply_frame, bytes_option_view};

verus! {

/// Why a request did not succeed.
#[derive(Debug)]
pub enum ClientError {
    /// The server answered with an error frame.
    Server(String),
    /// The server closed the connection without answering.
    ConnectionReset,
    /// The server answered with a frame that the request does not expect.
    UnexpectedFrame(Frame),
}

/// Established connection with a Redis server.
///
/// Backed by a single socket, `Client` provides basic network client
/// functionality (no pooling, retrying, ...).
pub struct Client {
    /// The frames read from the socket, decoded from its bytes.
    pub connection: Connection,
}

/// A client that has entered pub/sub mode.
///
/// Once clients subscribe to a channel, they may only perform pub/sub
/// related commands.
pub struct Subscriber {
    /// The subscribed client.
    pub client: Client,
    /// The set of channels to which the `Subscriber` is currently subscribed.
    pub subscribed_channels: Vec<String>,
}

/// A message received on a subscribed channel.
#[derive(Debug, Clone)]
pub struct Message {
    pub channel: String,
    pub content: Vec<u8>,
}

/// `f` confirms the subscription to `channel`: an array that starts with
/// `"subscribe"` and the channel name.
pub open spec fn confirms_subscription(f: FrameView, channel: Seq<char>) -> bool {
    &&& f is Array
    &&& f->Array_0.len() >= 2
    &&& frame_is_text(f->Array_0[0], "subscribe"@)
    &&& frame_is_text(f->Array_0[1], channel)
}

pub open spec fn is_unexpected(r: ClientError, frame: FrameView) -> bool {
    r matches ClientError::UnexpectedFrame(g) && g@ == frame
}

/// The value that a reply to `GET` carries: the bytes of a simple or bulk
/// string, or no value for null; `None` for any other frame.
pub open spec fn get_reply_value(f: FrameView) -> Option<Option<Seq<u8>>> {
    match f {
        FrameView::Simple(s) => Some(Some(encode_utf8(s))),
        FrameView::Bulk(b) => Some(Some(b)),
        FrameView::Null => Some(None),
        _ => None,
    }
}

/// Law: the client reads the server's reply to a `GET` as the value that
/// the server looked up, or as no value when there was none.
pub proof fn lemma_get_reply_read(value: Option<Seq<u8>>)
    ensures
        get_reply_value(get_reply_frame(value)) == Some(value),
{
}

/// Law: the reply to a `GET` that the server writes on the wire is read by
/// the client, whatever bytes follow it, as the value the server looked up.
pub proof fn lemma_get_reply_over_the_wire(value: Option<Seq<u8>>, rest: Seq<u8>)
    requires
        value matches Some(v) ==> v.len() <= u64::MAX,
    ensures
        decode(encode(get_reply_frame(value)) + rest) matches Decoded::Complete(f, n) && n == encode(
            get_reply_frame(value),
        ).len() && get_reply_value(f) == Some(value),
{
    lemma_decode_encode(get_reply_frame(value), rest);
}

/// The confirmation that the server sends when a client subscribes to
/// `channel`: `[ "subscribe", channel, num-subscribed ]` as a bulk string,
/// a bulk string and an integer.
pub open spec fn subscribe_confirmation(channel: Seq<char>, num_subscribed: u64) -> FrameView {
    FrameView::Array(
        seq![
            FrameView::Bulk(encode_utf8("subscribe"@)),
            FrameView::Bulk(encode_utf8(channel)),
            FrameView::Integer(num_subscribed),
        ],
    )
}

/// Law: the client accepts the server's confirmation for exactly the
/// channel it names: the confirmation for `channel` confirms `channel`,
/// and the confirmation for any other channel does not.
pub proof fn lemma_subscribe_confirmation(channel: Seq<char>, other: Seq<char>, n: u64)
    ensures
        confirms_subscription(subscribe_confirmation(channel, n), channel),
        other != channel ==> !confirms_subscription(subscribe_confirmation(other, n), channel),
{
    crate::text::lemma_encode_utf8_injective(other, channel);
}

impl Client {
    /// The client state of a newly established connection.
    pub fn new() -> (c: Client)
        ensures
            c.connection@ == Seq::<u8>::empty(),
    {
        Client { connection: Connection::new() }
    }

    /// Decides on the frame read as a response, or on the connection
    /// closing instead (`None`). An error frame becomes an error.
    pub fn check_response(res: Option<Frame>) -> (r: Result<Frame, ClientError>)
        ensures
            match res {
                None => r matches Err(ClientError::ConnectionReset),
                Some(f) => match f@ {
                    FrameView::Error(msg) => r matches Err(ClientError::Server(m)) && m@ == msg,
                    _ => r matches Ok(g) && g@ == f@,
                },
            },
    {
        match res {
            Some(Frame::Error(msg)) => Err(ClientError::Server(msg)),
            Some(frame) => Ok(frame),
            None => Err(ClientError::ConnectionReset),
        }
    }

    /// The result of `PING`: the bytes of a simple string, or a bulk string.
    pub fn ping_reply(frame: Frame) -> (r: Result<Vec<u8>, ClientError>)
        ensures
            match frame@ {
                FrameView::Simple(s) => r matches Ok(v) && v@ == encode_utf8(s),
                FrameView::Bulk(b) => r matches Ok(v) && v@ == b,
                _ => r matches Err(e) && is_unexpected(e, frame@),
            },
    {
        match frame {
            Frame::Simple(val) => Ok(slice_to_vec(val.as_str().as_bytes())),
            Frame::Bulk(val) => Ok(val),
            frame => Err(ClientError::UnexpectedFrame(frame)),
        }
    }

    /// The result of `GET`: the value, or `None` when the key does not exist.
    pub fn get_reply(frame: Frame) -> (r: Result<Option<Vec<u8>>, ClientError>)
        ensures
            match get_reply_value(frame@) {
                Some(v) => r matches Ok(x) && bytes_option_view(x) == v,
                None => r matches Err(e) && is_unexpected(e, frame@),
            },
    {
        match frame {
            Frame::Simple(val) => Ok(Some(slice_to_vec(val.as_str().as_bytes()))),
            Frame::Bulk(val) => Ok(Some(val)),
            Frame::Null => Ok(None),
            frame => Err(ClientError::UnexpectedFrame(frame)),
        }
    }

    /// The result of `SET`: success exactly when the server answers `OK`.
    pub fn set_reply(frame: Frame) -> (r: Result<(), ClientError>)
        ensures
            frame@ == FrameView::Simple("OK"@) ==> r is Ok,
            frame@ != FrameView::Simple("OK"@) ==> (r matches Err(e) && is_unexpected(e, frame@)),
    {
        let ok = match &frame {
            Frame::Simple(res) => crate::text::str_eq(res.as_str(), "OK"),
            _ => false,
        };
        if ok {
            Ok(())
        } else {
            Err(ClientError::UnexpectedFrame(frame))
        }
    }

    /// The result of `PUBLISH`: the number of subscribers that the server
    /// reports on the channel.
    pub fn publish_reply(frame: Frame) -> (r: Result<u64, ClientError>)
        ensures
            match frame@ {
                FrameView::Integer(n) => r == Ok::<u64, ClientError>(n),
                _ => r matches Err(e) && is_unexpected(e, frame@),
            },
    {
        match frame {
            Frame::Integer(res) => Ok(res),
            frame => Err(ClientError::UnexpectedFrame(frame)),
        }
    }

    /// Checks the server's confirmation of a subscription to `channel`:
    /// `[ "subscribe", channel, num-subscribed ]`.
    pub fn subscribe_reply(response: Frame, channel: &str) -> (r: Result<(), ClientError>)
        ensures
            confirms_subscription(response@, channel@) ==> r is Ok,
            forall|n: u64| response@ == subscribe_confirmation(channel@, n) ==> r is Ok,
            !confirms_subscription(response@, channel@) ==> (r matches Err(e) && is_unexpected(
                e,
                response@,
            )),
    {
        let confirmed = match &response {
            Frame::Array(items) => {
                proof {
                    lemma_frames_view(items@);
                }
                items.len() >= 2 && items[0].eq_text("subscribe") && items[1].eq_text(channel)
            },
            _ => false,
        };
        proof {
            assert forall|n: u64| response@ == subscribe_confirmation(channel@, n) implies confirmed by {
                lemma_subscribe_confirmation(channel@, channel@, n);
            }
        }
        if confirmed {
            Ok(())
        } else {
            Err(ClientError::UnexpectedFrame(response))
        }
    }

    /// The client in pub/sub mode, once the server has confirmed the
    /// subscription to each of `channels`.
    pub fn into_subscriber(self, channels: Vec<String>) -> (s: Subscriber)
        ensures
            s.client == self,
            strings_view(s.subscribed_channels@) == strings_view(channels@),
    {
        Subscriber { client: self, subscribed_channels: channels }
    }
}

} // verus!
