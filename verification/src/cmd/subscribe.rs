use vstd::prelude::*;
use vstd::utf8::encode_utf8;
use crate::frame::{Frame, FrameView, frames_view, lemma_frames_view};
use crate::parse::{Parse, ParseError, string_of};

verus! {

/// Subscribes the client to one or more channels.
///
/// Once the client enters the subscribed state, it is not supposed to issue
/// any other commands, except for additional SUBSCRIBE, PSUBSCRIBE,
/// UNSUBSCRIBE, PUNSUBSCRIBE, PING and QUIT commands.
pub struct Subscribe {
    channels: Vec<String>,
}

/// Unsubscribes the client from one or more channels.
///
/// When no channels are specified, the client is unsubscribed from all the
/// previously subscribed channels.
pub struct Unsubscribe {
    channels: Vec<String>,
}

/// The characters of each string, in order.
pub open spec fn strings_view(v: Seq<String>) -> Seq<Seq<char>> {
    v.map_values(|s: String| s@)
}

/// The strings that `entries` hold, or the error of the first entry that
/// is not a string.
pub open spec fn strings_of(entries: Seq<FrameView>) -> Result<Seq<Seq<char>>, ParseError>
    decreases entries.len(),
{
    if entries.len() == 0 {
        Ok(Seq::empty())
    } else {
        match string_of(entries[0]) {
            Err(e) => Err(e),
            Ok(s) => match strings_of(entries.drop_first()) {
                Ok(rest) => Ok(seq![s] + rest),
                Err(e) => Err(e),
            },
        }
    }
}

/// The channel list that `Subscribe::parse_frames` reads from `entries`.
pub open spec fn subscribe_channels(entries: Seq<FrameView>) -> Result<Seq<Seq<char>>, ParseError> {
    if entries.len() == 0 {
        Err(ParseError::EndOfStream)
    } else {
        strings_of(entries)
    }
}

/// A bulk string for each channel name.
pub open spec fn channel_bulks(channels: Seq<Seq<char>>) -> Seq<FrameView> {
    channels.map_values(|c: Seq<char>| FrameView::Bulk(encode_utf8(c)))
}

pub open spec fn prepend_strings(done: Seq<Seq<char>>, r: Result<Seq<Seq<char>>, ParseError>) -> Result<Seq<Seq<char>>, ParseError> {
    match r {
        Ok(rest) => Ok(done + rest),
        Err(e) => Err(e),
    }
}

impl Subscribe {
    pub closed spec fn channels_view(&self) -> Seq<Seq<char>> {
        strings_view(self.channels@)
    }

    /// A `Subscribe` command that listens on `channels`.
    pub fn new(channels: Vec<String>) -> (r: Subscribe)
        ensures
            r.channels_view() == strings_view(channels@),
    {
        Subscribe { channels }
    }

    /// Reads a `Subscribe` from the entries that follow the command name.
    ///
    /// There must be at least one entry, and every entry must be a string:
    /// the channels to subscribe to. The error of the first entry that is
    /// not a string is returned.
    pub fn parse_frames(parse: &mut Parse) -> (r: Result<Subscribe, ParseError>)
        ensures
            match subscribe_channels(old(parse)@) {
                Ok(chs) => (r matches Ok(s) && s.channels_view() == chs) && final(parse)@.len() == 0,
                Err(e) => r matches Err(e2) && e2 == e,
            },
    {
        let ghost entries = old(parse)@;
        let first = parse.next_string()?;
        let mut channels: Vec<String> = Vec::new();
        channels.push(first);
        proof {
            assert(strings_view(channels@) =~= seq![first@]);
            assert(entries.drop_first() == parse@);
        }
        loop
            invariant
                entries == old(parse)@,
                entries.len() > 0,
                strings_of(entries) == prepend_strings(strings_view(channels@), strings_of(parse@)),
            ensures
                parse@.len() == 0,
                strings_of(entries) == Ok::<Seq<Seq<char>>, ParseError>(strings_view(channels@)),
            decreases parse@.len(),
        {
            let ghost before = parse@;
            let ghost done = strings_view(channels@);
            match parse.next_string() {
                Ok(s) => {
                    proof {
                        assert(strings_view(channels@.push(s)) =~= done.push(s@));
                        match strings_of(parse@) {
                            Ok(rest) => {
                                assert(done + (seq![s@] + rest) =~= done.push(s@) + rest);
                            },
                            Err(_) => {},
                        }
                    }
                    channels.push(s);
                },
                Err(ParseError::EndOfStream) => {
                    proof {
                        if before.len() > 0 {
                            assert(string_of(before[0]) != Err::<Seq<char>, ParseError>(ParseError::EndOfStream));
                        }
                        assert(done + Seq::<Seq<char>>::empty() =~= done);
                    }
                    break;
                },
                Err(err) => {
                    proof {
                        assert(before.len() > 0);
                        assert(strings_of(before) == Err::<Seq<Seq<char>>, ParseError>(err));
                        assert(strings_of(entries) == Err::<Seq<Seq<char>>, ParseError>(err));
                        assert(entries.len() > 0);
                        assert(subscribe_channels(entries) == Err::<Seq<Seq<char>>, ParseError>(err));
                    }
                    return Err(err);
                },
            }
        }
        Ok(Subscribe { channels })
    }

    /// The frame that sends this command: `SUBSCRIBE channel ...` as bulk strings.
    pub fn into_frame(self) -> (f: Frame)
        ensures
            f@ == FrameView::Array(seq![FrameView::Bulk(encode_utf8("subscribe"@))] + channel_bulks(
                self.channels_view(),
            )),
    {
        let mut parts: Vec<Frame> = Vec::new();
        parts.push(Frame::bulk_from_str("subscribe"));
        let ghost chs = self.channels_view();
        proof {
            lemma_frames_view(parts@);
            assert(channel_bulks(chs.subrange(0, 0)) =~= Seq::<FrameView>::empty());
            assert(frames_view(parts@) =~= seq![FrameView::Bulk(encode_utf8("subscribe"@))]
                    + channel_bulks(chs.subrange(0, 0)));
        }
        let mut i: usize = 0;
        while i < self.channels.len()
            invariant
                i <= self.channels@.len(),
                chs == strings_view(self.channels@),
                frames_view(parts@) == seq![FrameView::Bulk(encode_utf8("subscribe"@))]
                    + channel_bulks(chs.subrange(0, i as int)),
            decreases self.channels@.len() - i,
        {
            let b = Frame::bulk_from_str(self.channels[i].as_str());
            proof {
                assert(parts@.push(b).drop_last() =~= parts@);
                assert(channel_bulks(chs.subrange(0, i + 1)) =~= channel_bulks(chs.subrange(0, i as int)).push(b@));
            }
            parts.push(b);
            i = i + 1;
        }
        assert(chs.subrange(0, i as int) =~= chs);
        Frame::Array(parts)
    }
}


proof fn lemma_strings_of_bulks(chs: Seq<Seq<char>>)
    ensures
        strings_of(channel_bulks(chs)) == Ok::<Seq<Seq<char>>, ParseError>(chs),
    decreases chs.len(),
{
    if chs.len() > 0 {
        vstd::utf8::encode_utf8_decode_utf8(chs[0]);
        vstd::utf8::encode_utf8_valid_utf8(chs[0]);
        assert(channel_bulks(chs).drop_first() =~= channel_bulks(chs.drop_first()));
        lemma_strings_of_bulks(chs.drop_first());
        assert(channel_bulks(chs)[0] == FrameView::Bulk(encode_utf8(chs[0])));
        assert(string_of(channel_bulks(chs)[0]) == Ok::<Seq<char>, ParseError>(chs[0]));
        assert(seq![chs[0]] + chs.drop_first() =~= chs);
    } else {
        assert(channel_bulks(chs) =~= Seq::<FrameView>::empty());
        assert(chs =~= Seq::<Seq<char>>::empty());
    }
}

/// Law: the server reads, from the frame that the client sends to
/// subscribe, the command name `subscribe` and then the very channels that
/// the client asked for (at least one).
pub proof fn lemma_subscribe_frame_read(chs: Seq<Seq<char>>)
    requires
        chs.len() > 0,
    ensures
        string_of(FrameView::Bulk(encode_utf8("subscribe"@))) == Ok::<Seq<char>, ParseError>(
            "subscribe"@,
        ),
        subscribe_channels(channel_bulks(chs)) == Ok::<Seq<Seq<char>>, ParseError>(chs),
{
    vstd::utf8::encode_utf8_decode_utf8("subscribe"@);
    vstd::utf8::encode_utf8_valid_utf8("subscribe"@);
    lemma_strings_of_bulks(chs);
}

} // verus!
