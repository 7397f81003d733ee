//! A cursor over the entries of an array frame, from which commands read
//! their arguments one by one.

use vstd::prelude::*;
use vstd::utf8::{valid_utf8, decode_utf8};
use crate::frame::{Frame, FrameView, frames_view, lemma_frames_view};
use crate::text::string_from_utf8;

verus! {

/// Why a command could not be read from a frame.
#[derive(Debug, PartialEq, Eq, Structural)]
pub enum ParseError {
    /// Every entry of the frame has been read.
    EndOfStream,
    /// A command must be an array frame.
    NotAnArray,
    /// A string was expected, and the entry is neither a simple nor a bulk string.
    UnexpectedFrame,
    /// A bulk string that is not valid UTF-8.
    InvalidString,
    /// The command is complete, and entries remain.
    TrailingData,
}

/// The string that an entry holds, as `Parse::next_string` reads it.
pub open spec fn string_of(f: FrameView) -> Result<Seq<char>, ParseError> {
    match f {
        FrameView::Simple(s) => Ok(s),
        FrameView::Bulk(b) => if valid_utf8(b) {
            Ok(decode_utf8(b))
        } else {
            Err(ParseError::InvalidString)
        },
        _ => Err(ParseError::UnexpectedFrame),
    }
}

/// The entries of an array frame that have not been read yet.
///
/// The entries are held last one first, so that the next one is popped.
pub struct Parse {
    parts: Vec<Frame>,
}

impl View for Parse {
    type V = Seq<FrameView>;

    /// The entries not read yet, in order.
    closed spec fn view(&self) -> Seq<FrameView> {
        frames_view(self.parts@).reverse()
    }
}

impl Parse {
    /// Starts reading the entries of `frame`, which must be an array.
    pub fn new(frame: Frame) -> (r: Result<Parse, ParseError>)
        ensures
            match frame@ {
                FrameView::Array(items) => r matches Ok(p) && p@ == items,
                _ => r is Err && r->Err_0 == ParseError::NotAnArray,
            },
    {
        match frame {
            Frame::Array(items) => {
                let mut items = items;
                let ghost all = frames_view(items@);
                let mut parts: Vec<Frame> = Vec::new();
                assert(frames_view(items@) + frames_view(parts@).reverse() =~= all);
                while items.len() > 0
                    invariant
                        frames_view(items@) + frames_view(parts@).reverse() == all,
                    decreases items@.len(),
                {
                    let ghost before = items@;
                    let x = items.pop().unwrap();
                    proof {
                        assert(before.drop_last() =~= items@);
                        assert(parts@.push(x).drop_last() =~= parts@);
                        assert(frames_view(parts@.push(x)) == frames_view(parts@).push(x@));
                        assert(frames_view(parts@).push(x@).reverse() =~= seq![x@] + frames_view(
                            parts@,
                        ).reverse());
                        assert(frames_view(before) == frames_view(items@).push(x@));
                        assert(frames_view(items@) + (seq![x@] + frames_view(parts@).reverse())
                            =~= frames_view(items@).push(x@) + frames_view(parts@).reverse());
                    }
                    parts.push(x);
                }
                assert(items@ =~= Seq::<Frame>::empty());
                assert(frames_view(items@) =~= Seq::<FrameView>::empty());
                assert(frames_view(parts@).reverse() =~= all);
                Ok(Parse { parts })
            },
            _ => Err(ParseError::NotAnArray),
        }
    }

    /// Takes the next entry.
    fn next(&mut self) -> (r: Result<Frame, ParseError>)
        ensures
            old(self)@.len() == 0 ==> r == Err::<Frame, ParseError>(ParseError::EndOfStream)
                && final(self)@ == old(self)@,
            old(self)@.len() > 0 ==> (r matches Ok(f) && f@ == old(self)@[0])
                && final(self)@ == old(self)@.drop_first(),
    {
        proof {
            lemma_frames_view(self.parts@);
        }
        let ghost before = self.parts@;
        match self.parts.pop() {
            Some(f) => {
                proof {
                    assert(before.drop_last() =~= self.parts@);
                    assert(frames_view(before) == frames_view(self.parts@).push(f@));
                    assert(frames_view(before).reverse() =~= seq![f@] + frames_view(
                        self.parts@,
                    ).reverse());
                    assert(frames_view(before).reverse().drop_first() =~= frames_view(
                        self.parts@,
                    ).reverse());
                }
                Ok(f)
            },
            None => {
                assert(frames_view(before).len() == 0);
                Err(ParseError::EndOfStream)
            },
        }
    }

    /// Reads the next entry as a string: a simple string as it is, a bulk
    /// string decoded from UTF-8.
    pub fn next_string(&mut self) -> (r: Result<String, ParseError>)
        ensures
            old(self)@.len() == 0 ==> r == Err::<String, ParseError>(ParseError::EndOfStream)
                && final(self)@ == old(self)@,
            old(self)@.len() > 0 ==> final(self)@ == old(self)@.drop_first() && match string_of(
                old(self)@[0],
            ) {
                Ok(t) => r matches Ok(s) && s@ == t,
                Err(e) => r == Err::<String, ParseError>(e),
            },
    {
        let f = self.next()?;
        match f {
            Frame::Simple(s) => Ok(s),
            Frame::Bulk(data) => match string_from_utf8(data) {
                Some(s) => Ok(s),
                None => Err(ParseError::InvalidString),
            },
            _ => Err(ParseError::UnexpectedFrame),
        }
    }

    /// Succeeds when every entry has been read.
    pub fn finish(&mut self) -> (r: Result<(), ParseError>)
        ensures
            final(self)@ == old(self)@,
            old(self)@.len() == 0 ==> r is Ok,
            old(self)@.len() > 0 ==> r == Err::<(), ParseError>(ParseError::TrailingData),
    {
        proof {
            lemma_frames_view(self.parts@);
        }
        if self.parts.len() == 0 {
            Ok(())
        } else {
            Err(ParseError::TrailingData)
        }
    }
}

} // verus!
