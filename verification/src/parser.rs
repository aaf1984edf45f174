//! A cursor over the elements of a decoded array frame.
//!
//! Commands arrive as array frames; each element is one token. The
//! parser hands tokens out one at a time, as strings, raw bytes or
//! integers, and `finish` checks that nothing is left over.

use crate::frame::{dec_u64, frames_view, Frame, FrameV};
use vstd::prelude::*;

verus! {

broadcast use vstd::std_specs::vec::group_vec_axioms;

/// Errors met while extracting tokens.
///
/// Only `EndOfStream` is handled at runtime (it marks the normal end
/// of the token list); every other error terminates the connection.
#[derive(Debug, Clone, PartialEq)]
pub enum ParserError {
    /// The frame was fully consumed.
    EndOfStream,
    /// The token has the wrong shape for what was asked.
    Other(Vec<u8>),
}

/// Bytes of the message `protocol error`, for malformed tokens.
fn token_error() -> Vec<u8> {
    let v: Vec<u8> = vec![112u8, 114u8, 111u8, 116u8, 111u8, 99u8, 111u8, 108u8, 32u8, 101u8,
        114u8, 114u8, 111u8, 114u8];
    v
}

/// A cursor over the elements of an array frame.
pub struct Parser {
    frames: Vec<Frame>,
}

/// What a token yields when read as a string: the bytes of a simple
/// frame, or of a bulk frame when they are valid UTF-8.
pub open spec fn token_string(f: FrameV) -> Option<Seq<u8>> {
    match f {
        FrameV::Simple(s) => Option::Some(s),
        FrameV::Bulk(b) => if vstd::utf8::valid_utf8(b) {
            Option::Some(b)
        } else {
            Option::None
        },
        _ => Option::None,
    }
}

/// What a token yields when read as raw bytes.
pub open spec fn token_bytes(f: FrameV) -> Option<Seq<u8>> {
    match f {
        FrameV::Simple(s) => Option::Some(s),
        FrameV::Bulk(b) => Option::Some(b),
        _ => Option::None,
    }
}

/// What a token yields when read as an unsigned integer: an integer
/// frame directly, or text that reads as a decimal number.
pub open spec fn token_int(f: FrameV) -> Option<u64> {
    match f {
        FrameV::Integer(v) => Option::Some(v),
        FrameV::Simple(s) => dec_u64(s),
        FrameV::Bulk(b) => dec_u64(b),
        _ => Option::None,
    }
}

/// Relies on std's `str::from_utf8`: it returns `Ok` exactly when the
/// bytes are valid UTF-8, which vstd's `valid_utf8` formalizes.
#[verifier::external_body]
fn check_utf8(v: &Vec<u8>) -> (r: bool)
    ensures
        r == vstd::utf8::valid_utf8(v@),
{
    core::str::from_utf8(v.as_slice()).is_ok()
}

impl Parser {
    /// The tokens not yet consumed.
    pub closed spec fn remaining(self) -> Seq<FrameV> {
        frames_view(self.frames)
    }

    /// Make a parser over the elements of `frame`, which must be an
    /// array frame.
    pub fn new(frame: Frame) -> (r: Result<Parser, ParserError>)
        ensures
            match r {
                Ok(p) => frame@ is Array && p.remaining() == frame@->Array_0,
                Err(e) => !(frame@ is Array) && e is Other,
            },
    {
        match frame {
            Frame::Array(frames) => Ok(Parser { frames }),
            _ => Err(ParserError::Other(token_error())),
        }
    }

    /// The next element, consumed from the front.
    fn next(&mut self) -> (r: Result<Frame, ParserError>)
        ensures
            match r {
                Ok(f) => (*old(self)).remaining().len() > 0 && f@ == (*old(self)).remaining()[0]
                    && (*final(self)).remaining() == (*old(self)).remaining().skip(1),
                Err(e) => (*old(self)).remaining().len() == 0 && e is EndOfStream && *final(self)
                    == *old(self),
            },
    {
        if self.frames.len() == 0 {
            Err(ParserError::EndOfStream)
        } else {
            let ghost before = frames_view(self.frames);
            let f = self.frames.remove(0);
            proof {
                assert forall|j: int| 0 <= j < frames_view(self.frames).len() implies
                    frames_view(self.frames)[j] == before.skip(1)[j] by {
                    assert(self.frames@[j] == old(self).frames@[j + 1]);
                }
                assert(frames_view(self.frames) =~= before.skip(1));
                assert(f@ == before[0]);
            }
            Ok(f)
        }
    }

    /// The next token as a string (bytes that are valid UTF-8 when
    /// they come from a bulk frame). Consumes the token.
    pub fn next_string(&mut self) -> (r: Result<Vec<u8>, ParserError>)
        ensures
            match r {
                Ok(v) => (*old(self)).remaining().len() > 0 && token_string(
                    (*old(self)).remaining()[0],
                ) == Option::Some(v@) && (*final(self)).remaining() == (*old(self)).remaining().skip(
                    1,
                ),
                Err(e) => match e {
                    ParserError::EndOfStream => (*old(self)).remaining().len() == 0 && *final(self)
                        == *old(self),
                    ParserError::Other(_) => (*old(self)).remaining().len() > 0 && token_string(
                        (*old(self)).remaining()[0],
                    ) is None && (*final(self)).remaining() == (*old(self)).remaining().skip(1),
                },
            },
    {
        match self.next() {
            Err(e) => Err(e),
            Ok(f) => match f {
                Frame::Simple(s) => Ok(s),
                Frame::Bulk(b) => {
                    if check_utf8(&b) {
                        Ok(b)
                    } else {
                        Err(ParserError::Other(token_error()))
                    }
                },
                _ => Err(ParserError::Other(token_error())),
            },
        }
    }

    /// The next token as raw bytes. Consumes the token.
    pub fn next_bytes(&mut self) -> (r: Result<Vec<u8>, ParserError>)
        ensures
            match r {
                Ok(v) => (*old(self)).remaining().len() > 0 && token_bytes(
                    (*old(self)).remaining()[0],
                ) == Option::Some(v@) && (*final(self)).remaining() == (*old(self)).remaining().skip(
                    1,
                ),
                Err(e) => match e {
                    ParserError::EndOfStream => (*old(self)).remaining().len() == 0 && *final(self)
                        == *old(self),
                    ParserError::Other(_) => (*old(self)).remaining().len() > 0 && token_bytes(
                        (*old(self)).remaining()[0],
                    ) is None && (*final(self)).remaining() == (*old(self)).remaining().skip(1),
                },
            },
    {
        match self.next() {
            Err(e) => Err(e),
            Ok(f) => match f {
                Frame::Simple(s) => Ok(s),
                Frame::Bulk(b) => Ok(b),
                _ => Err(ParserError::Other(token_error())),
            },
        }
    }

    /// The next token as an unsigned integer. Consumes the token.
    pub fn next_int(&mut self) -> (r: Result<u64, ParserError>)
        ensures
            match r {
                Ok(v) => (*old(self)).remaining().len() > 0 && token_int((*old(self)).remaining()[0])
                    == Option::Some(v) && (*final(self)).remaining() == (*old(self)).remaining().skip(1),
                Err(e) => match e {
                    ParserError::EndOfStream => (*old(self)).remaining().len() == 0 && *final(self)
                        == *old(self),
                    ParserError::Other(_) => (*old(self)).remaining().len() > 0 && token_int(
                        (*old(self)).remaining()[0],
                    ) is None && (*final(self)).remaining() == (*old(self)).remaining().skip(1),
                },
            },
    {
        match self.next() {
            Err(e) => Err(e),
            Ok(f) => match f {
                Frame::Integer(v) => Ok(v),
                Frame::Simple(s) => match crate::frame::parse_decimal(&s) {
                    Option::Some(v) => Ok(v),
                    Option::None => Err(ParserError::Other(token_error())),
                },
                Frame::Bulk(b) => match crate::frame::parse_decimal(&b) {
                    Option::Some(v) => Ok(v),
                    Option::None => Err(ParserError::Other(token_error())),
                },
                _ => Err(ParserError::Other(token_error())),
            },
        }
    }

    /// Succeeds exactly when every token has been consumed; leftover
    /// tokens are a malformed frame, not a recoverable end of stream.
    pub fn finish(&mut self) -> (r: Result<(), ParserError>)
        ensures
            match r {
                Ok(_) => (*old(self)).remaining().len() == 0 && *final(self) == *old(self),
                Err(e) => (*old(self)).remaining().len() > 0 && e is Other,
            },
    {
        match self.next() {
            Err(_) => Ok(()),
            Ok(_) => Err(ParserError::Other(token_error())),
        }
    }
}

} // verus!
