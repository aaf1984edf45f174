//! Framing for one connection: encoding frames into a write buffer and
//! extracting frames from a read buffer.
//!
//! The socket itself lives with the I/O layer. That layer appends
//! whatever bytes arrive to a `Vec<u8>` and calls `parse_frame`; on
//! `Ok(Some(..))` it hands the frame on and drops the consumed prefix
//! with `advance_buffer`; on `Ok(None)` it reads more bytes; on `Err`
//! it closes the connection. To send, it calls `write_frame` into an
//! empty buffer and writes the bytes out.

use crate::frame::{
    copy_range, crlf, dec_digits, dec_frame, enc_frame, enc_items, enc_value, frames_view,
    DecodeStep, Frame, FrameError, FrameV,
};
use vstd::prelude::*;

verus! {

broadcast use vstd::std_specs::vec::group_vec_axioms;

/// A frame the encoder can emit: arrays only one level deep.
pub open spec fn writable(f: FrameV) -> bool {
    match f {
        FrameV::Array(items) => forall|i: int| 0 <= i < items.len() ==> !(#[trigger] items[i]
            is Array),
        _ => true,
    }
}

/// Append every byte of `src` to `out`.
fn extend_bytes(out: &mut Vec<u8>, src: &Vec<u8>)
    ensures
        final(out)@ == old(out)@ + src@,
{
    let ghost base = out@;
    let mut i: usize = 0;
    while i < src.len()
        invariant
            i <= src@.len(),
            out@ == base + src@.take(i as int),
        decreases src@.len() - i,
    {
        out.push(src[i]);
        i = i + 1;
        proof {
            assert(out@ =~= base + src@.take(i as int));
        }
    }
    proof {
        assert(base + src@.take(src@.len() as int) =~= base + src@);
    }
}

/// Append the decimal digits of `n`, most significant first.
fn push_digits(out: &mut Vec<u8>, n: u64)
    ensures
        final(out)@ == old(out)@ + dec_digits(n as nat),
    decreases n,
{
    if n < 10 {
        out.push((48 + n) as u8);
        proof {
            assert(out@ =~= old(out)@ + dec_digits(n as nat));
        }
    } else {
        push_digits(out, n / 10);
        out.push((48 + (n % 10)) as u8);
        proof {
            assert(out@ =~= old(out)@ + dec_digits(n as nat));
        }
    }
}

/// Append the decimal form of `value` followed by `\r\n`.
pub fn write_decimal(out: &mut Vec<u8>, value: u64)
    ensures
        final(out)@ == old(out)@ + dec_digits(value as nat) + crlf(),
{
    push_digits(out, value);
    out.push(13);
    out.push(10);
    proof {
        assert(out@ =~= old(out)@ + dec_digits(value as nat) + crlf());
    }
}

/// Append the wire bytes of a non-array frame.
pub fn write_value(out: &mut Vec<u8>, frame: &Frame)
    requires
        !(frame@ is Array),
    ensures
        final(out)@ == old(out)@ + enc_value(frame@),
{
    match frame {
        Frame::Simple(v) => {
            out.push(43);
            extend_bytes(out, v);
            out.push(13);
            out.push(10);
            proof {
                assert(out@ =~= old(out)@ + enc_value(frame@));
            }
        },
        Frame::Error(v) => {
            out.push(45);
            extend_bytes(out, v);
            out.push(13);
            out.push(10);
            proof {
                assert(out@ =~= old(out)@ + enc_value(frame@));
            }
        },
        Frame::Integer(n) => {
            out.push(58);
            write_decimal(out, *n);
            proof {
                assert(out@ =~= old(out)@ + enc_value(frame@));
            }
        },
        Frame::Null => {
            out.push(36);
            out.push(45);
            out.push(49);
            out.push(13);
            out.push(10);
            proof {
                assert(out@ =~= old(out)@ + enc_value(frame@));
            }
        },
        Frame::Bulk(v) => {
            out.push(36);
            write_decimal(out, v.len() as u64);
            extend_bytes(out, v);
            out.push(13);
            out.push(10);
            proof {
                assert(out@ =~= old(out)@ + enc_value(frame@));
            }
        },
        Frame::Array(_) => {
            proof {
                assert(false);
            }
        },
    }
}

/// Appending one more item extends the encoding of a run of items.
proof fn lemma_enc_items_snoc(items: Seq<FrameV>, k: int)
    requires
        0 <= k < items.len(),
    ensures
        enc_items(items.take(k + 1)) == enc_items(items.take(k)) + enc_value(items[k]),
    decreases k,
{
    if k == 0 {
        let t1 = items.take(1);
        assert(t1[0] == items[0]);
        assert(t1.drop_first() =~= Seq::<FrameV>::empty());
        assert(items.take(0) =~= Seq::<FrameV>::empty());
        assert(enc_items(t1) =~= enc_items(items.take(0)) + enc_value(items[0]));
    } else {
        let d = items.drop_first();
        lemma_enc_items_snoc(d, k - 1);
        let t1 = items.take(k + 1);
        let t0 = items.take(k);
        assert(t1[0] == items[0]);
        assert(t0[0] == items[0]);
        assert(t1.drop_first() =~= d.take(k));
        assert(t0.drop_first() =~= d.take(k - 1));
        assert(d[k - 1] == items[k]);
        assert(enc_items(t1) == enc_value(items[0]) + (enc_items(d.take(k - 1)) + enc_value(
            items[k],
        )));
        assert(enc_value(items[0]) + (enc_items(d.take(k - 1)) + enc_value(items[k])) =~= (
        enc_value(items[0]) + enc_items(d.take(k - 1))) + enc_value(items[k]));
    }
}

/// Append the full wire bytes of a frame. Arrays are encoded by
/// encoding each item in order; items are never themselves arrays.
pub fn write_frame(out: &mut Vec<u8>, frame: &Frame)
    requires
        writable(frame@),
    ensures
        final(out)@ == old(out)@ + enc_frame(frame@),
{
    match frame {
        Frame::Array(items) => {
            let ghost fitems = frames_view(*items);
            out.push(42);
            write_decimal(out, items.len() as u64);
            let ghost base = out@;
            proof {
                assert(fitems.take(0) =~= Seq::<FrameV>::empty());
            }
            let mut i: usize = 0;
            while i < items.len()
                invariant
                    i <= items@.len(),
                    fitems == frames_view(*items),
                    fitems.len() == items@.len(),
                    forall|j: int|
                        0 <= j < items@.len() ==> !(#[trigger] fitems[j] is Array)
                            && fitems[j] == items@[j]@,
                    out@ == base + enc_items(fitems.take(i as int)),
                decreases items@.len() - i,
            {
                proof {
                    assert(!(fitems[i as int] is Array));
                    assert(fitems[i as int] == items@[i as int]@);
                }
                write_value(out, &items[i]);
                proof {
                    lemma_enc_items_snoc(fitems, i as int);
                    assert(out@ =~= base + enc_items(fitems.take(i as int + 1)));
                }
                i = i + 1;
            }
            proof {
                assert(fitems.take(fitems.len() as int) =~= fitems);
                assert(out@ =~= old(out)@ + enc_frame(frame@));
            }
        },
        _ => {
            write_value(out, frame);
        },
    }
}

/// Try to extract one frame from the front of the read buffer.
///
/// `Ok(Some((frame, len)))`: a whole frame occupies the first `len`
/// bytes. `Ok(None)`: the buffer holds only a prefix of a frame; more
/// bytes are needed. `Err(..)`: the bytes are not a valid frame and
/// the connection must close.
pub fn parse_frame(buf: &Vec<u8>) -> (r: Result<Option<(Frame, usize)>, FrameError>)
    ensures
        match r {
            Ok(opt) => match opt {
                Some(fl) => dec_frame(buf@, 0) matches DecodeStep::Found(fv, np) && fl.0@ == fv
                    && fl.1 as int == np && fl.1 <= buf@.len(),
                None => dec_frame(buf@, 0) is Incomplete,
            },
            Err(e) => dec_frame(buf@, 0) is Invalid && e is Other,
        },
{
    match Frame::check(buf, 0) {
        Ok(_len) => {
            let (f, len) = Frame::parse(buf, 0);
            Ok(Some((f, len)))
        },
        Err(e) => match e {
            FrameError::Incomplete => Ok(None),
            FrameError::Other(m) => Err(FrameError::Other(m)),
        },
    }
}

/// Drop the first `n` bytes of the read buffer (they have been parsed).
pub fn advance_buffer(buf: &mut Vec<u8>, n: usize)
    requires
        n <= old(buf)@.len(),
    ensures
        final(buf)@ == old(buf)@.subrange(n as int, old(buf)@.len() as int),
{
    let rest = copy_range(buf, n, buf.len());
    *buf = rest;
}

} // verus!
