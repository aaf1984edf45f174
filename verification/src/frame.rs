//! The RESP frame type and its wire format.
//!
//! A frame is one of six variants. On the wire: `+simple\r\n`,
//! `-error\r\n`, `:integer\r\n`, `$len\r\n<len bytes>\r\n`, `$-1\r\n` for
//! null, `*count\r\n<count frames>`. Text is kept as raw bytes; callers
//! that need UTF-8 validate it at the parsing layer.
//!
//! The mathematical model of the format is a family of spec functions:
//! `dec_frame` (the one deterministic reading of a byte sequence) and
//! `enc_frame` (the bytes the encoder emits). Both the executable
//! two-pass decoder (`Frame::check` / `Frame::parse`) and the encoder in
//! `connection` are proved against them, and `lemma_round_trip` shows
//! that decoding an encoding yields the frame that was encoded.

use vstd::prelude::*;

verus! {

broadcast use vstd::std_specs::vec::group_vec_axioms;

/// A frame in the RESP protocol.
#[derive(Debug, PartialEq)]
pub enum Frame {
    Simple(Vec<u8>),
    Error(Vec<u8>),
    Integer(u64),
    Bulk(Vec<u8>),
    Null,
    Array(Vec<Frame>),
}

/// The mathematical value of a `Frame`: the same shape over `Seq<u8>`.
pub enum FrameV {
    Simple(Seq<u8>),
    Error(Seq<u8>),
    Integer(u64),
    Bulk(Seq<u8>),
    Null,
    Array(Seq<FrameV>),
}

/// The model of a vector of frames: the sequence of their models.
pub open spec fn frames_view(items: Vec<Frame>) -> Seq<FrameV>
    decreases items,
{
    Seq::new(
        items@.len(),
        |i: int|
            if 0 <= i < items@.len() {
                frame_view(items@[i])
            } else {
                FrameV::Null
            },
    )
}

/// The model of a frame.
pub open spec fn frame_view(f: Frame) -> FrameV
    decreases f,
{
    match f {
        Frame::Simple(s) => FrameV::Simple(s@),
        Frame::Error(s) => FrameV::Error(s@),
        Frame::Integer(n) => FrameV::Integer(n),
        Frame::Bulk(b) => FrameV::Bulk(b@),
        Frame::Null => FrameV::Null,
        Frame::Array(items) => FrameV::Array(frames_view(items)),
    }
}

impl View for Frame {
    type V = FrameV;

    open spec fn view(&self) -> FrameV {
        frame_view(*self)
    }
}

/// Errors from decoding a frame.
#[derive(Debug, Clone, PartialEq)]
pub enum FrameError {
    /// Not enough data has arrived to hold a whole frame.
    Incomplete,
    /// The bytes do not form a valid frame; the connection must close.
    Other(Vec<u8>),
}

// ---------------------------------------------------------------------
// Spec-level lexical helpers
// ---------------------------------------------------------------------

pub open spec fn crlf() -> Seq<u8> {
    seq![13u8, 10u8]
}

/// Position of the first `\r\n` pair at or after `pos`, if any pair
/// starts before the last byte.
pub open spec fn find_crlf(s: Seq<u8>, pos: int) -> Option<int>
    decreases s.len() - pos,
{
    if pos < 0 || pos + 1 >= s.len() {
        None
    } else if s[pos] == 13 && s[pos + 1] == 10 {
        Some(pos)
    } else {
        find_crlf(s, pos + 1)
    }
}

/// No `\r\n` pair occurs anywhere inside `s`.
pub open spec fn crlf_free(s: Seq<u8>) -> bool {
    forall|i: int| 0 <= i && i + 1 < s.len() ==> !(#[trigger] s[i] == 13 && s[i + 1] == 10)
}

/// The line starting at `pos`: its bytes and the position just past the
/// terminating `\r\n`.
pub open spec fn spec_line(s: Seq<u8>, pos: int) -> Option<(Seq<u8>, int)> {
    match find_crlf(s, pos) {
        Option::None => Option::None,
        Option::Some(i) => Option::Some((s.subrange(pos, i), i + 2)),
    }
}

pub open spec fn is_digit(b: u8) -> bool {
    48 <= b <= 57
}

/// Count of leading ASCII digits.
pub open spec fn leading_digits(s: Seq<u8>) -> int
    decreases s.len(),
{
    if s.len() == 0 || !is_digit(s[0]) {
        0
    } else {
        1 + leading_digits(s.drop_first())
    }
}

/// Numeric value of a digit string, most significant digit first.
pub open spec fn digits_val(s: Seq<u8>) -> nat
    decreases s.len(),
{
    if s.len() == 0 {
        0
    } else {
        (digits_val(s.drop_last()) * 10 + (s.last() - 48)) as nat
    }
}

/// The decimal reading of a line: the value of its maximal digit
/// prefix; `None` when there is no leading digit or the value does not
/// fit in a `u64`.
pub open spec fn dec_u64(s: Seq<u8>) -> Option<u64> {
    let k = leading_digits(s);
    if k == 0 {
        Option::None
    } else if digits_val(s.take(k)) > u64::MAX {
        Option::None
    } else {
        Option::Some(digits_val(s.take(k)) as u64)
    }
}

// ---------------------------------------------------------------------
// The spec decoder
// ---------------------------------------------------------------------

/// Outcome of reading one frame from a byte sequence.
pub enum DecodeStep {
    /// A whole frame starts at the given position; the `int` is the
    /// position just past it.
    Found(FrameV, int),
    /// The bytes so far are a proper prefix of some frame.
    Incomplete,
    /// No extension of the bytes at this position forms a frame.
    Invalid,
}

/// Outcome of reading a run of consecutive frames.
pub enum ElemsStep {
    Found(Seq<FrameV>, int),
    Incomplete,
    Invalid,
}

/// The one reading of the byte sequence `s` from position `pos` as a
/// frame. This is the defining description of the wire format.
pub open spec fn dec_frame(s: Seq<u8>, pos: int) -> DecodeStep
    decreases s.len() - pos, 0int, 0int,
{
    if pos < 0 || pos > s.len() {
        DecodeStep::Invalid
    } else if pos == s.len() {
        DecodeStep::Incomplete
    } else {
        let t = s[pos];
        let p1 = pos + 1;
        if t == 43 {  // '+'
            match spec_line(s, p1) {
                Option::None => DecodeStep::Incomplete,
                Option::Some((line, np)) => DecodeStep::Found(FrameV::Simple(line), np),
            }
        } else if t == 45 {  // '-'
            match spec_line(s, p1) {
                Option::None => DecodeStep::Incomplete,
                Option::Some((line, np)) => DecodeStep::Found(FrameV::Error(line), np),
            }
        } else if t == 58 {  // ':'
            match spec_line(s, p1) {
                Option::None => DecodeStep::Incomplete,
                Option::Some((line, np)) => match dec_u64(line) {
                    Option::None => DecodeStep::Invalid,
                    Option::Some(v) => DecodeStep::Found(FrameV::Integer(v), np),
                },
            }
        } else if t == 36 {  // '$'
            if p1 == s.len() {
                DecodeStep::Incomplete
            } else if s[p1] == 45 {  // '-': the null frame "$-1\r\n"
                if p1 + 4 > s.len() {
                    DecodeStep::Incomplete
                } else if s.subrange(p1, p1 + 4) =~= seq![45u8, 49u8, 13u8, 10u8] {
                    DecodeStep::Found(FrameV::Null, p1 + 4)
                } else {
                    DecodeStep::Invalid
                }
            } else {
                match spec_line(s, p1) {
                    Option::None => DecodeStep::Incomplete,
                    Option::Some((line, np)) => match dec_u64(line) {
                        Option::None => DecodeStep::Invalid,
                        Option::Some(v) => {
                            let n = v as int;
                            if np + n + 2 > s.len() {
                                DecodeStep::Incomplete
                            } else {
                                DecodeStep::Found(
                                    FrameV::Bulk(s.subrange(np, np + n)),
                                    np + n + 2,
                                )
                            }
                        },
                    },
                }
            }
        } else if t == 42 {  // '*'
            match spec_line(s, p1) {
                Option::None => DecodeStep::Incomplete,
                Option::Some((line, np)) => match dec_u64(line) {
                    Option::None => DecodeStep::Invalid,
                    Option::Some(v) => {
                        if !(pos < np <= s.len()) {
                            DecodeStep::Invalid  // never reached: lines end past their start
                        } else {
                            match dec_elems(s, np, v as nat) {
                                ElemsStep::Found(items, fp) => DecodeStep::Found(
                                    FrameV::Array(items),
                                    fp,
                                ),
                                ElemsStep::Incomplete => DecodeStep::Incomplete,
                                ElemsStep::Invalid => DecodeStep::Invalid,
                            }
                        }
                    },
                },
            }
        } else {
            DecodeStep::Invalid
        }
    }
}

/// Reading of `n` consecutive frames starting at `pos`.
pub open spec fn dec_elems(s: Seq<u8>, pos: int, n: nat) -> ElemsStep
    decreases s.len() - pos, 1int, n,
{
    if pos < 0 || pos > s.len() {
        ElemsStep::Invalid
    } else if n == 0 {
        ElemsStep::Found(Seq::empty(), pos)
    } else {
        match dec_frame(s, pos) {
            DecodeStep::Found(f, np) => {
                if !(pos <= np <= s.len()) {
                    ElemsStep::Invalid  // never reached: frames end past their start
                } else {
                    match dec_elems(s, np, (n - 1) as nat) {
                        ElemsStep::Found(rest, fp) => ElemsStep::Found(
                            seq![f] + rest,
                            fp,
                        ),
                        ElemsStep::Incomplete => ElemsStep::Incomplete,
                        ElemsStep::Invalid => ElemsStep::Invalid,
                    }
                }
            },
            DecodeStep::Incomplete => ElemsStep::Incomplete,
            DecodeStep::Invalid => ElemsStep::Invalid,
        }
    }
}

// ---------------------------------------------------------------------
// The spec encoder
// ---------------------------------------------------------------------

/// Decimal digits of `n`, most significant first, no sign, no leading
/// zero (except for `n == 0` itself).
pub open spec fn dec_digits(n: nat) -> Seq<u8>
    decreases n,
{
    if n < 10 {
        seq![(48 + n) as u8]
    } else {
        dec_digits(n / 10) + seq![(48 + n % 10) as u8]
    }
}

/// Wire bytes of a non-array frame.
pub open spec fn enc_value(f: FrameV) -> Seq<u8> {
    match f {
        FrameV::Simple(s) => seq![43u8] + s + crlf(),
        FrameV::Error(s) => seq![45u8] + s + crlf(),
        FrameV::Integer(n) => seq![58u8] + dec_digits(n as nat) + crlf(),
        FrameV::Bulk(b) => seq![36u8] + dec_digits(b.len()) + crlf() + b + crlf(),
        FrameV::Null => seq![36u8, 45u8, 49u8, 13u8, 10u8],
        FrameV::Array(_) => Seq::empty(),
    }
}

/// Wire bytes of a run of non-array frames.
pub open spec fn enc_items(items: Seq<FrameV>) -> Seq<u8>
    decreases items.len(),
{
    if items.len() == 0 {
        Seq::empty()
    } else {
        enc_value(items[0]) + enc_items(items.drop_first())
    }
}

/// Wire bytes of a frame. Arrays hold only non-array frames.
pub open spec fn enc_frame(f: FrameV) -> Seq<u8> {
    match f {
        FrameV::Array(items) => seq![42u8] + dec_digits(items.len()) + crlf() + enc_items(
            items,
        ),
        _ => enc_value(f),
    }
}

/// A non-array frame the encoder can emit and the decoder will read
/// back: simple and error text must not contain `\r\n` (it would end
/// the line early) and ghost lengths must fit the wire's `u64` counts.
pub open spec fn encodable_value(f: FrameV) -> bool {
    match f {
        FrameV::Simple(s) => crlf_free(s) && s.len() <= u64::MAX,
        FrameV::Error(s) => crlf_free(s) && s.len() <= u64::MAX,
        FrameV::Integer(_) => true,
        FrameV::Bulk(b) => b.len() <= u64::MAX,
        FrameV::Null => true,
        FrameV::Array(_) => false,
    }
}

/// A frame the encoder accepts: a flat frame, or an array of flat
/// frames (the encoder does not emit nested arrays).
pub open spec fn encodable(f: FrameV) -> bool {
    match f {
        FrameV::Array(items) => items.len() <= u64::MAX && forall|i: int|
            0 <= i < items.len() ==> encodable_value(#[trigger] items[i]),
        _ => encodable_value(f),
    }
}

// ---------------------------------------------------------------------
// Lemmas: decimal digits
// ---------------------------------------------------------------------

/// Every byte of `dec_digits(n)` is an ASCII digit, and there is at
/// least one.
pub proof fn lemma_dec_digits_are_digits(n: nat)
    ensures
        dec_digits(n).len() >= 1,
        forall|i: int| 0 <= i < dec_digits(n).len() ==> is_digit(#[trigger] dec_digits(n)[i]),
    decreases n,
{
    if n >= 10 {
        lemma_dec_digits_are_digits(n / 10);
    }
}

/// Reading the digits of `n` back gives `n`.
pub proof fn lemma_digits_val_of_dec_digits(n: nat)
    ensures
        digits_val(dec_digits(n)) == n,
    decreases n,
{
    if n < 10 {
        let s = dec_digits(n);
        assert(s.drop_last() =~= Seq::<u8>::empty());
        assert(digits_val(s.drop_last()) == 0);
        assert(s.last() == 48 + n);
        assert(digits_val(s) == (digits_val(s.drop_last()) * 10 + (s.last() - 48)) as nat);
    } else {
        lemma_digits_val_of_dec_digits(n / 10);
        let s = dec_digits(n);
        assert(s.drop_last() =~= dec_digits(n / 10));
        assert(s.last() == 48 + n % 10);
        assert(digits_val(s) == (n / 10) * 10 + n % 10);
        assert((n / 10) * 10 + n % 10 == n) by {
            vstd::arithmetic::div_mod::lemma_fundamental_div_mod(n as int, 10);
        }
    }
}

/// A sequence of digits is its own maximal digit prefix.
pub proof fn lemma_leading_digits_all(s: Seq<u8>)
    requires
        forall|i: int| 0 <= i < s.len() ==> is_digit(#[trigger] s[i]),
    ensures
        leading_digits(s) == s.len(),
    decreases s.len(),
{
    if s.len() > 0 {
        lemma_leading_digits_all(s.drop_first());
    }
}

/// Reading the digit string of `n` as a decimal line yields `n`.
pub proof fn lemma_dec_u64_of_dec_digits(n: u64)
    ensures
        dec_u64(dec_digits(n as nat)) == Option::Some(n),
{
    let s = dec_digits(n as nat);
    lemma_dec_digits_are_digits(n as nat);
    lemma_leading_digits_all(s);
    assert(s.take(s.len() as int) =~= s);
    lemma_digits_val_of_dec_digits(n as nat);
}

// ---------------------------------------------------------------------
// Lemmas: lines
// ---------------------------------------------------------------------

/// A window equality turned into pointwise byte equalities.
pub proof fn lemma_seq_at(s: Seq<u8>, pos: int, w: Seq<u8>)
    requires
        0 <= pos,
        pos + w.len() <= s.len(),
        s.subrange(pos, pos + w.len()) =~= w,
    ensures
        forall|k: int| 0 <= k < w.len() ==> #[trigger] s[pos + k] == w[k],
{
    assert forall|k: int| 0 <= k < w.len() implies #[trigger] s[pos + k] == w[k] by {
        assert(s.subrange(pos, pos + w.len())[k] == s[pos + k]);
    }
}

/// What `find_crlf` finding (or not finding) a pair means.
pub proof fn lemma_find_crlf_props(s: Seq<u8>, pos: int)
    requires
        0 <= pos,
    ensures
        match find_crlf(s, pos) {
            Option::Some(i) => pos <= i && i + 1 < s.len() && s[i] == 13 && s[i + 1] == 10
                && forall|j: int| pos <= j < i ==> !(#[trigger] s[j] == 13 && s[j + 1] == 10),
            Option::None => forall|j: int|
                pos <= j && j + 1 < s.len() ==> !(#[trigger] s[j] == 13 && s[j + 1] == 10),
        },
    decreases s.len() - pos,
{
    if pos + 1 >= s.len() {
    } else if s[pos] == 13 && s[pos + 1] == 10 {
    } else {
        lemma_find_crlf_props(s, pos + 1);
    }
}

/// If the window at `pos` is a `\r\n`-free line followed by `\r\n`,
/// the first pair found from `pos` is exactly the one after the line.
pub proof fn lemma_find_crlf_at(s: Seq<u8>, pos: int, line: Seq<u8>)
    requires
        0 <= pos,
        pos + line.len() + 2 <= s.len(),
        crlf_free(line),
        forall|k: int| 0 <= k < line.len() ==> #[trigger] s[pos + k] == line[k],
        s[pos + line.len()] == 13,
        s[pos + line.len() + 1] == 10,
    ensures
        find_crlf(s, pos) == Option::Some(pos + line.len()),
    decreases line.len(),
{
    if line.len() == 0 {
        assert(s[pos] == 13 && s[pos + 1] == 10);
    } else {
        // the pair starting at `pos` is not `\r\n`
        assert(s[pos + 0] == line[0]);
        if line.len() >= 2 {
            assert(s[pos + 1] == line[1]);
            assert(!(line[0] == 13 && line[1] == 10));
        } else {
            assert(s[pos + 1] == 13);
        }
        let tail = line.drop_first();
        assert(crlf_free(tail)) by {
            assert forall|i: int| 0 <= i && i + 1 < tail.len() implies !(#[trigger] tail[i]
                == 13 && tail[i + 1] == 10) by {
                assert(tail[i] == line[i + 1]);
                assert(tail[i + 1] == line[i + 2]);
            }
        }
        assert forall|k: int| 0 <= k < tail.len() implies #[trigger] s[(pos + 1) + k]
            == tail[k] by {
            assert(s[pos + (1 + k)] == line[1 + k]);
        }
        assert(s[(pos + 1) + tail.len()] == 13) by {
            assert(pos + 1 + tail.len() == pos + line.len());
        }
        assert(s[(pos + 1) + tail.len() + 1] == 10);
        lemma_find_crlf_at(s, pos + 1, tail);
        assert(!(s[pos] == 13 && s[pos + 1] == 10));
    }
}

/// The corresponding statement for `spec_line`.
pub proof fn lemma_spec_line_at(s: Seq<u8>, pos: int, line: Seq<u8>)
    requires
        0 <= pos,
        pos + line.len() + 2 <= s.len(),
        crlf_free(line),
        forall|k: int| 0 <= k < line.len() ==> #[trigger] s[pos + k] == line[k],
        s[pos + line.len()] == 13,
        s[pos + line.len() + 1] == 10,
    ensures
        spec_line(s, pos) == Option::Some((line, pos + line.len() + 2)),
{
    lemma_find_crlf_at(s, pos, line);
    assert forall|k: int| 0 <= k < line.len() implies s.subrange(pos, pos + line.len())[k]
        == line[k] by {
        assert(s[pos + k] == line[k]);
    }
    assert(s.subrange(pos, pos + line.len()) =~= line);
}

/// Digit strings contain no control bytes: no `\r\n` pair and no '-'.
pub proof fn lemma_digits_plain(w: Seq<u8>)
    requires
        forall|i: int| 0 <= i < w.len() ==> is_digit(#[trigger] w[i]),
    ensures
        crlf_free(w),
        w.len() > 0 ==> w[0] != 45,
{
}

// ---------------------------------------------------------------------
// Lemmas: decoder bounds
// ---------------------------------------------------------------------

/// A found frame ends strictly after it starts and within the buffer.
pub proof fn lemma_dec_frame_bounds(s: Seq<u8>, pos: int)
    requires
        0 <= pos <= s.len(),
    ensures
        dec_frame(s, pos) matches DecodeStep::Found(_, np) ==> pos < np <= s.len(),
    decreases s.len() - pos, 0int, 0int,
{
    if pos < s.len() {
        let t = s[pos];
        let p1 = pos + 1;
        lemma_find_crlf_props(s, p1);
        if t == 42 {
            match spec_line(s, p1) {
                Option::Some((line, np)) => match dec_u64(line) {
                    Option::Some(v) => {
                        if pos < np <= s.len() {
                            lemma_dec_elems_bounds(s, np, v as nat);
                        }
                    },
                    Option::None => {},
                },
                Option::None => {},
            }
        }
    }
}

/// A found run of `n` frames ends within the buffer and has `n` items.
pub proof fn lemma_dec_elems_bounds(s: Seq<u8>, pos: int, n: nat)
    requires
        0 <= pos <= s.len(),
    ensures
        dec_elems(s, pos, n) matches ElemsStep::Found(items, fp) ==> pos <= fp <= s.len()
            && items.len() == n,
    decreases s.len() - pos, 1int, n,
{
    if n > 0 {
        lemma_dec_frame_bounds(s, pos);
        match dec_frame(s, pos) {
            DecodeStep::Found(f, np) => {
                lemma_dec_elems_bounds(s, np, (n - 1) as nat);
            },
            _ => {},
        }
    }
}

// ---------------------------------------------------------------------
// Round trip: decoding an encoding yields the frame that was encoded
// ---------------------------------------------------------------------

/// Round trip for one non-array frame whose encoding sits at `pos`.
pub proof fn lemma_enc_value_round_trip(s: Seq<u8>, pos: int, f: FrameV)
    requires
        0 <= pos,
        encodable_value(f),
        pos + enc_value(f).len() <= s.len(),
        s.subrange(pos, pos + enc_value(f).len()) =~= enc_value(f),
    ensures
        dec_frame(s, pos) == DecodeStep::Found(f, pos + enc_value(f).len()),
{
    let ev = enc_value(f);
    lemma_seq_at(s, pos, ev);
    match f {
        FrameV::Simple(txt) => {
            let n = txt.len() as int;
            assert(s[pos + 0] == ev[0]);
            assert forall|k: int| 0 <= k < n implies #[trigger] s[(pos + 1) + k] == txt[k] by {
                assert(s[pos + (1 + k)] == ev[1 + k]);
            }
            assert(s[(pos + 1) + n] == 13) by {
                assert(s[pos + (1 + n)] == ev[1 + n]);
            }
            assert(s[(pos + 1) + n + 1] == 10) by {
                assert(s[pos + (2 + n)] == ev[2 + n]);
            }
            lemma_spec_line_at(s, pos + 1, txt);
        },
        FrameV::Error(txt) => {
            let n = txt.len() as int;
            assert(s[pos + 0] == ev[0]);
            assert forall|k: int| 0 <= k < n implies #[trigger] s[(pos + 1) + k] == txt[k] by {
                assert(s[pos + (1 + k)] == ev[1 + k]);
            }
            assert(s[(pos + 1) + n] == 13) by {
                assert(s[pos + (1 + n)] == ev[1 + n]);
            }
            assert(s[(pos + 1) + n + 1] == 10) by {
                assert(s[pos + (2 + n)] == ev[2 + n]);
            }
            lemma_spec_line_at(s, pos + 1, txt);
        },
        FrameV::Integer(v) => {
            let dd = dec_digits(v as nat);
            let n = dd.len() as int;
            lemma_dec_digits_are_digits(v as nat);
            lemma_digits_plain(dd);
            assert(s[pos + 0] == ev[0]);
            assert forall|k: int| 0 <= k < n implies #[trigger] s[(pos + 1) + k] == dd[k] by {
                assert(s[pos + (1 + k)] == ev[1 + k]);
            }
            assert(s[(pos + 1) + n] == 13) by {
                assert(s[pos + (1 + n)] == ev[1 + n]);
            }
            assert(s[(pos + 1) + n + 1] == 10) by {
                assert(s[pos + (2 + n)] == ev[2 + n]);
            }
            lemma_spec_line_at(s, pos + 1, dd);
            lemma_dec_u64_of_dec_digits(v);
        },
        FrameV::Null => {
            assert(s[pos + 0] == ev[0]);
            assert(s[pos + 1] == 45) by {
                assert(s[pos + 1] == ev[1]);
            }
            let w = s.subrange(pos + 1, pos + 1 + 4);
            assert forall|j: int| 0 <= j < 4 implies #[trigger] w[j] == seq![
                45u8,
                49u8,
                13u8,
                10u8,
            ][j] by {
                assert(w[j] == s[(pos + 1) + j]);
                assert(s[pos + (1 + j)] == ev[1 + j]);
            }
            assert(w =~= seq![45u8, 49u8, 13u8, 10u8]);
        },
        FrameV::Bulk(b) => {
            let n = b.len() as int;
            let dd = dec_digits(b.len());
            let m = dd.len() as int;
            lemma_dec_digits_are_digits(b.len());
            lemma_digits_plain(dd);
            assert(s[pos + 0] == ev[0]);
            assert(s[pos + 1] == dd[0]) by {
                assert(s[pos + 1] == ev[1]);
            }
            assert(s[pos + 1] != 45);
            assert forall|k: int| 0 <= k < m implies #[trigger] s[(pos + 1) + k] == dd[k] by {
                assert(s[pos + (1 + k)] == ev[1 + k]);
            }
            assert(s[(pos + 1) + m] == 13) by {
                assert(s[pos + (1 + m)] == ev[1 + m]);
            }
            assert(s[(pos + 1) + m + 1] == 10) by {
                assert(s[pos + (2 + m)] == ev[2 + m]);
            }
            lemma_spec_line_at(s, pos + 1, dd);
            assert(dec_u64(dd) == Option::Some(b.len() as u64)) by {
                lemma_dec_u64_of_dec_digits(b.len() as u64);
            }
            let np = pos + 1 + m + 2;
            assert(np + n + 2 <= s.len());
            let w = s.subrange(np, np + n);
            assert forall|j: int| 0 <= j < n implies #[trigger] w[j] == b[j] by {
                assert(w[j] == s[np + j]);
                assert(s[pos + (3 + m + j)] == ev[3 + m + j]);
                assert(ev[3 + m + j] == b[j]);
            }
            assert(w =~= b);
        },
        FrameV::Array(_) => {},
    }
}

/// Round trip for a run of non-array frames encoded back to back.
pub proof fn lemma_enc_items_round_trip(s: Seq<u8>, pos: int, items: Seq<FrameV>)
    requires
        0 <= pos,
        forall|i: int| 0 <= i < items.len() ==> encodable_value(#[trigger] items[i]),
        pos + enc_items(items).len() <= s.len(),
        s.subrange(pos, pos + enc_items(items).len()) =~= enc_items(items),
    ensures
        dec_elems(s, pos, items.len()) == ElemsStep::Found(items, pos + enc_items(items).len()),
    decreases items.len(),
{
    lemma_seq_at(s, pos, enc_items(items));
    if items.len() == 0 {
        assert(dec_elems(s, pos, 0) == ElemsStep::Found(Seq::<FrameV>::empty(), pos));
        assert(items =~= Seq::<FrameV>::empty());
    } else {
        let f0 = items[0];
        let rest = items.drop_first();
        let ev = enc_value(f0);
        let er = enc_items(rest);
        assert(enc_items(items) == ev + er);
        // the head's encoding sits at `pos`
        assert forall|k: int| 0 <= k < ev.len() implies s.subrange(pos, pos + ev.len())[k]
            == ev[k] by {
            assert(s[pos + k] == (ev + er)[k]);
            assert(s.subrange(pos, pos + ev.len())[k] == s[pos + k]);
        }
        assert(s.subrange(pos, pos + ev.len()) =~= ev);
        lemma_enc_value_round_trip(s, pos, f0);
        let np = pos + ev.len();
        // the tail's encoding sits at `np`
        assert forall|k: int| 0 <= k < er.len() implies s.subrange(np, np + er.len())[k]
            == er[k] by {
            assert(s[pos + (ev.len() + k)] == (ev + er)[ev.len() + k]);
            assert(s.subrange(np, np + er.len())[k] == s[np + k]);
        }
        assert(s.subrange(np, np + er.len()) =~= er);
        assert forall|i: int| 0 <= i < rest.len() implies encodable_value(
            #[trigger] rest[i],
        ) by {
            assert(rest[i] == items[i + 1]);
        }
        lemma_enc_items_round_trip(s, np, rest);
        assert(seq![f0] + rest =~= items);
        assert(dec_elems(s, pos, items.len()) == ElemsStep::Found(
            seq![f0] + rest,
            np + er.len(),
        ));
    }
}

/// Decoding any encoder output, wherever it sits in a larger buffer,
/// yields exactly the frame that was encoded and consumes exactly its
/// bytes.
pub proof fn lemma_enc_round_trip(s: Seq<u8>, pos: int, f: FrameV)
    requires
        0 <= pos,
        encodable(f),
        pos + enc_frame(f).len() <= s.len(),
        s.subrange(pos, pos + enc_frame(f).len()) =~= enc_frame(f),
    ensures
        dec_frame(s, pos) == DecodeStep::Found(f, pos + enc_frame(f).len()),
{
    let ef = enc_frame(f);
    lemma_seq_at(s, pos, ef);
    match f {
        FrameV::Array(items) => {
            let dd = dec_digits(items.len());
            let m = dd.len() as int;
            let ei = enc_items(items);
            lemma_dec_digits_are_digits(items.len());
            lemma_digits_plain(dd);
            assert(s[pos + 0] == ef[0]);
            assert forall|k: int| 0 <= k < m implies #[trigger] s[(pos + 1) + k] == dd[k] by {
                assert(s[pos + (1 + k)] == ef[1 + k]);
            }
            assert(s[(pos + 1) + m] == 13) by {
                assert(s[pos + (1 + m)] == ef[1 + m]);
            }
            assert(s[(pos + 1) + m + 1] == 10) by {
                assert(s[pos + (2 + m)] == ef[2 + m]);
            }
            lemma_spec_line_at(s, pos + 1, dd);
            assert(dec_u64(dd) == Option::Some(items.len() as u64)) by {
                lemma_dec_u64_of_dec_digits(items.len() as u64);
            }
            let np = pos + 1 + m + 2;
            assert forall|k: int| 0 <= k < ei.len() implies s.subrange(np, np + ei.len())[k]
                == ei[k] by {
                assert(s[pos + (3 + m + k)] == ef[3 + m + k]);
                assert(ef[3 + m + k] == ei[k]);
                assert(s.subrange(np, np + ei.len())[k] == s[np + k]);
            }
            assert(s.subrange(np, np + ei.len()) =~= ei);
            lemma_enc_items_round_trip(s, np, items);
        },
        _ => {
            lemma_enc_value_round_trip(s, pos, f);
        },
    }
}

/// The round-trip law in its plainest form: for any frame the encoder
/// accepts, decoding the encoder's output (followed by anything at
/// all) yields an equal frame and stops exactly at its end.
pub proof fn lemma_round_trip(f: FrameV, rest: Seq<u8>)
    requires
        encodable(f),
    ensures
        dec_frame(enc_frame(f) + rest, 0) == DecodeStep::Found(f, enc_frame(f).len() as int),
{
    let s = enc_frame(f) + rest;
    assert(s.subrange(0, enc_frame(f).len() as int) =~= enc_frame(f));
    lemma_enc_round_trip(s, 0, f);
}

// ---------------------------------------------------------------------
// Lemmas: digit runs and values, for the executable reader
// ---------------------------------------------------------------------

/// `leading_digits` is the exact length of the digit run at the front.
pub proof fn lemma_leading_digits_at(w: Seq<u8>, k: int)
    requires
        0 <= k <= w.len(),
        forall|j: int| 0 <= j < k ==> is_digit(#[trigger] w[j]),
        k < w.len() ==> !is_digit(w[k]),
    ensures
        leading_digits(w) == k,
    decreases w.len(),
{
    if w.len() == 0 {
    } else if k == 0 {
    } else {
        let tail = w.drop_first();
        assert forall|j: int| 0 <= j < k - 1 implies is_digit(#[trigger] tail[j]) by {
            assert(tail[j] == w[j + 1]);
        }
        assert(k - 1 < tail.len() ==> !is_digit(tail[k - 1]));
        lemma_leading_digits_at(tail, k - 1);
    }
}

/// Extending a digit string never shrinks its value.
pub proof fn lemma_digits_val_mono(w: Seq<u8>, j: int, k: int)
    requires
        0 <= j <= k <= w.len(),
        forall|i: int| 0 <= i < k ==> is_digit(#[trigger] w[i]),
    ensures
        digits_val(w.take(j)) <= digits_val(w.take(k)),
    decreases k - j,
{
    if j < k {
        lemma_digits_val_mono(w, j, k - 1);
        let a = w.take(k - 1);
        let b = w.take(k);
        assert(b.drop_last() =~= a);
        assert(is_digit(w[k - 1]));
        assert(b.last() == w[k - 1]);
        assert(digits_val(b) == (digits_val(a) * 10 + (b.last() - 48)) as nat);
        assert(digits_val(a) * 10 >= digits_val(a)) by {
            assert(digits_val(a) * 10 == digits_val(a) + digits_val(a) * 9) by (nonlinear_arith);
        }
    }
}

// ---------------------------------------------------------------------
// The executable reader: cursor helpers over the raw buffer
// ---------------------------------------------------------------------

/// Bytes of the message `protocol error`, for the invalid-frame error.
fn protocol_error() -> Vec<u8> {
    let v: Vec<u8> = vec![112u8, 114u8, 111u8, 116u8, 111u8, 99u8, 111u8, 108u8, 32u8, 101u8,
        114u8, 114u8, 111u8, 114u8];
    v
}

/// The byte at the cursor, without advancing.
pub fn peek_u8(src: &Vec<u8>, pos: usize) -> (r: Result<u8, FrameError>)
    requires
        pos <= src@.len(),
    ensures
        match r {
            Ok(b) => pos < src@.len() && b == src@[pos as int],
            Err(e) => pos == src@.len() && e is Incomplete,
        },
{
    if pos < src.len() {
        Ok(src[pos])
    } else {
        Err(FrameError::Incomplete)
    }
}

/// The byte at the cursor, advancing past it.
pub fn get_u8(src: &Vec<u8>, pos: usize) -> (r: Result<(u8, usize), FrameError>)
    requires
        pos <= src@.len(),
    ensures
        match r {
            Ok(bp) => pos < src@.len() && bp.0 == src@[pos as int] && bp.1 == pos + 1,
            Err(e) => pos == src@.len() && e is Incomplete,
        },
{
    if pos < src.len() {
        Ok((src[pos], pos + 1))
    } else {
        Err(FrameError::Incomplete)
    }
}

/// Advance the cursor by `n` bytes.
pub fn skip(src: &Vec<u8>, pos: usize, n: usize) -> (r: Result<usize, FrameError>)
    requires
        pos <= src@.len(),
    ensures
        match r {
            Ok(np) => pos + n <= src@.len() && np == pos + n,
            Err(e) => pos + n > src@.len() && e is Incomplete,
        },
{
    if src.len() - pos >= n {
        Ok(pos + n)
    } else {
        Err(FrameError::Incomplete)
    }
}

/// Find the line starting at the cursor: returns the index of its
/// terminating `\r\n` and the position just past it.
pub fn get_line(src: &Vec<u8>, pos: usize) -> (r: Result<(usize, usize), FrameError>)
    requires
        pos <= src@.len(),
    ensures
        match r {
            Ok(ep) => find_crlf(src@, pos as int) == Option::Some(ep.0 as int) && ep.1 == ep.0
                + 2 && pos <= ep.0 && ep.1 <= src@.len(),
            Err(e) => find_crlf(src@, pos as int) is None && e is Incomplete,
        },
{
    let mut i = pos;
    while i < src.len() && i + 1 < src.len()
        invariant
            pos <= i <= src@.len(),
            find_crlf(src@, pos as int) == find_crlf(src@, i as int),
        decreases src@.len() - i,
    {
        if src[i] == 13 && src[i + 1] == 10 {
            return Ok((i, i + 2));
        }
        i = i + 1;
    }
    Err(FrameError::Incomplete)
}

/// The decimal reading of the byte range `[start, end)`, as `dec_u64`
/// describes it: value of the maximal digit prefix, if it fits.
fn parse_u64_range(src: &Vec<u8>, start: usize, end: usize) -> (r: Option<u64>)
    requires
        start <= end <= src@.len(),
    ensures
        r == dec_u64(src@.subrange(start as int, end as int)),
{
    let ghost line = src@.subrange(start as int, end as int);
    // length of the digit run
    let mut k = start;
    while k < end
        invariant
            start <= k <= end <= src@.len(),
            forall|j: int| start <= j < k ==> is_digit(#[trigger] src@[j]),
        ensures
            start <= k <= end,
            forall|j: int| start <= j < k ==> is_digit(#[trigger] src@[j]),
            k < end ==> !is_digit(src@[k as int]),
        decreases end - k,
    {
        let b = src[k];
        if 48 <= b && b <= 57 {
            k = k + 1;
        } else {
            break;
        }
    }
    proof {
        assert forall|j: int| 0 <= j < k - start implies is_digit(#[trigger] line[j]) by {
            assert(line[j] == src@[start + j]);
        }
        assert((k - start) < line.len() ==> !is_digit(line[k - start])) by {
            if (k - start) < line.len() {
                assert(line[k - start] == src@[k as int]);
            }
        }
        lemma_leading_digits_at(line, k - start as int);
    }
    if k == start {
        return Option::None;
    }
    // accumulate the value, watching for overflow
    let mut acc: u64 = 0;
    let mut j = start;
    while j < k
        invariant
            start <= j <= k <= end <= src@.len(),
            start < k,
            line == src@.subrange(start as int, end as int),
            leading_digits(line) == k - start,
            forall|jj: int| start <= jj < k ==> is_digit(#[trigger] src@[jj]),
            acc == digits_val(line.take(j - start)),
        decreases k - j,
    {
        let b = src[j];
        let d: u64 = (b - 48) as u64;
        proof {
            assert(line[j - start] == src@[j as int]);
            assert(line.take(j - start + 1).drop_last() =~= line.take(j - start));
            assert(line.take(j - start + 1).last() == src@[j as int]);
        }
        if acc > (u64::MAX - d) / 10 {
            proof {
                let q = ((u64::MAX - d) / 10) as int;
                assert(q * 10 + 10 > u64::MAX - d) by {
                    vstd::arithmetic::div_mod::lemma_fundamental_div_mod(
                        u64::MAX - d,
                        10,
                    );
                }
                assert(acc * 10 >= (q + 1) * 10) by (nonlinear_arith)
                    requires
                        acc >= q + 1,
                ;
                assert((q + 1) * 10 == q * 10 + 10) by (nonlinear_arith);
                assert(digits_val(line.take(j - start + 1)) == (acc * 10 + d) as nat);
                assert(digits_val(line.take(j - start + 1)) > u64::MAX);
                lemma_digits_val_mono(line, j - start + 1, k - start as int);
                assert(digits_val(line.take(k - start)) > u64::MAX);
            }
            return Option::None;
        }
        proof {
            let q = ((u64::MAX - d) / 10) as int;
            assert(q * 10 <= u64::MAX - d) by {
                vstd::arithmetic::div_mod::lemma_fundamental_div_mod(u64::MAX - d, 10);
            }
            assert(acc * 10 <= q * 10) by (nonlinear_arith)
                requires
                    0 <= acc <= q,
            ;
        }
        acc = acc * 10 + d;
        j = j + 1;
    }
    proof {
        assert(line.take(k - start) == line.take(leading_digits(line)));
    }
    Option::Some(acc)
}

/// The decimal reading of a whole byte string.
pub fn parse_decimal(v: &Vec<u8>) -> (r: Option<u64>)
    ensures
        r == dec_u64(v@),
{
    let r = parse_u64_range(v, 0, v.len());
    proof {
        assert(v@.subrange(0, v@.len() as int) =~= v@);
    }
    r
}

/// Read a whole line and its decimal value.
pub fn get_decimal(src: &Vec<u8>, pos: usize) -> (r: Result<(u64, usize), FrameError>)
    requires
        pos <= src@.len(),
    ensures
        match r {
            Ok(vp) => spec_line(src@, pos as int) matches Option::Some(lp) && vp.1 == lp.1
                && dec_u64(lp.0) == Option::Some(vp.0) && pos < vp.1 <= src@.len(),
            Err(e) => match e {
                FrameError::Incomplete => spec_line(src@, pos as int) is None,
                FrameError::Other(_) => spec_line(src@, pos as int) matches Option::Some(lp)
                    && dec_u64(lp.0) is None,
            },
        },
{
    match get_line(src, pos) {
        Ok((end, np)) => {
            match parse_u64_range(src, pos, end) {
                Option::Some(v) => Ok((v, np)),
                Option::None => Err(FrameError::Other(protocol_error())),
            }
        },
        Err(e) => Err(FrameError::Incomplete),
    }
}

/// Same classification and same end position; the frames themselves
/// may be ignored (the checking pass never materializes them).
pub open spec fn elems_agree(a: ElemsStep, b: ElemsStep) -> bool {
    match (a, b) {
        (ElemsStep::Found(_, pa), ElemsStep::Found(_, pb)) => pa == pb,
        (ElemsStep::Incomplete, ElemsStep::Incomplete) => true,
        (ElemsStep::Invalid, ElemsStep::Invalid) => true,
        _ => false,
    }
}

impl Frame {
    /// First decoder pass: walk the buffer from `pos`, validate that a
    /// whole frame is present, and return the position just past it.
    /// Nothing is allocated for frame contents.
    #[verifier::loop_isolation(false)]
    pub fn check(src: &Vec<u8>, pos: usize) -> (r: Result<usize, FrameError>)
        requires
            pos <= src@.len(),
        ensures
            match r {
                Ok(np) => dec_frame(src@, pos as int) matches DecodeStep::Found(_, p) && np
                    as int == p && np <= src@.len(),
                Err(e) => match e {
                    FrameError::Incomplete => dec_frame(src@, pos as int) is Incomplete,
                    FrameError::Other(_) => dec_frame(src@, pos as int) is Invalid,
                },
            },
        decreases src@.len() - pos,
    {
        let (t, p1) = match get_u8(src, pos) {
            Ok(x) => x,
            Err(e) => {
                return Err(e);
            },
        };
        if t == 43 || t == 45 {
            match get_line(src, p1) {
                Ok((_end, np)) => Ok(np),
                Err(e) => Err(e),
            }
        } else if t == 58 {
            match get_decimal(src, p1) {
                Ok((_v, np)) => Ok(np),
                Err(e) => Err(e),
            }
        } else if t == 36 {
            match peek_u8(src, p1) {
                Err(e) => Err(e),
                Ok(b) => {
                    if b == 45 {
                        if src.len() - p1 < 4 {
                            Err(FrameError::Incomplete)
                        } else {
                            proof {
                                let w = src@.subrange(p1 as int, p1 as int + 4);
                                assert(w[0] == src@[p1 as int]);
                                assert(w[1] == src@[p1 + 1]);
                                assert(w[2] == src@[p1 + 2]);
                                assert(w[3] == src@[p1 + 3]);
                            }
                            if src[p1 + 1] == 49 && src[p1 + 2] == 13 && src[p1 + 3] == 10 {
                                proof {
                                    assert(src@.subrange(p1 as int, p1 as int + 4) =~= seq![
                                        45u8,
                                        49u8,
                                        13u8,
                                        10u8,
                                    ]);
                                }
                                Ok(p1 + 4)
                            } else {
                                Err(FrameError::Other(protocol_error()))
                            }
                        }
                    } else {
                        match get_decimal(src, p1) {
                            Ok((v, np)) => {
                                let rem = src.len() - np;
                                if rem < 2 {
                                    Err(FrameError::Incomplete)
                                } else if ((rem - 2) as u64) < v {
                                    Err(FrameError::Incomplete)
                                } else {
                                    Ok(np + (v as usize) + 2)
                                }
                            },
                            Err(e) => Err(e),
                        }
                    }
                },
            }
        } else if t == 42 {
            match get_decimal(src, p1) {
                Err(e) => Err(e),
                Ok((n, np)) => {
                    let ghost s = src@;
                    let mut cur = np;
                    let mut i: u64 = 0;
                    while i < n
                        invariant
                            pos <= src@.len(),
                            i <= n,
                            pos < np <= cur <= src@.len(),
                            s == src@,
                            elems_agree(
                                dec_elems(s, np as int, n as nat),
                                dec_elems(s, cur as int, (n - i) as nat),
                            ),
                        decreases n - i,
                    {
                        match Self::check(src, cur) {
                            Ok(np2) => {
                                proof {
                                    lemma_dec_frame_bounds(s, cur as int);
                                }
                                cur = np2;
                                i = i + 1;
                            },
                            Err(e) => {
                                return Err(e);
                            },
                        }
                    }
                    proof {
                        assert(dec_elems(s, cur as int, (n - i) as nat) == ElemsStep::Found(
                            Seq::<FrameV>::empty(),
                            cur as int,
                        ));
                    }
                    Ok(cur)
                },
            }
        } else {
            Err(FrameError::Other(protocol_error()))
        }
    }
}

/// Copy the byte range `[a, b)` of `src` into a fresh vector.
#[verifier::loop_isolation(false)]
pub fn copy_range(src: &Vec<u8>, a: usize, b: usize) -> (v: Vec<u8>)
    requires
        a <= b <= src@.len(),
    ensures
        v@ == src@.subrange(a as int, b as int),
{
    let mut v: Vec<u8> = Vec::new();
    let mut i = a;
    while i < b
        invariant
            a <= i <= b,
            v@ == src@.subrange(a as int, i as int),
        decreases b - i,
    {
        v.push(src[i]);
        i = i + 1;
        proof {
            assert(v@ =~= src@.subrange(a as int, i as int));
        }
    }
    v
}

impl Frame {
    /// Second decoder pass: materialize the frame that `check` has
    /// already validated, and return the position just past it.
    #[verifier::loop_isolation(false)]
    pub fn parse(src: &Vec<u8>, pos: usize) -> (r: (Frame, usize))
        requires
            pos <= src@.len(),
            dec_frame(src@, pos as int) is Found,
        ensures
            dec_frame(src@, pos as int) matches DecodeStep::Found(f, np) ==> r.0@ == f && r.1
                as int == np && r.1 <= src@.len(),
        decreases src@.len() - pos,
    {
        let ghost s = src@;
        proof {
            lemma_dec_frame_bounds(s, pos as int);
        }
        let (t, p1) = match get_u8(src, pos) {
            Ok(x) => x,
            Err(_) => {
                return vstd::pervasive::unreached();
            },
        };
        if t == 43 {
            match get_line(src, p1) {
                Ok((end, np)) => {
                    let v = copy_range(src, p1, end);
                    (Frame::Simple(v), np)
                },
                Err(_) => vstd::pervasive::unreached(),
            }
        } else if t == 45 {
            match get_line(src, p1) {
                Ok((end, np)) => {
                    let v = copy_range(src, p1, end);
                    (Frame::Error(v), np)
                },
                Err(_) => vstd::pervasive::unreached(),
            }
        } else if t == 58 {
            match get_decimal(src, p1) {
                Ok((v, np)) => (Frame::Integer(v), np),
                Err(_) => vstd::pervasive::unreached(),
            }
        } else if t == 36 {
            match peek_u8(src, p1) {
                Ok(b) => {
                    if b == 45 {
                        proof {
                            if p1 + 4 > s.len() {
                                assert(pos < s.len() && s[pos as int] == 36);
                                assert(p1 < s.len() && s[p1 as int] == 45);
                                assert(dec_frame(s, pos as int) is Incomplete);
                                assert(false);
                            }
                            assert(src.len() == src@.len());
                            assert(p1 + 4 <= s.len());
                        }
                        (Frame::Null, p1 + 4)
                    } else {
                        match get_decimal(src, p1) {
                            Ok((v, np)) => {
                                proof {
                                    if np + v + 2 > s.len() {
                                        assert(dec_frame(s, pos as int) is Incomplete);
                                    }
                                    assert(src.len() == src@.len());
                                    assert(np + v + 2 <= s.len());
                                }
                                let n = v as usize;
                                let bytes = copy_range(src, np, np + n);
                                (Frame::Bulk(bytes), np + n + 2)
                            },
                            Err(_) => vstd::pervasive::unreached(),
                        }
                    }
                },
                Err(_) => vstd::pervasive::unreached(),
            }
        } else if t == 42 {
            match get_decimal(src, p1) {
                Ok((n64, np)) => {
                    let ghost step = dec_elems(s, np as int, n64 as nat);
                    let ghost fitems = step->Found_0;
                    let ghost fpos = step->Found_1;
                    proof {
                        lemma_dec_elems_bounds(s, np as int, n64 as nat);
                        assert(step is Found);
                        assert(fitems.skip(0) =~= fitems);
                    }
                    let mut items: Vec<Frame> = Vec::new();
                    let mut cur = np;
                    let mut i: u64 = 0;
                    while i < n64
                        invariant
                            i <= n64,
                            np <= cur <= src@.len(),
                            items@.len() == i,
                            dec_elems(s, cur as int, (n64 - i) as nat) == ElemsStep::Found(
                                fitems.skip(i as int),
                                fpos,
                            ),
                            forall|j: int| 0 <= j < i ==> items@[j]@ == fitems[j],
                        decreases n64 - i,
                    {
                        let (fr, np2) = Self::parse(src, cur);
                        proof {
                            lemma_dec_frame_bounds(s, cur as int);
                            assert(dec_elems(s, np2 as int, (n64 - i - 1) as nat) is Found);
                            let rest = dec_elems(s, np2 as int, (n64 - i - 1) as nat)->Found_0;
                            assert(seq![fr@] + rest == fitems.skip(i as int));
                            assert((seq![fr@] + rest).drop_first() =~= rest);
                            assert(fitems.skip(i as int).drop_first() =~= fitems.skip(
                                i as int + 1,
                            ));
                            assert(fr@ == (seq![fr@] + rest)[0]);
                        }
                        items.push(fr);
                        cur = np2;
                        i = i + 1;
                    }
                    proof {
                        assert(dec_elems(s, cur as int, 0) == ElemsStep::Found(
                            Seq::<FrameV>::empty(),
                            cur as int,
                        ));
                        assert(cur as int == fpos);
                        assert(frames_view(items) =~= fitems);
                    }
                    (Frame::Array(items), cur)
                },
                Err(_) => vstd::pervasive::unreached(),
            }
        } else {
            vstd::pervasive::unreached()
        }
    }

    /// An empty array frame, ready to be extended.
    pub fn array() -> (f: Frame)
        ensures
            f@ == FrameV::Array(Seq::<FrameV>::empty()),
    {
        let v: Vec<Frame> = Vec::new();
        proof {
            assert(frames_view(v) =~= Seq::<FrameV>::empty());
        }
        Frame::Array(v)
    }

    /// Append a bulk frame to an array frame.
    pub fn push_bulk(self, bytes: Vec<u8>) -> (r: Frame)
        requires
            self@ is Array,
        ensures
            r@ == FrameV::Array(self@->Array_0.push(FrameV::Bulk(bytes@))),
    {
        let ghost before = self@->Array_0;
        let ghost bv = bytes@;
        match self {
            Frame::Array(mut vec) => {
                let ghost vold = vec@;
                proof {
                    assert(before == frames_view(vec));
                }
                vec.push(Frame::Bulk(bytes));
                proof {
                    assert forall|j: int| 0 <= j < before.len() + 1 implies frames_view(vec)[j]
                        == before.push(FrameV::Bulk(bv))[j] by {
                        if j < before.len() {
                            assert(vec@[j] == vold[j]);
                        } else {
                            assert(vec@[j] == Frame::Bulk(bytes));
                        }
                    }
                    assert(frames_view(vec) =~= before.push(FrameV::Bulk(bv)));
                }
                Frame::Array(vec)
            },
            _ => vstd::pervasive::unreached(),
        }
    }

    /// Append an integer frame to an array frame.
    pub fn push_int(self, value: u64) -> (r: Frame)
        requires
            self@ is Array,
        ensures
            r@ == FrameV::Array(self@->Array_0.push(FrameV::Integer(value))),
    {
        let ghost before = self@->Array_0;
        match self {
            Frame::Array(mut vec) => {
                let ghost vold = vec@;
                proof {
                    assert(before == frames_view(vec));
                }
                vec.push(Frame::Integer(value));
                proof {
                    assert forall|j: int| 0 <= j < before.len() + 1 implies frames_view(vec)[j]
                        == before.push(FrameV::Integer(value))[j] by {
                        if j < before.len() {
                            assert(vec@[j] == vold[j]);
                        } else {
                            assert(vec@[j] == Frame::Integer(value));
                        }
                    }
                    assert(frames_view(vec) =~= before.push(FrameV::Integer(value)));
                }
                Frame::Array(vec)
            },
            _ => vstd::pervasive::unreached(),
        }
    }
}

} // verus!
