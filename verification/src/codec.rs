//! The binary codec adapter: the string is encoded as a two-byte length field
//! followed by exactly that many content bytes, the same wire form `oct`
//! gives to string slices.  Decoding reads the length, checks it against the
//! capacity, reads the content and validates it as UTF-8.

use crate::error::{LengthError, Utf8Error};
use crate::string::String;
use crate::utf8::validate_utf8;
use vstd::prelude::*;
use vstd::utf8::valid_utf8;

verus! {

#[verifier::external_type_specification]
#[verifier::external_body]
pub struct ExInput<'a>(oct::decode::Input<'a>);

#[verifier::external_type_specification]
#[verifier::external_body]
pub struct ExOutput<'a>(oct::encode::Output<'a>);

/// The bytes that an input stream was created over.
pub uninterp spec fn input_data(input: oct::decode::Input) -> Seq<u8>;

/// The cursor position of an input stream: how many bytes have been read.
pub uninterp spec fn input_pos(input: oct::decode::Input) -> int;

/// The bytes written to an output stream so far.
pub uninterp spec fn output_data(output: oct::encode::Output) -> Seq<u8>;

/// The fixed capacity of an output stream.
pub uninterp spec fn output_cap(output: oct::encode::Output) -> int;

/// A sequence of `n` zero bytes.
pub open spec fn zero_bytes(n: int) -> Seq<u8> {
    Seq::new(n as nat, |q: int| 0u8)
}

/// The length that a two-byte little-endian length field at `pos` denotes.
pub open spec fn wire_len(data: Seq<u8>, pos: int) -> int {
    data[pos] + 0x100 * data[pos + 1]
}

/// The content that decoding finds at `pos`: the bytes after the length
/// field when the stream holds enough of them, else as many zero bytes as
/// the length field announces, mirroring an unchecked read from a short
/// stream.
pub open spec fn decoded_content(data: Seq<u8>, pos: int) -> Seq<u8> {
    let l = wire_len(data, pos);
    if pos + 2 + l <= data.len() {
        data.subrange(pos + 2, pos + 2 + l)
    } else {
        zero_bytes(l)
    }
}

/// The wire form of a piece of content: its length as two little-endian
/// bytes, then the content itself.
pub open spec fn wire_encoding(content: Seq<u8>) -> Seq<u8>
    recommends
        content.len() <= 0xFFFF,
{
    seq![(content.len() % 0x100) as u8, ((content.len() / 0x100) % 0x100) as u8] + content
}

/// A string's length cannot be represented in the on-wire length field.
#[derive(Debug, PartialEq, Eq, Structural, Clone, Copy)]
pub struct EncodeError {
    /// The length that was too large.
    pub count: usize,
}

/// Decoding failed: either the announced length exceeds the capacity, or the
/// content bytes are not well-formed UTF-8.
#[derive(Debug, PartialEq, Eq, Structural, Clone, Copy)]
pub enum DecodeError {
    /// The announced length exceeds the string's capacity.
    BadLength(LengthError),
    /// The content bytes are not well-formed UTF-8.
    BadItem(Utf8Error),
}

/// Opens an input stream over a byte slice.
///
/// Relies on `oct::decode::Input::new`: the stream reads the given bytes
/// from their beginning.
#[verifier::external_body]
fn input_new<'a>(buf: &'a [u8]) -> (r: oct::decode::Input<'a>)
    ensures
        input_data(r) == buf@,
        input_pos(r) == 0,
{
    oct::decode::Input::new(buf)
}

/// Opens an output stream over a byte buffer.
///
/// Relies on `oct::encode::Output::new`: the stream starts empty and can hold
/// as many bytes as the buffer.
#[verifier::external_body]
fn output_new<'a>(buf: &'a mut [u8]) -> (r: oct::encode::Output<'a>)
    ensures
        output_data(r) == Seq::<u8>::empty(),
        output_cap(r) == old(buf)@.len(),
{
    oct::encode::Output::new(buf)
}

/// Borrows the bytes written to an output stream so far.
///
/// Relies on `oct::encode::Output::as_slice`: it views exactly the written
/// bytes.
#[verifier::external_body]
fn output_bytes<'a>(output: &'a oct::encode::Output) -> (r: &'a [u8])
    ensures
        r@ == output_data(*output),
{
    output.as_slice()
}

/// Reads the two-byte length field from the stream.
///
/// Relies on `<usize as oct::decode::Decode>::decode`: it reads a `u16` in
/// little-endian order and widens it.
#[verifier::external_body]
fn decode_len(input: &mut oct::decode::Input) -> (r: usize)
    requires
        input_pos(*old(input)) + 2 <= input_data(*old(input)).len(),
    ensures
        input_data(*final(input)) == input_data(*old(input)),
        input_pos(*final(input)) == input_pos(*old(input)) + 2,
        r == wire_len(input_data(*old(input)), input_pos(*old(input))),
{
    match <usize as oct::decode::Decode>::decode(input) {
        Ok(r) => r,
        Err(e) => match e {},
    }
}

/// Reads a given number of bytes from the stream, or reports that not enough
/// remain, leaving the cursor in place.
///
/// Relies on `oct::decode::Input::read`: it hands out the next `count` bytes
/// and advances, or fails without advancing when fewer remain.
#[verifier::external_body]
fn input_read<'a>(input: &mut oct::decode::Input<'a>, count: usize) -> (r: Option<&'a [u8]>)
    ensures
        input_data(*final(input)) == input_data(*old(input)),
        r is Some <==> input_pos(*old(input)) + count <= input_data(*old(input)).len(),
        r matches Some(bytes) ==> bytes@ == input_data(*old(input)).subrange(
            input_pos(*old(input)),
            input_pos(*old(input)) + count,
        ) && input_pos(*final(input)) == input_pos(*old(input)) + count,
        r is None ==> input_pos(*final(input)) == input_pos(*old(input)),
{
    match input.read(count) {
        Ok(bytes) => Some(bytes),
        Err(_) => None,
    }
}

/// Writes the two-byte length field to the stream.
///
/// Relies on `<usize as oct::encode::Encode>::encode`: a length at most
/// `u16::MAX` is written as a `u16` in little-endian order; a greater one is
/// refused before anything is written.
#[verifier::external_body]
fn encode_len(output: &mut oct::encode::Output, len: usize) -> (r: bool)
    requires
        len <= 0xFFFF ==> output_data(*old(output)).len() + 2 <= output_cap(*old(output)),
    ensures
        output_cap(*final(output)) == output_cap(*old(output)),
        r == (len <= 0xFFFF),
        r ==> output_data(*final(output)) == output_data(*old(output)) + seq![
            (len % 0x100) as u8,
            ((len / 0x100) % 0x100) as u8,
        ],
        !r ==> output_data(*final(output)) == output_data(*old(output)),
{
    match oct::encode::Encode::encode(&len, output) {
        Ok(()) => true,
        Err(_) => false,
    }
}

/// Writes a block of bytes to the stream.
///
/// Relies on `oct::encode::Output::write`: the bytes are appended when they
/// fit in the remaining capacity; otherwise nothing is written.
#[verifier::external_body]
fn output_write(output: &mut oct::encode::Output, data: &[u8]) -> (r: bool)
    ensures
        output_cap(*final(output)) == output_cap(*old(output)),
        r == (output_data(*old(output)).len() + data@.len() <= output_cap(*old(output))),
        r ==> output_data(*final(output)) == output_data(*old(output)) + data@,
        !r ==> output_data(*final(output)) == output_data(*old(output)),
{
    match output.write(data) {
        Ok(()) => true,
        Err(_) => false,
    }
}

/// Builds a vector of a given length holding only zero bytes.
fn zero_vec(n: usize) -> (r: Vec<u8>)
    ensures
        r@.len() == n,
        forall|i: int| 0 <= i < n ==> r@[i] == 0u8,
{
    let mut r: Vec<u8> = Vec::new();
    let mut i: usize = 0;
    while i < n
        invariant
            i <= n,
            r@.len() == i,
            forall|j: int| 0 <= j < i ==> r@[j] == 0u8,
        decreases n - i,
    {
        r.push(0u8);
        i += 1;
    }
    r
}

impl<const N: usize> String<N> {
    /// Decodes a string from the stream: a two-byte length field, then that
    /// many content bytes.
    ///
    /// A length beyond the capacity is refused before any content is read.  A
    /// stream too short for the announced content leaves the cursor after the
    /// length field and treats the content as absent, so the bytes read count
    /// as zeroes.  Content that is not well-formed UTF-8 is refused with the
    /// offending byte and the length of its longest well-formed prefix.
    pub fn decode(input: &mut oct::decode::Input) -> (r: Result<Self, DecodeError>)
        requires
            0 <= input_pos(*old(input)),
            input_pos(*old(input)) + 2 <= input_data(*old(input)).len(),
        ensures
            input_data(*final(input)) == input_data(*old(input)),
            ({
                let data = input_data(*old(input));
                let p = input_pos(*old(input));
                let l = wire_len(data, p);
                let avail = p + 2 + l <= data.len();
                let content = decoded_content(data, p);
                &&& (l > N ==> r == Err::<Self, DecodeError>(
                    DecodeError::BadLength((LengthError { remaining: N, count: l as usize })),
                ) && input_pos(*final(input)) == p + 2)
                &&& (l <= N ==> {
                    &&& input_pos(*final(input)) == (if avail {
                        p + 2 + l
                    } else {
                        p + 2
                    })
                    &&& (valid_utf8(content) ==> (r matches Ok(b) && b.wf() && b@ == content))
                    &&& (!valid_utf8(content) ==> (r matches Err(e) && e matches
                    DecodeError::BadItem(u) && crate::utf8::utf8_error_at(content, u)))
                })
            }),
    {
        let ghost data = input_data(*old(input));
        let ghost p = input_pos(*old(input));
        let len = decode_len(input);

        if len > N {
            return Err(DecodeError::BadLength(LengthError { remaining: N, count: len }));
        }
        let ghost avail = p + 2 + len <= data.len();
        let ghost content = decoded_content(data, p);

        let mut buf = zero_vec(N);
        match input_read(input, len) {
            Some(bytes) => {
                let mut i: usize = 0;
                while i < len
                    invariant
                        i <= len,
                        len <= N,
                        buf@.len() == N,
                        bytes@.len() == len,
                        forall|j: int| 0 <= j < i ==> buf@[j] == bytes@[j],
                    decreases len - i,
                {
                    let b = bytes[i];
                    buf.set(i, b);
                    i += 1;
                }
                proof {
                    assert(avail);
                    assert(buf@.take(len as int) =~= content);
                }
            },
            None => {
                proof {
                    assert(!avail);
                    assert(buf@.take(len as int) =~= content);
                }
            },
        }
        let valid = {
            let sl: &[u8] = buf.as_slice();
            validate_utf8(&sl[0..len])
        };
        match valid {
            Err(e) => Err(DecodeError::BadItem(e)),
            Ok(()) => Ok(Self::from_raw_parts(buf, len)),
        }
    }

    /// Encodes the string as its length followed by its content bytes,
    /// identically to the way a string slice is encoded.
    ///
    /// The caller provides a stream with room for the whole wire form; a
    /// content length beyond the length field's range is refused before
    /// anything is written.
    pub fn encode(&self, output: &mut oct::encode::Output) -> (r: Result<(), EncodeError>)
        requires
            self.wf(),
            self@.len() <= 0xFFFF ==> output_data(*old(output)).len() + 2 + self@.len()
                <= output_cap(*old(output)),
        ensures
            output_cap(*final(output)) == output_cap(*old(output)),
            self@.len() <= 0xFFFF ==> r == Ok::<(), EncodeError>(()) && output_data(*final(output))
                == output_data(*old(output)) + wire_encoding(self@),
            self@.len() > 0xFFFF ==> r == Err::<(), EncodeError>(
                (EncodeError { count: self@.len() as usize }),
            ) && output_data(*final(output)) == output_data(*old(output)),
    {
        let len = self.len();
        if !encode_len(output, len) {
            return Err(EncodeError { count: len });
        }
        let content = self.as_bytes();
        let ok = output_write(output, content);
        proof {
            assert(ok);
            assert(output_data(*old(output)) + seq![
                (len % 0x100) as u8,
                ((len / 0x100) % 0x100) as u8,
            ] + self@ =~= output_data(*old(output)) + wire_encoding(self@));
        }
        Ok(())
    }

    /// Decodes a string from the wire form at the start of the given bytes,
    /// which must hold at least a whole length field.
    pub fn decode_from_bytes(data: &[u8]) -> (r: Result<Self, DecodeError>)
        requires
            data@.len() >= 2,
        ensures
            ({
                let l = wire_len(data@, 0);
                let content = decoded_content(data@, 0);
                &&& (l > N ==> r == Err::<Self, DecodeError>(
                    DecodeError::BadLength((LengthError { remaining: N, count: l as usize })),
                ))
                &&& (l <= N ==> {
                    &&& (valid_utf8(content) ==> (r matches Ok(b) && b.wf() && b@ == content))
                    &&& (!valid_utf8(content) ==> (r matches Err(e) && e matches
                    DecodeError::BadItem(u) && crate::utf8::utf8_error_at(content, u)))
                })
            }),
    {
        let mut input = input_new(data);
        Self::decode(&mut input)
    }

    /// Encodes the string into a fresh byte vector holding exactly its wire
    /// form.
    pub fn encode_to_vec(&self) -> (r: Result<Vec<u8>, EncodeError>)
        requires
            self.wf(),
        ensures
            self@.len() <= 0xFFFF ==> (r matches Ok(v) && v@ == wire_encoding(self@)),
            self@.len() > 0xFFFF ==> r == Err::<Vec<u8>, EncodeError>(
                (EncodeError { count: self@.len() as usize }),
            ),
    {
        let len = self.len();
        if len > 0xFFFF {
            return Err(EncodeError { count: len });
        }
        let mut storage = zero_vec(2 + len);
        let mut output = output_new(storage.as_mut_slice());
        let res = self.encode(&mut output);
        proof {
            assert(res is Ok);
        }
        let written = output_bytes(&output);
        proof {
            assert(Seq::<u8>::empty() + wire_encoding(self@) =~= wire_encoding(self@));
        }
        Ok(vstd::slice::slice_to_vec(written))
    }

    /// Law: decoding an encoding restores the content.  The wire form of any
    /// encodable content announces exactly the content's length, carries the
    /// content bytes right after the length field, and those bytes are again
    /// well-formed, so reading them back yields the original string.
    pub proof fn lemma_codec_round_trip(content: Seq<u8>)
        requires
            valid_utf8(content),
            content.len() <= N,
            content.len() <= 0xFFFF,
        ensures
            ({
                let e = wire_encoding(content);
                &&& e.len() == 2 + content.len()
                &&& wire_len(e, 0) == content.len()
                &&& e.subrange(2, 2 + wire_len(e, 0)) == content
                &&& valid_utf8(e.subrange(2, 2 + wire_len(e, 0)))
            }),
    {
        let l = content.len() as int;
        let e = wire_encoding(content);
        assert(e[0] == (l % 0x100) as u8 && e[1] == ((l / 0x100) % 0x100) as u8);
        assert(l % 0x100 + 0x100 * ((l / 0x100) % 0x100) == l) by (nonlinear_arith)
            requires
                0 <= l <= 0xFFFF,
        ;
        assert(e.subrange(2, 2 + l) =~= content);
    }
}

} // verus!
