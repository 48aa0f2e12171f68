//! The capacity-parameterized string buffer and its operations.

use crate::error::{LengthError, Utf8Error};
use crate::utf8::{
    decode_utf8_bytes, encode_char_bytes, lemma_ascii_transform_preserves_valid_utf8,
    lemma_boundary_in_range, lemma_encode_scalar_shape, lemma_encode_utf8_concat,
    lemma_encode_utf8_singleton, lemma_last_scalar_start, lemma_valid_first_scalar_extend,
    validate_utf8,
};
use core::cmp::Ordering;
use vstd::prelude::*;
use vstd::string::StringSliceAdditionalSpecFns;
use vstd::utf8::{
    decode_first_scalar, decode_utf8, encode_scalar, encode_utf8, encode_utf8_decode_utf8,
    encode_utf8_valid_utf8, is_char_boundary, is_char_boundary_iff_not_is_continuation_byte,
    is_char_boundary_start_end_of_seq, is_continuation_byte, length_of_first_scalar,
    valid_first_scalar, valid_utf8, valid_utf8_concat, valid_utf8_split,
};

verus! {

/// The uppercase form of a byte: ASCII lowercase letters are mapped to their
/// uppercase counterparts, every other byte is left as it is.
pub open spec fn spec_to_ascii_uppercase(b: u8) -> u8 {
    if 0x61 <= b <= 0x7A {
        (b - 0x20) as u8
    } else {
        b
    }
}

/// The lowercase form of a byte: ASCII uppercase letters are mapped to their
/// lowercase counterparts, every other byte is left as it is.
pub open spec fn spec_to_ascii_lowercase(b: u8) -> u8 {
    if 0x41 <= b <= 0x5A {
        (b + 0x20) as u8
    } else {
        b
    }
}

/// Byte-wise lexicographic ordering of two byte sequences.
pub open spec fn lex_cmp_bytes(a: Seq<u8>, b: Seq<u8>) -> Ordering
    decreases a.len(),
{
    if a.len() == 0 && b.len() == 0 {
        Ordering::Equal
    } else if a.len() == 0 {
        Ordering::Less
    } else if b.len() == 0 {
        Ordering::Greater
    } else if a[0] < b[0] {
        Ordering::Less
    } else if a[0] > b[0] {
        Ordering::Greater
    } else {
        lex_cmp_bytes(a.drop_first(), b.drop_first())
    }
}

/// The number of characters that fit when appending a character sequence
/// greedily into `cap` bytes, stopping at the first character whose encoding
/// does not fit.
pub open spec fn greedy_prefix_len(chars: Seq<char>, cap: int) -> int
    decreases chars.len(),
{
    if chars.len() == 0 {
        0
    } else if vstd::utf8::encode_scalar(chars[0] as u32).len() > cap {
        0
    } else {
        1 + greedy_prefix_len(
            chars.drop_first(),
            cap - vstd::utf8::encode_scalar(chars[0] as u32).len(),
        )
    }
}

/// Compares two byte slices for equality of content.
fn eq_bytes(a: &[u8], b: &[u8]) -> (r: bool)
    ensures
        r == (a@ == b@),
{
    if a.len() != b.len() {
        proof {
            if a@ == b@ {
                assert(a@.len() == b@.len());
            }
        }
        return false;
    }
    let n = a.len();
    let mut i: usize = 0;
    while i < n
        invariant
            i <= n,
            n == a@.len(),
            n == b@.len(),
            forall|j: int| 0 <= j < i ==> a@[j] == b@[j],
        decreases n - i,
    {
        if a[i] != b[i] {
            return false;
        }
        i += 1;
    }
    proof {
        assert(a@ =~= b@);
    }
    true
}

/// Compares two byte slices lexicographically.
fn cmp_bytes(a: &[u8], b: &[u8]) -> (r: Ordering)
    ensures
        r == lex_cmp_bytes(a@, b@),
{
    let an = a.len();
    let bn = b.len();
    let n = if an <= bn {
        an
    } else {
        bn
    };
    let mut i: usize = 0;
    proof {
        assert(a@.skip(0) =~= a@);
        assert(b@.skip(0) =~= b@);
    }
    while i < n
        invariant
            i <= n,
            an == a@.len(),
            bn == b@.len(),
            n == if an <= bn {
                an
            } else {
                bn
            },
            lex_cmp_bytes(a@, b@) == lex_cmp_bytes(
                a@.skip(i as int),
                b@.skip(i as int),
            ),
        decreases n - i,
    {
        let x = a[i];
        let y = b[i];
        proof {
            assert(a@.skip(i as int)[0] == a@[i as int]);
            assert(b@.skip(i as int)[0] == b@[i as int]);
        }
        if x < y {
            return Ordering::Less;
        }
        if x > y {
            return Ordering::Greater;
        }
        proof {
            assert(a@.skip(i as int).drop_first() =~= a@.skip(i + 1));
            assert(b@.skip(i as int).drop_first() =~= b@.skip(i + 1));
        }
        i += 1;
    }
    proof {
        assert(a@.skip(i as int).len() == an - i);
        assert(b@.skip(i as int).len() == bn - i);
    }
    if an == bn {
        Ordering::Equal
    } else if an < bn {
        Ordering::Less
    } else {
        proof {
            assert(b@.skip(i as int).len() == 0);
            assert(a@.skip(i as int).len() > 0);
        }
        Ordering::Greater
    }
}

/// Borrows a byte slice as a string slice.
///
/// Relies on `core::str::from_utf8`: on well-formed UTF-8 input it returns
/// `Ok`, with the string slice viewing exactly those bytes.
#[verifier::external_body]
fn bytes_as_str(v: &[u8]) -> (r: &str)
    requires
        valid_utf8(v@),
    ensures
        r.spec_bytes() == v@,
{
    core::str::from_utf8(v).unwrap()
}

/// String container with maximum length `N`, counted in bytes.
///
/// The content is encoded in UTF-8, so the limit `N` denotes bytes and not
/// characters.  The backing store always holds exactly `N` fully initialized
/// bytes; only the first [`len`](Self::len) of them are content, and they
/// always form a well-formed UTF-8 sequence.
#[derive(Debug, Clone)]
pub struct String<const N: usize> {
    len: usize,
    buf: Vec<u8>,
}

impl<const N: usize> String<N> {
    /// The bytes currently in logical use.
    pub closed spec fn view(self) -> Seq<u8> {
        if self.len <= self.buf@.len() {
            self.buf@.take(self.len as int)
        } else {
            self.buf@
        }
    }

    /// Validity: the length is within capacity, the backing store has exactly
    /// `N` bytes, and the bytes in use form well-formed UTF-8.
    pub closed spec fn wf(self) -> bool {
        &&& self.len <= N
        &&& self.buf@.len() == N
        &&& valid_utf8(self@)
    }

    /// The characters that the content encodes.
    pub open spec fn text(self) -> Seq<char> {
        decode_utf8(self@)
    }

    /// Constructs a new, empty string.
    pub fn new() -> (r: Self)
        ensures
            r.wf(),
            r@ == Seq::<u8>::empty(),
    {
        let buf: Vec<u8> = vec![0u8; N];
        let r = Self { len: 0, buf };
        proof {
            assert(r@ =~= Seq::<u8>::empty());
        }
        r
    }

    /// Returns the current length of the string, in bytes.
    pub fn len(&self) -> (r: usize)
        requires
            self.wf(),
        ensures
            r == self@.len(),
    {
        self.len
    }

    /// Checks if the string is empty.
    pub fn is_empty(&self) -> (r: bool)
        requires
            self.wf(),
        ensures
            r == (self@.len() == 0),
    {
        self.len == 0
    }

    /// Borrows the string as a byte slice holding exactly the content.
    pub fn as_bytes(&self) -> (r: &[u8])
        requires
            self.wf(),
        ensures
            r@ == self@,
    {
        let sl: &[u8] = self.buf.as_slice();
        let r = &sl[0..self.len];
        proof {
            assert(r@ =~= self@);
        }
        r
    }

    /// Borrows the string as a string slice holding exactly the content.
    pub fn as_str(&self) -> (r: &str)
        requires
            self.wf(),
        ensures
            r.spec_bytes() == self@,
            r@ == self.text(),
    {
        let r = bytes_as_str(self.as_bytes());
        proof {
            encode_utf8_decode_utf8(r@);
        }
        r
    }

    /// Checks if a byte index lies on the boundary of a character: at the very
    /// start or end of the content, or on a byte that does not continue a
    /// multi-byte sequence.
    pub fn is_char_boundary(&self, index: usize) -> (r: bool)
        requires
            self.wf(),
        ensures
            r == is_char_boundary(self@, index as int),
    {
        if index > self.len {
            proof {
                if is_char_boundary(self@, index as int) {
                    lemma_boundary_in_range(self@, index as int);
                }
            }
            false
        } else if index == 0 || index == self.len {
            proof {
                vstd::utf8::is_char_boundary_start_end_of_seq(self@);
            }
            true
        } else {
            let b = self.buf[index];
            proof {
                assert(b == self@[index as int]);
                vstd::utf8::is_char_boundary_iff_not_is_continuation_byte(self@, index as int);
            }
            !(0x80 <= b && b < 0xC0)
        }
    }

    /// Checks if the entire content is also valid ASCII.
    pub fn is_ascii(&self) -> (r: bool)
        requires
            self.wf(),
        ensures
            r == vstd::utf8::is_ascii_chars(self.text()),
    {
        self.as_str().is_ascii()
    }

    /// Inserts already well-formed bytes at a character boundary, shifting the
    /// suffix out of the way; fails without mutating when the content would
    /// outgrow the capacity.
    fn insert_bytes(&mut self, index: usize, add: &[u8]) -> (r: Result<(), LengthError>)
        requires
            old(self).wf(),
            is_char_boundary(old(self)@, index as int),
            valid_utf8(add@),
        ensures
            final(self).wf(),
            old(self)@.len() + add@.len() <= N ==> r == Ok::<(), LengthError>(()) && final(self)@
                == old(self)@.subrange(0, index as int) + add@ + old(self)@.subrange(
                index as int,
                old(self)@.len() as int,
            ),
            old(self)@.len() + add@.len() > N ==> r == Err::<(), LengthError>(
                (LengthError { remaining: (N - old(self)@.len()) as usize, count: add@.len() as usize }),
            ) && final(self)@ == old(self)@,
    {
        proof {
            lemma_boundary_in_range(old(self)@, index as int);
        }
        let s_len = add.len();
        let old_len = self.len;
        if s_len > N - old_len {
            return Err(LengthError { remaining: N - old_len, count: s_len });
        }
        let new_len = old_len + s_len;
        let ghost orig = old(self)@;

        // Shift the suffix right by the length of the addition, moving from
        // the highest byte down so that overlapping regions stay intact.
        let m = old_len - index;
        let mut k: usize = 0;
        while k < m
            invariant
                k <= m,
                m == old_len - index,
                index <= old_len,
                old_len + s_len == new_len,
                new_len <= N,
                s_len == add@.len(),
                self.len == old_len,
                self.buf@.len() == N,
                orig == old(self)@,
                orig.len() == old_len,
                old(self).wf(),
                forall|j: int| 0 <= j < old_len - k ==> self.buf@[j] == orig[j],
                forall|j: int|
                    old_len - k <= j < old_len ==> self.buf@[j + s_len] == orig[j],
            decreases m - k,
        {
            let src = old_len - 1 - k;
            let b = self.buf[src];
            proof {
                assert(b == orig[src as int]);
            }
            self.buf.set(src + s_len, b);
            k += 1;
        }

        // Copy the addition into the freed gap.
        let mut k2: usize = 0;
        while k2 < s_len
            invariant
                k2 <= s_len,
                index <= old_len,
                old_len + s_len == new_len,
                new_len <= N,
                s_len == add@.len(),
                self.len == old_len,
                self.buf@.len() == N,
                orig == old(self)@,
                orig.len() == old_len,
                forall|j: int| 0 <= j < index ==> self.buf@[j] == orig[j],
                forall|j: int|
                    index <= j < old_len ==> self.buf@[j + s_len] == orig[j],
                forall|j: int| 0 <= j < k2 ==> self.buf@[index + j] == add@[j],
            decreases s_len - k2,
        {
            let b = add[k2];
            self.buf.set(index + k2, b);
            k2 += 1;
        }

        self.len = new_len;

        proof {
            let target = orig.subrange(0, index as int) + add@ + orig.subrange(
                index as int,
                old_len as int,
            );
            assert(self@.len() == new_len);
            assert forall|p: int| 0 <= p < new_len implies self@[p] == target[p] by {
                if p < index {
                    assert(self.buf@[p] == orig[p]);
                } else if p < index + s_len {
                    assert(self.buf@[p] == add@[p - index]);
                } else {
                    assert(self.buf@[p] == orig[p - s_len]);
                }
            }
            assert(self@ =~= target);
            valid_utf8_split(orig, index as int);
            valid_utf8_concat(orig.subrange(0, index as int), add@);
            valid_utf8_concat(
                orig.subrange(0, index as int) + add@,
                orig.subrange(index as int, old_len as int),
            );
            assert((orig.subrange(0, index as int) + add@) + orig.subrange(
                index as int,
                old_len as int,
            ) =~= target);
        }
        Ok(())
    }

    /// Pushes a character onto the end of the string.
    ///
    /// Fails without mutating when the character's encoding does not fit in
    /// the remaining capacity.
    pub fn push(&mut self, c: char) -> (r: Result<(), LengthError>)
        requires
            old(self).wf(),
        ensures
            final(self).wf(),
            old(self)@.len() + encode_scalar(c as u32).len() <= N ==> r == Ok::<(), LengthError>(())
                && final(self)@ == old(self)@ + encode_scalar(c as u32),
            old(self)@.len() + encode_scalar(c as u32).len() > N ==> r == Err::<(), LengthError>(
                (LengthError {
                    remaining: (N - old(self)@.len()) as usize,
                    count: encode_scalar(c as u32).len() as usize,
                }),
            ) && final(self)@ == old(self)@,
    {
        let index = self.len;
        proof {
            vstd::utf8::is_char_boundary_start_end_of_seq(self@);
        }
        let r = self.insert(index, c);
        proof {
            let orig = old(self)@;
            if orig.len() + encode_scalar(c as u32).len() <= N {
                assert(orig.subrange(0, orig.len() as int) =~= orig);
                assert(orig.subrange(orig.len() as int, orig.len() as int) =~= Seq::<u8>::empty());
                assert(orig + encode_scalar(c as u32) + Seq::<u8>::empty() =~= orig + encode_scalar(
                    c as u32,
                ));
            }
        }
        r
    }

    /// Pushes a string onto the end of the string.
    ///
    /// Fails without mutating when the added bytes do not fit in the
    /// remaining capacity.
    pub fn push_str(&mut self, s: &str) -> (r: Result<(), LengthError>)
        requires
            old(self).wf(),
        ensures
            final(self).wf(),
            old(self)@.len() + encode_utf8(s@).len() <= N ==> r == Ok::<(), LengthError>(())
                && final(self)@ == old(self)@ + encode_utf8(s@),
            old(self)@.len() + encode_utf8(s@).len() > N ==> r == Err::<(), LengthError>(
                (LengthError {
                    remaining: (N - old(self)@.len()) as usize,
                    count: encode_utf8(s@).len() as usize,
                }),
            ) && final(self)@ == old(self)@,
    {
        let index = self.len;
        proof {
            vstd::utf8::is_char_boundary_start_end_of_seq(self@);
        }
        let r = self.insert_str(index, s);
        proof {
            let orig = old(self)@;
            if orig.len() + encode_utf8(s@).len() <= N {
                assert(orig.subrange(0, orig.len() as int) =~= orig);
                assert(orig.subrange(orig.len() as int, orig.len() as int) =~= Seq::<u8>::empty());
                assert(orig + encode_utf8(s@) + Seq::<u8>::empty() =~= orig + encode_utf8(s@));
            }
        }
        r
    }

    /// Inserts a character at a character boundary of the content.
    ///
    /// Fails without mutating when the character's encoding does not fit in
    /// the remaining capacity.
    pub fn insert(&mut self, index: usize, c: char) -> (r: Result<(), LengthError>)
        requires
            old(self).wf(),
            is_char_boundary(old(self)@, index as int),
        ensures
            final(self).wf(),
            old(self)@.len() + encode_scalar(c as u32).len() <= N ==> r == Ok::<(), LengthError>(())
                && final(self)@ == old(self)@.subrange(0, index as int) + encode_scalar(c as u32)
                + old(self)@.subrange(index as int, old(self)@.len() as int),
            old(self)@.len() + encode_scalar(c as u32).len() > N ==> r == Err::<(), LengthError>(
                (LengthError {
                    remaining: (N - old(self)@.len()) as usize,
                    count: encode_scalar(c as u32).len() as usize,
                }),
            ) && final(self)@ == old(self)@,
    {
        let e = encode_char_bytes(c);
        self.insert_bytes(index, e.as_slice())
    }

    /// Inserts a string at a character boundary of the content.
    ///
    /// Fails without mutating when the added bytes do not fit in the
    /// remaining capacity.
    pub fn insert_str(&mut self, index: usize, s: &str) -> (r: Result<(), LengthError>)
        requires
            old(self).wf(),
            is_char_boundary(old(self)@, index as int),
        ensures
            final(self).wf(),
            old(self)@.len() + encode_utf8(s@).len() <= N ==> r == Ok::<(), LengthError>(())
                && final(self)@ == old(self)@.subrange(0, index as int) + encode_utf8(s@)
                + old(self)@.subrange(index as int, old(self)@.len() as int),
            old(self)@.len() + encode_utf8(s@).len() > N ==> r == Err::<(), LengthError>(
                (LengthError {
                    remaining: (N - old(self)@.len()) as usize,
                    count: encode_utf8(s@).len() as usize,
                }),
            ) && final(self)@ == old(self)@,
    {
        proof {
            encode_utf8_valid_utf8(s@);
        }
        let add = s.as_bytes();
        self.insert_bytes(index, add)
    }

    /// Constructs a string from a string slice, checking that the slice's
    /// bytes fit within the capacity.
    pub fn from_str(s: &str) -> (r: Result<Self, LengthError>)
        ensures
            encode_utf8(s@).len() <= N ==> (r matches Ok(b) && b.wf() && b@ == encode_utf8(s@)
                && b.text() == s@),
            encode_utf8(s@).len() > N ==> r == Err::<Self, LengthError>(
                (LengthError { remaining: N, count: encode_utf8(s@).len() as usize }),
            ),
    {
        let mut this = Self::new();
        match this.push_str(s) {
            Ok(()) => {
                proof {
                    assert(Seq::<u8>::empty() + encode_utf8(s@) =~= encode_utf8(s@));
                    encode_utf8_decode_utf8(s@);
                }
                Ok(this)
            },
            Err(e) => Err(e),
        }
    }

    /// Constructs a string from a string slice that the caller has already
    /// checked to fit within the capacity.
    pub fn from_str_unchecked(s: &str) -> (r: Self)
        requires
            encode_utf8(s@).len() <= N,
        ensures
            r.wf(),
            r@ == encode_utf8(s@),
            r.text() == s@,
    {
        let mut this = Self::new();
        let res = this.push_str(s);
        proof {
            assert(res is Ok);
            assert(Seq::<u8>::empty() + encode_utf8(s@) =~= encode_utf8(s@));
            encode_utf8_decode_utf8(s@);
        }
        this
    }

    /// Constructs a string from an array of UTF-8 bytes, validating every
    /// byte.
    ///
    /// On the first invalid sequence the error reports the offending byte and
    /// the length of the longest well-formed prefix.
    pub fn from_utf8<const M: usize>(data: [u8; M]) -> (r: Result<Self, Utf8Error>)
        requires
            M <= N,
        ensures
            valid_utf8(data@) ==> (r matches Ok(b) && b.wf() && b@ == data@),
            !valid_utf8(data@) ==> (r matches Err(e) && crate::utf8::utf8_error_at(data@, e)),
    {
        match validate_utf8(data.as_slice()) {
            Err(e) => Err(e),
            Ok(()) => Ok(Self::from_utf8_unchecked(data)),
        }
    }

    /// Constructs a string from an array of bytes that the caller has already
    /// checked to be well-formed UTF-8.
    pub fn from_utf8_unchecked<const M: usize>(data: [u8; M]) -> (r: Self)
        requires
            M <= N,
            valid_utf8(data@),
        ensures
            r.wf(),
            r@ == data@,
    {
        let sl: &[u8] = data.as_slice();
        let mut buf: Vec<u8> = vec![0u8; N];
        let mut i: usize = 0;
        while i < sl.len()
            invariant
                sl@ == data@,
                data@.len() == M,
                M <= N,
                i <= M,
                buf@.len() == N,
                forall|j: int| 0 <= j < i ==> buf@[j] == data@[j],
            decreases M - i,
        {
            let b = sl[i];
            buf.set(i, b);
            i += 1;
        }
        let r = Self { len: i, buf };
        proof {
            assert(r@ =~= data@);
        }
        r
    }

    /// Assembles a string from raw parts whose validity the caller has
    /// already established.
    pub fn from_raw_parts(buf: Vec<u8>, len: usize) -> (r: Self)
        requires
            len <= N,
            buf@.len() == N,
            valid_utf8(buf@.take(len as int)),
        ensures
            r.wf(),
            r@ == buf@.take(len as int),
    {
        Self { len, buf }
    }

    /// Destructs the string into its raw parts: the full backing store and
    /// the length of the content within it.
    pub fn into_raw_parts(self) -> (r: (Vec<u8>, usize))
        requires
            self.wf(),
        ensures
            r.0@.len() == N,
            r.1 <= N,
            valid_utf8(r.0@.take(r.1 as int)),
            r.0@.take(r.1 as int) == self@,
    {
        let Self { len, buf } = self;
        (buf, len)
    }

    /// Finds the last character boundary strictly before `index`, or the
    /// start of the string.
    fn prev_char_boundary(&self, index: usize) -> (r: usize)
        requires
            self.wf(),
            index <= self@.len(),
        ensures
            is_char_boundary(self@, r as int),
            index > 0 ==> r < index,
            index == 0 ==> r == 0,
            forall|j: int| r < j < index ==> !is_char_boundary(self@, j),
    {
        if index == 0 {
            proof {
                is_char_boundary_start_end_of_seq(self@);
            }
            return 0;
        }
        let mut i = index - 1;
        while i > 0
            invariant
                self.wf(),
                index <= self@.len(),
                0 <= i < index,
                forall|j: int| i < j < index ==> is_continuation_byte(self@[j]),
            ensures
                0 <= i < index,
                forall|j: int| i < j < index ==> is_continuation_byte(self@[j]),
                i == 0 || !is_continuation_byte(self@[i as int]),
            decreases i,
        {
            let b = self.buf[i];
            proof {
                assert(b == self@[i as int]);
            }
            if !(0x80 <= b && b < 0xC0) {
                break;
            }
            i -= 1;
        }
        proof {
            if i == 0 {
                is_char_boundary_start_end_of_seq(self@);
            } else {
                is_char_boundary_iff_not_is_continuation_byte(self@, i as int);
            }
            assert forall|j: int| i < j < index implies !is_char_boundary(self@, j) by {
                is_char_boundary_iff_not_is_continuation_byte(self@, j);
            }
        }
        i
    }

    /// Removes the character whose encoding starts at `index`, closing the
    /// gap, and returns it.
    pub fn remove(&mut self, index: usize) -> (r: char)
        requires
            old(self).wf(),
            index < old(self)@.len(),
            is_char_boundary(old(self)@, index as int),
        ensures
            final(self).wf(),
            ({
                let rest = old(self)@.subrange(index as int, old(self)@.len() as int);
                let k = length_of_first_scalar(rest);
                &&& valid_first_scalar(rest)
                &&& r as u32 == decode_first_scalar(rest)
                &&& encode_scalar(r as u32) == old(self)@.subrange(index as int, index + k)
                &&& final(self)@ == old(self)@.subrange(0, index as int) + old(self)@.subrange(
                    index + k,
                    old(self)@.len() as int,
                )
            }),
    {
        let ghost orig = old(self)@;
        let old_len = self.len;
        let (c, k) = {
            let sl: &[u8] = self.buf.as_slice();
            let content = &sl[0..old_len];
            proof {
                assert(content@ =~= orig);
            }
            decode_utf8_bytes(content, index)
        };
        let next = index + k;

        // Shift the suffix left to close the gap.
        let mut j = next;
        while j < old_len
            invariant
                next <= j <= old_len,
                next == index + k,
                1 <= k,
                index + k <= old_len,
                self.len == old_len,
                self.buf@.len() == N,
                old_len <= N,
                orig == old(self)@,
                orig.len() == old_len,
                forall|p: int| 0 <= p < index ==> self.buf@[p] == orig[p],
                forall|p: int| index <= p < j - k ==> self.buf@[p] == orig[p + k],
                forall|p: int| j <= p < old_len ==> self.buf@[p] == orig[p],
            decreases old_len - j,
        {
            let b = self.buf[j];
            proof {
                assert(b == orig[j as int]);
            }
            self.buf.set(j - k, b);
            j += 1;
        }
        self.len = old_len - k;

        proof {
            let target = orig.subrange(0, index as int) + orig.subrange(
                next as int,
                old_len as int,
            );
            assert(self@.len() == old_len - k);
            assert forall|p: int| 0 <= p < old_len - k implies self@[p] == target[p] by {
                if p < index {
                    assert(self.buf@[p] == orig[p]);
                } else {
                    assert(self.buf@[p] == orig[p + k]);
                }
            }
            assert(self@ =~= target);
            valid_utf8_split(orig, index as int);
            let rest = orig.subrange(index as int, old_len as int);
            assert(valid_utf8(rest));
            assert(valid_utf8(vstd::utf8::pop_first_scalar(rest)));
            assert(vstd::utf8::pop_first_scalar(rest) =~= orig.subrange(
                next as int,
                old_len as int,
            ));
            valid_utf8_concat(
                orig.subrange(0, index as int),
                orig.subrange(next as int, old_len as int),
            );
        }
        c
    }

    /// Pops the last character from the string.
    ///
    /// On a non-empty string the content shrinks by exactly the returned
    /// character's encoding, so appending that encoding again restores the
    /// previous content.
    pub fn pop(&mut self) -> (r: Option<char>)
        requires
            old(self).wf(),
        ensures
            final(self).wf(),
            old(self)@.len() == 0 ==> r is None && final(self)@ == old(self)@,
            old(self)@.len() > 0 ==> (r matches Some(c) && final(self)@ + encode_scalar(c as u32)
                == old(self)@),
    {
        if self.len == 0 {
            return None;
        }
        let i = self.prev_char_boundary(self.len);
        proof {
            assert forall|j: int| i < j < self@.len() implies is_continuation_byte(self@[j]) by {
                is_char_boundary_iff_not_is_continuation_byte(self@, j);
            }
            is_char_boundary_iff_not_is_continuation_byte(self@, i as int);
            lemma_last_scalar_start(self@, i as int);
        }
        let c = self.remove(i);
        proof {
            let orig = old(self)@;
            assert(orig.subrange(orig.len() as int, orig.len() as int) =~= Seq::<u8>::empty());
            assert(self@ =~= orig.subrange(0, i as int));
            assert(self@ + encode_scalar(c as u32) =~= orig);
        }
        Some(c)
    }

    /// Truncates the string to the given length, which must lie on a
    /// character boundary.
    pub fn truncate(&mut self, len: usize)
        requires
            old(self).wf(),
            is_char_boundary(old(self)@, len as int),
        ensures
            final(self).wf(),
            final(self)@ == old(self)@.subrange(0, len as int),
    {
        proof {
            lemma_boundary_in_range(old(self)@, len as int);
            valid_utf8_split(old(self)@, len as int);
        }
        self.len = len;
        proof {
            assert(self@ =~= old(self)@.subrange(0, len as int));
        }
    }

    /// Completely clears the string.
    pub fn clear(&mut self)
        requires
            old(self).wf(),
        ensures
            final(self).wf(),
            final(self)@ == Seq::<u8>::empty(),
    {
        self.len = 0;
        proof {
            assert(self@ =~= Seq::<u8>::empty());
        }
    }

    /// Converts all ASCII letters to their uppercase equivalent, in place.
    ///
    /// Only bytes in the ASCII lowercase range change; multi-byte sequences
    /// are left untouched.
    pub fn make_ascii_uppercase(&mut self)
        requires
            old(self).wf(),
        ensures
            final(self).wf(),
            final(self)@ == old(self)@.map_values(|b: u8| spec_to_ascii_uppercase(b)),
    {
        let ghost orig = old(self)@;
        let n = self.len;
        let mut i: usize = 0;
        while i < n
            invariant
                i <= n,
                n == self.len,
                self.len <= N,
                self.buf@.len() == N,
                orig == old(self)@,
                orig.len() == n,
                forall|p: int| 0 <= p < i ==> self.buf@[p] == spec_to_ascii_uppercase(orig[p]),
                forall|p: int| i <= p < n ==> self.buf@[p] == orig[p],
            decreases n - i,
        {
            let b = self.buf[i];
            if 0x61 <= b && b <= 0x7A {
                self.buf.set(i, b - 0x20);
            }
            i += 1;
        }
        proof {
            assert(self@ =~= orig.map_values(|b: u8| spec_to_ascii_uppercase(b)));
            lemma_ascii_transform_preserves_valid_utf8(orig, self@);
        }
    }

    /// Converts all ASCII letters to their lowercase equivalent, in place.
    ///
    /// Only bytes in the ASCII uppercase range change; multi-byte sequences
    /// are left untouched.
    pub fn make_ascii_lowercase(&mut self)
        requires
            old(self).wf(),
        ensures
            final(self).wf(),
            final(self)@ == old(self)@.map_values(|b: u8| spec_to_ascii_lowercase(b)),
    {
        let ghost orig = old(self)@;
        let n = self.len;
        let mut i: usize = 0;
        while i < n
            invariant
                i <= n,
                n == self.len,
                self.len <= N,
                self.buf@.len() == N,
                orig == old(self)@,
                orig.len() == n,
                forall|p: int| 0 <= p < i ==> self.buf@[p] == spec_to_ascii_lowercase(orig[p]),
                forall|p: int| i <= p < n ==> self.buf@[p] == orig[p],
            decreases n - i,
        {
            let b = self.buf[i];
            if 0x41 <= b && b <= 0x5A {
                self.buf.set(i, b + 0x20);
            }
            i += 1;
        }
        proof {
            assert(self@ =~= orig.map_values(|b: u8| spec_to_ascii_lowercase(b)));
            lemma_ascii_transform_preserves_valid_utf8(orig, self@);
        }
    }

    /// Splits the string at a character boundary, borrowing the two parts.
    pub fn split_at(&self, mid: usize) -> (r: (&str, &str))
        requires
            self.wf(),
            is_char_boundary(self@, mid as int),
        ensures
            r.0.spec_bytes() == self@.subrange(0, mid as int),
            r.1.spec_bytes() == self@.subrange(mid as int, self@.len() as int),
            r.0@ == decode_utf8(self@.subrange(0, mid as int)),
            r.1@ == decode_utf8(self@.subrange(mid as int, self@.len() as int)),
            r.0@ + r.1@ == self.text(),
    {
        let s = self.as_str();
        let r = s.split_at(mid);
        proof {
            valid_utf8_split(self@, mid as int);
            encode_utf8_decode_utf8(r.0@);
            encode_utf8_decode_utf8(r.1@);
            vstd::utf8::decode_utf8_split(self@, mid as int);
        }
        r
    }

    /// Splits the string at an index, or reports that the index is not a
    /// character boundary.
    pub fn split_at_checked(&self, mid: usize) -> (r: Option<(&str, &str)>)
        requires
            self.wf(),
        ensures
            r is Some <==> is_char_boundary(self@, mid as int),
            r matches Some(p) ==> {
                &&& p.0.spec_bytes() == self@.subrange(0, mid as int)
                &&& p.1.spec_bytes() == self@.subrange(mid as int, self@.len() as int)
                &&& p.0@ + p.1@ == self.text()
            },
    {
        if self.is_char_boundary(mid) {
            Some(self.split_at(mid))
        } else {
            None
        }
    }

    /// Converts the string into a dynamically allocated string.
    pub fn into_std_string(self) -> (r: std::string::String)
        requires
            self.wf(),
        ensures
            r@ == self.text(),
    {
        let s = self.as_str();
        s.to_owned()
    }

    /// Builds a string from a sequence of characters, appending in order and
    /// stopping silently at the first character that would overflow the
    /// capacity.
    pub fn from_chars(chars: &Vec<char>) -> (r: Self)
        ensures
            r.wf(),
            r@ == encode_utf8(chars@.take(greedy_prefix_len(chars@, N as int))),
    {
        let mut this = Self::new();
        let mut i: usize = 0;
        proof {
            assert(chars@.take(0) =~= Seq::<char>::empty());
            assert(chars@.skip(0) =~= chars@);
        }
        while i < chars.len()
            invariant
                i <= chars@.len(),
                this.wf(),
                this@ == encode_utf8(chars@.take(i as int)),
                this@.len() <= N,
                greedy_prefix_len(chars@, N as int) == i + greedy_prefix_len(
                    chars@.skip(i as int),
                    N - this@.len(),
                ),
            ensures
                this.wf(),
                this@ == encode_utf8(chars@.take(greedy_prefix_len(chars@, N as int))),
            decreases chars@.len() - i,
        {
            let c = chars[i];
            let ghost before = this@;
            let res = this.push(c);
            proof {
                assert(chars@.skip(i as int)[0] == c);
            }
            match res {
                Ok(()) => {
                    proof {
                        lemma_encode_utf8_concat(chars@.take(i as int), seq![c]);
                        lemma_encode_utf8_singleton(c);
                        assert(chars@.take(i + 1) =~= chars@.take(i as int) + seq![c]);
                        assert(chars@.skip(i as int).drop_first() =~= chars@.skip(i + 1));
                    }
                    i += 1;
                },
                Err(_) => {
                    proof {
                        assert(encode_scalar(c as u32).len() > N - before.len());
                        assert(greedy_prefix_len(chars@.skip(i as int), N - before.len()) == 0);
                        assert(chars@.take(greedy_prefix_len(chars@, N as int)) =~= chars@.take(
                            i as int,
                        ));
                    }
                    break;
                },
            }
        }
        proof {
            if i == chars@.len() {
                assert(chars@.skip(i as int).len() == 0);
                assert(chars@.take(i as int) =~= chars@.take(
                    greedy_prefix_len(chars@, N as int),
                ));
            }
        }
        this
    }

    /// Borrows the bytes in logical use, guarding against an inconsistent
    /// length so that comparisons stay total.
    fn raw_content(&self) -> (r: &[u8])
        ensures
            r@ == self@,
    {
        let sl: &[u8] = self.buf.as_slice();
        let n = if self.len <= sl.len() {
            self.len
        } else {
            sl.len()
        };
        let r = &sl[0..n];
        proof {
            assert(r@ =~= self@);
        }
        r
    }
}

impl<const N: usize> Default for String<N> {
    /// Constructs a new, empty string.
    fn default() -> (r: Self)
        ensures
            r.wf(),
            r@ == Seq::<u8>::empty(),
    {
        Self::new()
    }
}

impl<const N: usize, const M: usize> PartialEq<String<M>> for String<N> {
    /// Equality compares logical content only: neither the capacities nor the
    /// bytes past the content take part.
    fn eq(&self, other: &String<M>) -> (r: bool) {
        eq_bytes(self.raw_content(), other.raw_content())
    }
}

impl<const N: usize, const M: usize> vstd::std_specs::cmp::PartialEqSpecImpl<String<M>> for String<N> {
    open spec fn obeys_eq_spec() -> bool {
        true
    }

    open spec fn eq_spec(&self, other: &String<M>) -> bool {
        self@ == other@
    }
}

impl<const N: usize> PartialEq<str> for String<N> {
    /// Equality against a string slice compares the content bytes.
    fn eq(&self, other: &str) -> (r: bool) {
        eq_bytes(self.raw_content(), other.as_bytes())
    }
}

impl<const N: usize> vstd::std_specs::cmp::PartialEqSpecImpl<str> for String<N> {
    open spec fn obeys_eq_spec() -> bool {
        true
    }

    open spec fn eq_spec(&self, other: &str) -> bool {
        self@ == other.spec_bytes()
    }
}

impl<const N: usize> PartialEq<&str> for String<N> {
    /// Equality against a string slice compares the content bytes.
    fn eq(&self, other: &&str) -> (r: bool) {
        eq_bytes(self.raw_content(), (*other).as_bytes())
    }
}

impl<const N: usize> vstd::std_specs::cmp::PartialEqSpecImpl<&str> for String<N> {
    open spec fn obeys_eq_spec() -> bool {
        true
    }

    open spec fn eq_spec(&self, other: &&str) -> bool {
        self@ == (*other).spec_bytes()
    }
}

impl<const N: usize, const M: usize> PartialOrd<String<M>> for String<N> {
    /// Ordering is byte-wise lexicographic over the logical content only, so
    /// strings of different capacities compare by what they hold.
    fn partial_cmp(&self, other: &String<M>) -> (r: Option<Ordering>) {
        Some(cmp_bytes(self.raw_content(), other.raw_content()))
    }
}

impl<const N: usize, const M: usize> vstd::std_specs::cmp::PartialOrdSpecImpl<String<M>> for String<N> {
    open spec fn obeys_partial_cmp_spec() -> bool {
        true
    }

    open spec fn partial_cmp_spec(&self, other: &String<M>) -> Option<Ordering> {
        Some(lex_cmp_bytes(self@, other@))
    }
}

/// Law: a character appended to well-formed content can be cancelled again.
/// If two well-formed contents agree once each is extended by one character's
/// encoding, the contents and the characters coincide: popping after a push
/// returns the pushed character and restores the buffer.
pub proof fn lemma_pop_inverts_push(s: Seq<u8>, t: Seq<u8>, c: char, d: char)
    requires
        valid_utf8(s),
        valid_utf8(t),
        t + encode_scalar(d as u32) == s + encode_scalar(c as u32),
    ensures
        t == s,
        d == c,
{
    let e1 = encode_scalar(c as u32);
    let e2 = encode_scalar(d as u32);
    lemma_encode_scalar_shape(c);
    lemma_encode_scalar_shape(d);
    let u = s + e1;
    assert(u.len() == s.len() + e1.len());
    assert(u.len() == t.len() + e2.len());
    if e1.len() == e2.len() {
        assert(t =~= s) by {
            assert forall|j: int| 0 <= j < s.len() implies t[j] == s[j] by {
                assert((t + e2)[j] == t[j]);
                assert((s + e1)[j] == s[j]);
            }
        }
        assert(e1 =~= e2) by {
            assert forall|j: int| 0 <= j < e1.len() implies e1[j] == e2[j] by {
                assert((t + e2)[s.len() + j] == e2[j]);
                assert((s + e1)[s.len() + j] == e1[j]);
            }
        }
        lemma_encode_utf8_singleton(c);
        lemma_encode_utf8_singleton(d);
        vstd::utf8::encode_utf8_decode_utf8(seq![c]);
        vstd::utf8::encode_utf8_decode_utf8(seq![d]);
        assert(seq![c] == decode_utf8(encode_utf8(seq![c])));
        assert(encode_utf8(seq![c]) == encode_utf8(seq![d]));
        assert(seq![c] == seq![d]);
        assert(c == seq![c][0] && d == seq![d][0]);
    } else if e1.len() < e2.len() {
        let p = s.len() as int;
        assert((s + e1)[p] == e1[0]);
        assert(p - t.len() == e2.len() - e1.len());
        assert(1 <= p - t.len() < e2.len());
        assert((t + e2)[p] == e2[p - t.len()]);
        assert(is_continuation_byte(e2[p - t.len()]));
        assert(false);
    } else {
        let p = t.len() as int;
        assert((t + e2)[p] == e2[0]);
        assert(1 <= p - s.len() < e1.len());
        assert((s + e1)[p] == e1[p - s.len()]);
        assert(is_continuation_byte(e1[p - s.len()]));
        assert(false);
    }
}

/// Law: removing at the index where a character was just inserted returns
/// that character and restores the original content.  For well-formed
/// content `s` with a boundary at `i`, the content after inserting `c` at
/// `i` has exactly `c`'s encoding as its character at `i`, and cutting that
/// character out yields `s` again.
pub proof fn lemma_remove_inverts_insert(s: Seq<u8>, i: int, c: char)
    requires
        valid_utf8(s),
        is_char_boundary(s, i),
    ensures
        ({
            let e = encode_scalar(c as u32);
            let t = s.subrange(0, i) + e + s.subrange(i, s.len() as int);
            &&& valid_utf8(t)
            &&& is_char_boundary(t, i)
            &&& i < t.len()
            &&& valid_first_scalar(t.subrange(i, t.len() as int))
            &&& length_of_first_scalar(t.subrange(i, t.len() as int)) == e.len()
            &&& decode_first_scalar(t.subrange(i, t.len() as int)) == c as u32
            &&& t.subrange(i, i + e.len()) == e
            &&& t.subrange(0, i) + t.subrange(i + e.len(), t.len() as int) == s
        }),
{
    lemma_boundary_in_range(s, i);
    let e = encode_scalar(c as u32);
    let t = s.subrange(0, i) + e + s.subrange(i, s.len() as int);
    lemma_encode_scalar_shape(c);
    crate::utf8::lemma_encode_scalar_valid(c);
    valid_utf8_split(s, i);
    vstd::utf8::valid_utf8_concat(s.subrange(0, i), e);
    vstd::utf8::valid_utf8_concat(s.subrange(0, i) + e, s.subrange(i, s.len() as int));
    assert((s.subrange(0, i) + e) + s.subrange(i, s.len() as int) =~= t);
    assert(t.len() == s.len() + e.len());
    assert forall|j: int| 0 <= j < e.len() implies t[i + j] == e[j] by {}
    if i == 0 {
        is_char_boundary_start_end_of_seq(t);
    } else {
        assert(t[i] == e[0]);
        is_char_boundary_iff_not_is_continuation_byte(t, i);
    }
    assert(t.subrange(i, i + e.len()) =~= e);
    lemma_valid_first_scalar_extend(t, i, i + e.len());
    assert(t.subrange(0, i) =~= s.subrange(0, i));
    assert(t.subrange(i + e.len(), t.len() as int) =~= s.subrange(i, s.len() as int));
    assert(s.subrange(0, i) + s.subrange(i, s.len() as int) =~= s);
}

} // verus!
