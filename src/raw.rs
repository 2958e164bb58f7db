//! The generic parser: walks a buffer into raw (key, position, length, value)
//! records without a schema. Nested records are left as opaque bytes.
use vstd::prelude::*;

use crate::error::Error;
use crate::length::{decode_length, parse_length};

verus! {

/// Whether a universal key of `l` bytes fits `buf`: the length field after it
/// decodes, and the key, the length field and the content it declares make
/// up the whole buffer.
pub open spec fn candidate_fits(buf: Seq<u8>, l: nat) -> bool {
    &&& l < buf.len()
    &&& match decode_length(buf.subrange(l as int, buf.len() as int)) {
        Ok((lc, n)) => l + lc + n == buf.len(),
        Err(_) => false,
    }
}

/// The first of the lengths 1, 2, 4 and 16 that fits `buf` as its universal key.
pub open spec fn universal_key_len_of(buf: Seq<u8>) -> Option<nat> {
    if candidate_fits(buf, 1) {
        Some(1)
    } else if candidate_fits(buf, 2) {
        Some(2)
    } else if candidate_fits(buf, 4) {
        Some(4)
    } else if candidate_fits(buf, 16) {
        Some(16)
    } else {
        None
    }
}

/// One raw record as the parser finds it: key, offset of the key byte, offset
/// of the content, content length.
pub struct RawRecord {
    pub key: u8,
    pub position: nat,
    pub start: nat,
    pub length: nat,
}

/// The records of `buf` from `pos` on, appended to `acc`, each read as a key,
/// a length field and that many content bytes.
pub open spec fn raw_walk(buf: Seq<u8>, pos: int, acc: Seq<RawRecord>) -> Result<
    Seq<RawRecord>,
    Error,
>
    decreases buf.len() - pos,
{
    if pos >= buf.len() || pos < 0 {
        Ok(acc)
    } else {
        match decode_length(buf.subrange(pos + 1, buf.len() as int)) {
            Err(e) => Err(e),
            Ok((lc, n)) => {
                let start = pos + 1 + lc;
                if start + n > buf.len() {
                    Err(Error::ExpectedMapEnd)
                } else {
                    raw_walk(
                        buf,
                        start + n,
                        acc.push(
                            RawRecord {
                                key: buf[pos],
                                position: pos as nat,
                                start: start as nat,
                                length: n as nat,
                            },
                        ),
                    )
                }
            },
        }
    }
}

/// A single raw record: its key, the offset of its key byte, its content
/// length, and its content (absent when the length is 0).
#[derive(Debug)]
pub struct KLVRaw<'m> {
    pub key: u8,
    pub position: usize,
    pub length: usize,
    pub value: Option<&'m [u8]>,
}

/// `r` is the raw record `m` of `buf`.
pub open spec fn raw_matches(r: KLVRaw, m: RawRecord, buf: Seq<u8>) -> bool {
    &&& r.key == m.key
    &&& r.position == m.position
    &&& r.length == m.length
    &&& if m.length == 0 {
        r.value is None
    } else {
        r.value is Some && r.value->Some_0@ == buf.subrange(
            m.start as int,
            (m.start + m.length) as int,
        )
    }
}

impl<'m> KLVRaw<'m> {
    /// A record whose content is the first `length` bytes of `value`.
    pub fn from(key: u8, position: usize, length: usize, value: &'m [u8]) -> (r: Self)
        requires
            length <= value@.len(),
        ensures
            r.key == key,
            r.position == position,
            r.length == length,
            length == 0 ==> r.value is None,
            length > 0 ==> r.value is Some && r.value->Some_0@ == value@.subrange(
                0,
                length as int,
            ),
    {
        if length > 0 {
            KLVRaw { key, position, length, value: Some(&value[0..length]) }
        } else {
            KLVRaw { key, position, length, value: None }
        }
    }
}

/// A buffer parsed without a schema: its universal key, its declared content
/// length, and its top-level records in order.
#[derive(Debug)]
pub struct KLVMap<'m> {
    universal_key: &'m [u8],
    content_len: usize,
    values: Vec<KLVRaw<'m>>,
}

impl<'m> KLVMap<'m> {
    pub closed spec fn spec_universal_key(&self) -> Seq<u8> {
        self.universal_key@
    }

    pub closed spec fn spec_content_len(&self) -> usize {
        self.content_len
    }

    pub closed spec fn spec_records(&self) -> Seq<KLVRaw<'m>> {
        self.values@
    }

    /// Parses `buf`: finds the universal key length (first fit among 1, 2, 4
    /// and 16), reads the outer length, then reads records to the end.
    pub fn try_from_bytes(buf: &'m [u8]) -> (r: Result<Self, Error>)
        ensures
            match universal_key_len_of(buf@) {
                None => r == Err::<Self, Error>(Error::ContentLength),
                Some(l) => {
                    let (lc, n) = decode_length(buf@.subrange(l as int, buf@.len() as int))->Ok_0;
                    match raw_walk(buf@, l + lc, Seq::empty()) {
                        Err(e) => r is Err && r->Err_0 == e,
                        Ok(recs) => {
                            &&& r is Ok
                            &&& r->Ok_0.spec_universal_key() == buf@.subrange(0, l as int)
                            &&& r->Ok_0.spec_content_len() == n
                            &&& r->Ok_0.spec_records().len() == recs.len()
                            &&& forall|i: int|
                                0 <= i < recs.len() ==> raw_matches(
                                    #[trigger] r->Ok_0.spec_records()[i],
                                    recs[i],
                                    buf@,
                                )
                        },
                    }
                },
            },
    {
        let buf_len = buf.len();
        let uk_len = match Self::find_universal_key(buf) {
            Err(e) => {
                return Err(e);
            },
            Ok(l) => l,
        };
        let universal_key = &buf[0..uk_len];
        let (length_len, content_len) = match parse_length(&buf[uk_len..buf_len]) {
            Err(e) => {
                return Err(e);
            },
            Ok(h) => h,
        };
        let mut position = uk_len + length_len;
        let mut values: Vec<KLVRaw<'m>> = Vec::new();
        let ghost mut acc: Seq<RawRecord> = Seq::empty();
        while position < buf_len
            invariant
                buf_len == buf@.len(),
                universal_key_len_of(buf@) == Some(uk_len as nat),
                decode_length(buf@.subrange(uk_len as int, buf@.len() as int)) == Ok::<
                    (usize, usize),
                    Error,
                >((length_len, content_len)),
                uk_len + length_len <= position <= buf_len,
                raw_walk(buf@, (uk_len + length_len) as int, Seq::empty()) == raw_walk(
                    buf@,
                    position as int,
                    acc,
                ),
                values@.len() == acc.len(),
                forall|i: int|
                    0 <= i < acc.len() ==> raw_matches(#[trigger] values@[i], acc[i], buf@),
            decreases buf_len - position,
        {
            proof {
                assert(buf@.subrange(position + 1, buf_len as int) =~= buf@.subrange(
                    position + 1,
                    buf_len as int,
                ));
            }
            let (lc, n) = match parse_length(&buf[position + 1..buf_len]) {
                Err(e) => {
                    proof {
                        assert(raw_walk(buf@, position as int, acc) == Err::<Seq<RawRecord>, Error>(e));
                    }
                    return Err(e);
                },
                Ok(h) => h,
            };
            let start = position + 1 + lc;
            if n > buf_len - start {
                proof {
                    assert(raw_walk(buf@, position as int, acc) == Err::<Seq<RawRecord>, Error>(
                        Error::ExpectedMapEnd,
                    ));
                }
                return Err(Error::ExpectedMapEnd);
            }
            let raw = KLVRaw::from(buf[position], position, n, &buf[start..buf_len]);
            let ghost rec = RawRecord {
                key: buf@[position as int],
                position: position as nat,
                start: start as nat,
                length: n as nat,
            };
            proof {
                assert(buf@.subrange(start as int, buf_len as int).subrange(0, n as int)
                    =~= buf@.subrange(start as int, start + n));
                acc = acc.push(rec);
            }
            values.push(raw);
            position = start + n;
        }
        Ok(KLVMap { universal_key, content_len, values })
    }

    /// The universal key.
    pub fn universal_key(&self) -> (r: &[u8])
        ensures
            r@ == self.spec_universal_key(),
    {
        self.universal_key
    }

    /// The content length the outer length field declares.
    pub fn content_len(&self) -> (r: usize)
        ensures
            r == self.spec_content_len(),
    {
        self.content_len
    }

    /// The top-level records, in order.
    pub fn iter(&self) -> (r: &[KLVRaw<'m>])
        ensures
            r@ == self.spec_records(),
    {
        self.values.as_slice()
    }

    /// The first of the lengths 1, 2, 4 and 16 that fits `buf` as its
    /// universal key.
    fn find_universal_key(buf: &[u8]) -> (r: Result<usize, Error>)
        ensures
            match universal_key_len_of(buf@) {
                Some(l) => r == Ok::<usize, Error>(l as usize),
                None => r == Err::<usize, Error>(Error::ContentLength),
            },
    {
        if Self::fits(buf, 1) {
            Ok(1)
        } else if Self::fits(buf, 2) {
            Ok(2)
        } else if Self::fits(buf, 4) {
            Ok(4)
        } else if Self::fits(buf, 16) {
            Ok(16)
        } else {
            Err(Error::ContentLength)
        }
    }

    /// Whether a universal key of `l` bytes fits `buf`.
    fn fits(buf: &[u8], l: usize) -> (r: bool)
        ensures
            r == candidate_fits(buf@, l as nat),
    {
        let buf_len = buf.len();
        if l >= buf_len {
            return false;
        }
        match parse_length(&buf[l..buf_len]) {
            Err(_) => false,
            Ok((length_len, content_len)) => {
                length_len <= buf_len - l && content_len == buf_len - l - length_len
            },
        }
    }
}

} // verus!
