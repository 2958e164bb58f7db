//! The structured encoder: a stack of frames, each a growing byte buffer with
//! the keys already written into it. A field's value is written into a fresh
//! frame first; only then are its key and length known and written, with the
//! value, into the frame below.
use vstd::prelude::*;

use crate::checksum::{checksum_header, CheckSumCalc, CHECKSUM_KEY, CHECKSUM_LENGTH};
use crate::error::{Error, KeyError};
use crate::length::{
    check_universal_key_len, contains_byte, encode_length, extend_bytes, push_be,
    valid_universal_key_len, be_bytes, lemma_be_bytes_len, LengthOctet,
};
use crate::value::{
    enc_fields, enc_list, enc_message, enc_value, is_written, key_written, scalar_bytes, Field,
    Message, Value,
};

verus! {

/// The buffer that is checksummed: universal key, length of the content with
/// the trailer, content, and the trailer's key and length.
pub open spec fn framed_for_checksum(uk: Seq<u8>, content: Seq<u8>) -> Seq<u8> {
    uk + encode_length(content.len() + 4) + content + checksum_header()
}

/// The encoding of a message with a checksum trailer: the key of the trailer
/// is reserved at the outermost depth, and the checksum of everything before
/// it ends the buffer, big-endian.
pub open spec fn enc_message_with_checksum<C: CheckSumCalc>(m: Message, calc: C) -> Result<
    Seq<u8>,
    Error,
> {
    if !valid_universal_key_len(m.universal_key@.len()) {
        Err(Error::Key(KeyError::UniversalKeyLength(m.universal_key@.len() as usize)))
    } else {
        match enc_fields(m.fields@, seq![CHECKSUM_KEY]) {
            Err(e) => Err(e),
            Ok(c) => {
                if c.len() + 4 > usize::MAX {
                    Err(Error::ContentLength)
                } else {
                    let f = framed_for_checksum(m.universal_key@, c);
                    Ok(f + be_bytes(calc.spec_checksum(f) as nat, 2))
                }
            },
        }
    }
}

/// An error met part way through a run of fields is the error of the whole run.
pub proof fn lemma_enc_fields_err_extends(fs: Seq<Field>, n: int, reserved: Seq<u8>)
    requires
        0 <= n <= fs.len(),
        enc_fields(fs.subrange(0, n), reserved) is Err,
    ensures
        enc_fields(fs, reserved) == enc_fields(fs.subrange(0, n), reserved),
    decreases fs.len() - n,
{
    if n < fs.len() {
        let next = fs.subrange(0, n + 1);
        assert(next.subrange(0, n) =~= fs.subrange(0, n));
        lemma_enc_fields_err_extends(fs, n + 1, reserved);
    } else {
        assert(fs.subrange(0, n) =~= fs);
    }
}

/// An error met part way through a sequence is the error of the sequence.
pub proof fn lemma_enc_list_err_extends(s: Seq<Value>, n: int)
    requires
        0 <= n <= s.len(),
        enc_list(s.subrange(0, n)) is Err,
    ensures
        enc_list(s) == enc_list(s.subrange(0, n)),
    decreases s.len() - n,
{
    if n < s.len() {
        let next = s.subrange(0, n + 1);
        assert(next.subrange(0, n) =~= s.subrange(0, n));
        lemma_enc_list_err_extends(s, n + 1);
    } else {
        assert(s.subrange(0, n) =~= s);
    }
}

/// The encoder's state: the universal key, the frame stack (each frame's
/// buffer and the keys written into it) and the keys reserved at depth 0.
pub struct KLVSerializer {
    universal_key: Vec<u8>,
    output: Vec<Vec<u8>>,
    keys: Vec<Vec<u8>>,
    reserved_key: Vec<u8>,
}

impl KLVSerializer {
    /// Buffers and key sets come in pairs, and the outermost frame is always there.
    pub closed spec fn wf(&self) -> bool {
        &&& self.output@.len() == self.keys@.len()
        &&& self.output@.len() >= 1
    }

    /// The number of frames.
    pub closed spec fn frames(&self) -> nat {
        self.output@.len()
    }

    /// The buffer of frame `i`.
    pub closed spec fn buffer(&self, i: int) -> Seq<u8> {
        self.output@[i]@
    }

    /// The keys written into frame `i`.
    pub closed spec fn keys_of(&self, i: int) -> Seq<u8> {
        self.keys@[i]@
    }

    /// The innermost buffer.
    pub open spec fn top(&self) -> Seq<u8> {
        self.buffer(self.frames() - 1)
    }

    pub closed spec fn reserved(&self) -> Seq<u8> {
        self.reserved_key@
    }

    pub closed spec fn universal(&self) -> Seq<u8> {
        self.universal_key@
    }

    /// The keys that may not be used in frame `i`: the reserved ones at depth
    /// 0, none deeper.
    pub open spec fn reserved_at(&self, i: int) -> Seq<u8> {
        if i == 0 {
            self.reserved()
        } else {
            Seq::empty()
        }
    }

    /// `other` has the same frames as `self` below frame `n`, and the same
    /// fixed parts.
    pub open spec fn same_below(&self, other: &Self, n: int) -> bool {
        &&& forall|i: int| 0 <= i < n ==> #[trigger] other.buffer(i) == self.buffer(i)
        &&& forall|i: int| 0 <= i < n ==> #[trigger] other.keys_of(i) == self.keys_of(i)
        &&& other.reserved() == self.reserved()
        &&& other.universal() == self.universal()
    }

    /// An encoder with one empty frame and the given reserved keys.
    pub fn with_reserved_key(reserved_key: Vec<u8>) -> (s: Self)
        ensures
            s.wf(),
            s.frames() == 1,
            s.buffer(0) == Seq::<u8>::empty(),
            s.keys_of(0) == Seq::<u8>::empty(),
            s.reserved() == reserved_key@,
            s.universal() == Seq::<u8>::empty(),
    {
        let mut output: Vec<Vec<u8>> = Vec::new();
        output.push(Vec::new());
        let mut keys: Vec<Vec<u8>> = Vec::new();
        keys.push(Vec::new());
        KLVSerializer { universal_key: Vec::new(), output, keys, reserved_key }
    }

    /// Opens a new, empty frame.
    fn next_depth(&mut self)
        requires
            old(self).wf(),
        ensures
            final(self).wf(),
            final(self).frames() == old(self).frames() + 1,
            old(self).same_below(final(self), old(self).frames() as int),
            final(self).top() == Seq::<u8>::empty(),
            final(self).keys_of(final(self).frames() - 1) == Seq::<u8>::empty(),
    {
        self.output.push(Vec::new());
        self.keys.push(Vec::new());
    }

    /// Closes the innermost frame and hands back its buffer.
    fn end_depth(&mut self) -> (cache: Vec<u8>)
        requires
            old(self).wf(),
            old(self).frames() >= 2,
        ensures
            final(self).wf(),
            final(self).frames() == old(self).frames() - 1,
            old(self).same_below(final(self), final(self).frames() as int),
            cache@ == old(self).top(),
    {
        let cache = self.output.pop().unwrap();
        let _keys = self.keys.pop();
        cache
    }

    /// Appends bytes to the innermost buffer.
    fn append_top(&mut self, data: &[u8])
        requires
            old(self).wf(),
        ensures
            final(self).wf(),
            final(self).frames() == old(self).frames(),
            old(self).same_below(final(self), old(self).frames() - 1),
            final(self).keys_of(final(self).frames() - 1) == old(self).keys_of(
                old(self).frames() - 1,
            ),
            final(self).top() == old(self).top() + data@,
    {
        let mut cache = self.output.pop().unwrap();
        extend_bytes(&mut cache, data);
        self.output.push(cache);
    }

    /// Appends the `n` lowest-order bytes of `v`, big-endian, to the innermost buffer.
    fn append_top_be(&mut self, v: u64, n: usize)
        requires
            old(self).wf(),
            n <= 8,
        ensures
            final(self).wf(),
            final(self).frames() == old(self).frames(),
            old(self).same_below(final(self), old(self).frames() - 1),
            final(self).keys_of(final(self).frames() - 1) == old(self).keys_of(
                old(self).frames() - 1,
            ),
            final(self).top() == old(self).top() + be_bytes(v as nat, n as nat),
    {
        let mut cache = self.output.pop().unwrap();
        push_be(&mut cache, v, n);
        self.output.push(cache);
    }

    /// Forgets the keys written into the innermost frame.
    fn clear_top_keys(&mut self)
        requires
            old(self).wf(),
        ensures
            final(self).wf(),
            final(self).frames() == old(self).frames(),
            old(self).same_below(final(self), old(self).frames() - 1),
            final(self).top() == old(self).top(),
            final(self).keys_of(final(self).frames() - 1) == Seq::<u8>::empty(),
    {
        let _keys = self.keys.pop();
        self.keys.push(Vec::new());
    }

    /// Writes a field key into the frame below the innermost one, unless it is
    /// reserved there or already written there.
    fn write_key(&mut self, key: u8) -> (r: Result<(), Error>)
        requires
            old(self).wf(),
            old(self).frames() >= 2,
        ensures
            final(self).wf(),
            final(self).frames() == old(self).frames(),
            ({
                let p = old(self).frames() - 2;
                if old(self).reserved_at(p).contains(key) {
                    r == Err::<(), Error>(Error::Key(KeyError::Reserved(key))) && *final(self)
                        == *old(self)
                } else if old(self).keys_of(p).contains(key) {
                    r == Err::<(), Error>(Error::Key(KeyError::Duplicate(key))) && *final(self)
                        == *old(self)
                } else {
                    &&& r is Ok
                    &&& old(self).same_below(final(self), p)
                    &&& final(self).buffer(p) == old(self).buffer(p).push(key)
                    &&& final(self).keys_of(p) == old(self).keys_of(p).push(key)
                    &&& final(self).top() == old(self).top()
                    &&& final(self).keys_of(p + 1) == old(self).keys_of(p + 1)
                }
            }),
    {
        let index = self.output.len() - 2;
        if index == 0 && contains_byte(self.reserved_key.as_slice(), key) {
            return Err(Error::Key(KeyError::Reserved(key)));
        }
        if contains_byte(self.keys[index].as_slice(), key) {
            return Err(Error::Key(KeyError::Duplicate(key)));
        }
        let cache = self.output.pop().unwrap();
        let mut parent = self.output.pop().unwrap();
        parent.push(key);
        self.output.push(parent);
        self.output.push(cache);
        let cache_keys = self.keys.pop().unwrap();
        let mut parent_keys = self.keys.pop().unwrap();
        parent_keys.push(key);
        self.keys.push(parent_keys);
        self.keys.push(cache_keys);
        Ok(())
    }

    /// The innermost buffer.
    pub fn get_cache(&self) -> (r: &Vec<u8>)
        requires
            self.wf(),
        ensures
            r@ == self.top(),
    {
        &self.output[self.output.len() - 1]
    }

    /// Closes the innermost frame and writes its length and its bytes into
    /// the frame below.
    fn write_lv(&mut self)
        requires
            old(self).wf(),
            old(self).frames() >= 2,
        ensures
            final(self).wf(),
            final(self).frames() == old(self).frames() - 1,
            old(self).same_below(final(self), final(self).frames() - 1),
            final(self).top() == old(self).buffer(old(self).frames() - 2) + encode_length(
                old(self).top().len(),
            ) + old(self).top(),
            final(self).keys_of(final(self).frames() - 1) == old(self).keys_of(
                old(self).frames() - 2,
            ),
    {
        let ghost s0 = *self;
        let cache = self.end_depth();
        let ghost s1 = *self;
        let mut parent = self.output.pop().unwrap();
        let ghost p0 = parent@;
        let _n = LengthOctet::length_to_buf(&mut parent, cache.len());
        extend_bytes(&mut parent, cache.as_slice());
        self.output.push(parent);
        proof {
            assert(s1.buffer(s1.frames() - 1) == s0.buffer(s1.frames() - 1));
            assert(p0 == s1.buffer(s1.frames() - 1));
            assert(s1.keys_of(s1.frames() - 1) == s0.keys_of(s1.frames() - 1));
            assert(self.keys@ == s1.keys@);
            assert forall|i: int| 0 <= i < self.frames() - 1 implies #[trigger] self.buffer(i)
                == s0.buffer(i) by {
                assert(self.buffer(i) == s1.buffer(i));
            }
            assert forall|i: int| 0 <= i < self.frames() - 1 implies #[trigger] self.keys_of(i)
                == s0.keys_of(i) by {
                assert(self.keys_of(i) == s1.keys_of(i));
            }
        }
    }

    /// Writes the content of a value into the innermost frame.
    fn serialize_value(&mut self, v: &Value) -> (r: Result<(), Error>)
        requires
            old(self).wf(),
            old(self).frames() >= 2,
        ensures
            final(self).wf(),
            r is Ok ==> final(self).frames() == old(self).frames() && old(self).same_below(
                final(self),
                old(self).frames() - 1,
            ),
            match enc_value(*v) {
                Ok(b) => r is Ok && final(self).top() == old(self).top() + b,
                Err(e) => r == Err::<(), Error>(e),
            },
        decreases *v,
    {
        proof {
            lemma_be_bytes_len(0, 0);
        }
        match v {
            Value::Bool(b) => {
                let byte: u8 = if *b { 1 } else { 0 };
                let data = [byte];
                self.append_top(&data);
                proof {
                    assert(data@ =~= scalar_bytes(*v));
                }
                Ok(())
            },
            Value::U8(x) => {
                self.append_top_be(*x as u64, 1);
                Ok(())
            },
            Value::U16(x) => {
                self.append_top_be(*x as u64, 2);
                Ok(())
            },
            Value::U32(x) => {
                self.append_top_be(*x as u64, 4);
                Ok(())
            },
            Value::U64(x) => {
                self.append_top_be(*x, 8);
                Ok(())
            },
            Value::I8(x) => {
                self.append_top_be((*x as u8) as u64, 1);
                Ok(())
            },
            Value::I16(x) => {
                self.append_top_be((*x as u16) as u64, 2);
                Ok(())
            },
            Value::I32(x) => {
                self.append_top_be((*x as u32) as u64, 4);
                Ok(())
            },
            Value::I64(x) => {
                self.append_top_be(*x as u64, 8);
                Ok(())
            },
            Value::Char(c) => {
                self.append_top_be((*c as u32) as u64, 4);
                Ok(())
            },
            Value::Str(s) => {
                self.append_top(s.as_str().as_bytes());
                Ok(())
            },
            Value::Bytes(b) => {
                self.append_top(b.as_slice());
                Ok(())
            },
            Value::Unit => {
                proof {
                    assert(old(self).top() + Seq::<u8>::empty() =~= old(self).top());
                }
                Ok(())
            },
            Value::Absent => {
                proof {
                    assert(old(self).top() + Seq::<u8>::empty() =~= old(self).top());
                }
                Ok(())
            },
            Value::Present(inner) => self.serialize_value(&**inner),
            Value::List(items) => self.serialize_list(items),
            Value::Record(fields) => {
                self.clear_top_keys();
                let r = self.serialize_record(fields);
                r
            },
        }
    }

    /// Writes the elements of a sequence back to back into the innermost frame.
    fn serialize_list(&mut self, items: &Vec<Value>) -> (r: Result<
        (),
        Error,
    >)
        requires
            old(self).wf(),
            old(self).frames() >= 2,
        ensures
            final(self).wf(),
            r is Ok ==> final(self).frames() == old(self).frames() && old(self).same_below(
                final(self),
                old(self).frames() - 1,
            ),
            match enc_list(items@) {
                Ok(b) => r is Ok && final(self).top() == old(self).top() + b,
                Err(e) => r == Err::<(), Error>(e),
            },
        decreases *items,
    {
        let mut i: usize = 0;
        proof {
            assert(items@.subrange(0, 0) =~= Seq::<Value>::empty());
            assert(old(self).top() + Seq::<u8>::empty() =~= old(self).top());
        }
        while i < items.len()
            invariant
                i <= items@.len(),
                self.wf(),
                self.frames() == old(self).frames(),
                old(self).frames() >= 2,
                old(self).same_below(self, old(self).frames() - 1),
                enc_list(items@.subrange(0, i as int)) is Ok,
                self.top() == old(self).top() + enc_list(items@.subrange(0, i as int))->Ok_0,
            decreases items@.len() - i,
        {
            let ghost prefix = items@.subrange(0, i as int);
            let ghost next = items@.subrange(0, i + 1);
            proof {
                assert(next.subrange(0, i as int) =~= prefix);
                assert(next[next.len() - 1] == items@[i as int]);
            }
            proof {
                assert(decreases_to!(*items => items@));
                assert(decreases_to!(items@ => items@[i as int]));
            }
            let r = self.serialize_value(&items[i]);
            match r {
                Err(e) => {
                    proof {
                        lemma_enc_list_err_extends(items@, i + 1);
                    }
                    return Err(e);
                },
                Ok(()) => {},
            }
            proof {
                assert(self.top() =~= old(self).top() + enc_list(next)->Ok_0);
            }
            i = i + 1;
        }
        proof {
            assert(items@.subrange(0, items@.len() as int) =~= items@);
        }
        Ok(())
    }

    /// Writes the records of `fields` into the innermost frame: each value in
    /// a frame of its own, then its key, its length and the value itself.
    fn serialize_record(&mut self, fields: &Vec<Field>) -> (r: Result<
        (),
        Error,
    >)
        requires
            old(self).wf(),
            old(self).keys_of(old(self).frames() - 1) == Seq::<u8>::empty(),
        ensures
            final(self).wf(),
            r is Ok ==> final(self).frames() == old(self).frames() && old(self).same_below(
                final(self),
                old(self).frames() - 1,
            ),
            match enc_fields(fields@, old(self).reserved_at(old(self).frames() - 1)) {
                Ok(b) => r is Ok && final(self).top() == old(self).top() + b,
                Err(e) => r == Err::<(), Error>(e),
            },
        decreases *fields,
    {
        let ghost depth = old(self).frames() - 1;
        let ghost reserved = old(self).reserved_at(depth);
        let mut i: usize = 0;
        proof {
            assert(fields@.subrange(0, 0) =~= Seq::<Field>::empty());
            assert(old(self).top() + Seq::<u8>::empty() =~= old(self).top());
        }
        while i < fields.len()
            invariant
                i <= fields@.len(),
                    depth == old(self).frames() - 1,
                reserved == old(self).reserved_at(depth),
                self.wf(),
                self.frames() == old(self).frames(),
                old(self).same_below(self, depth),
                enc_fields(fields@.subrange(0, i as int), reserved) is Ok,
                self.top() == old(self).top() + enc_fields(
                    fields@.subrange(0, i as int),
                    reserved,
                )->Ok_0,
                forall|k: u8|
                    self.keys_of(depth).contains(k) <==> key_written(
                        fields@.subrange(0, i as int),
                        k,
                    ),
            decreases fields@.len() - i,
        {
            let ghost prefix = fields@.subrange(0, i as int);
            let ghost next = fields@.subrange(0, i + 1);
            let ghost keys_before = self.keys_of(depth);
            proof {
                assert(next.subrange(0, i as int) =~= prefix);
                assert(next[next.len() - 1] == fields@[i as int]);
            }
            let f = &fields[i];
            let absent = match f.value {
                Value::Absent => true,
                _ => false,
            };
            if f.skip_if_absent && absent {
                proof {
                    assert forall|k: u8|
                        self.keys_of(depth).contains(k) <==> key_written(next, k) by {
                        if key_written(next, k) {
                            let j = choose|j: int|
                                0 <= j < next.len() && is_written(next[j]) && next[j].key
                                    == k as i32;
                            assert(prefix[j] == next[j]);
                        }
                        if key_written(prefix, k) {
                            let j = choose|j: int|
                                0 <= j < prefix.len() && is_written(prefix[j]) && prefix[j].key
                                    == k as i32;
                            assert(prefix[j] == next[j]);
                        }
                    }
                }
                i = i + 1;
                continue;
            }
            if f.key < 0 || f.key > 255 {
                proof {
                    lemma_enc_fields_err_extends(fields@, i + 1, reserved);
                }
                return Err(Error::Key(KeyError::OutOfRange(f.key)));
            }
            let key = f.key as u8;
            self.next_depth();
            proof {
                assert(decreases_to!(*fields => fields@));
                assert(decreases_to!(fields@ => fields@[i as int]));
                assert(decreases_to!(fields@[i as int] => fields@[i as int].value));
            }
            let r = self.serialize_value(&f.value);
            match r {
                Err(e) => {
                    proof {
                        lemma_enc_fields_err_extends(fields@, i + 1, reserved);
                    }
                    return Err(e);
                },
                Ok(()) => {},
            }
            proof {
                assert(old(self).reserved_at(depth) == self.reserved_at(depth));
                assert(self.keys_of(depth) == keys_before);
            }
            let w = self.write_key(key);
            match w {
                Err(e) => {
                    proof {
                        lemma_enc_fields_err_extends(fields@, i + 1, reserved);
                    }
                    return Err(e);
                },
                Ok(()) => {},
            }
            self.write_lv();
            proof {
                assert(self.top() =~= old(self).top() + enc_fields(next, reserved)->Ok_0);
                let ks = keys_before.push(key);
                assert(self.keys_of(depth) == ks);
                assert forall|k: u8| ks.contains(k) <==> key_written(next, k) by {
                    if ks.contains(k) {
                        let j = choose|j: int| 0 <= j < ks.len() && ks[j] == k;
                        if j < keys_before.len() {
                            assert(keys_before.contains(k));
                            let m = choose|m: int|
                                0 <= m < prefix.len() && is_written(prefix[m]) && prefix[m].key
                                    == k as i32;
                            assert(prefix[m] == next[m]);
                        } else {
                            assert(next[i as int] == fields@[i as int]);
                            assert(is_written(next[i as int]) && next[i as int].key == k as i32);
                        }
                    }
                    if key_written(next, k) {
                        let j = choose|j: int|
                            0 <= j < next.len() && is_written(next[j]) && next[j].key == k
                                as i32;
                        if j < i {
                            assert(prefix[j] == next[j]);
                            assert(key_written(prefix, k));
                            assert(keys_before.contains(k));
                            let m = choose|m: int| 0 <= m < keys_before.len() && keys_before[m] == k;
                            assert(ks[m] == k);
                        } else {
                            assert(ks[ks.len() - 1] == key);
                        }
                    }
                }
            }
            i = i + 1;
        }
        proof {
            assert(fields@.subrange(0, fields@.len() as int) =~= fields@);
        }
        Ok(())
    }
    /// Starts a message: checks and keeps its universal key, then writes the
    /// records of its fields into the outermost frame.
    pub fn serialize_struct(&mut self, m: &Message) -> (r: Result<(), Error>)
        requires
            old(self).wf(),
            old(self).frames() == 1,
            old(self).buffer(0) == Seq::<u8>::empty(),
            old(self).keys_of(0) == Seq::<u8>::empty(),
            old(self).universal() == Seq::<u8>::empty(),
        ensures
            final(self).wf(),
            !valid_universal_key_len(m.universal_key@.len()) ==> r == Err::<(), Error>(
                Error::Key(KeyError::UniversalKeyLength(m.universal_key@.len() as usize)),
            ),
            valid_universal_key_len(m.universal_key@.len()) ==> match enc_fields(
                m.fields@,
                old(self).reserved(),
            ) {
                Ok(b) => {
                    &&& r is Ok
                    &&& final(self).frames() == 1
                    &&& final(self).buffer(0) == b
                    &&& final(self).universal() == m.universal_key@
                    &&& final(self).reserved() == old(self).reserved()
                },
                Err(e) => r == Err::<(), Error>(e),
            },
    {
        match check_universal_key_len(m.universal_key.as_slice()) {
            Err(e) => {
                return Err(e);
            },
            Ok(_) => {},
        }
        extend_bytes(&mut self.universal_key, m.universal_key.as_slice());
        let r = self.serialize_record(&m.fields);
        proof {
            assert(Seq::<u8>::empty() + m.universal_key@ =~= m.universal_key@);
            if r is Ok {
                assert(old(self).top() + enc_fields(m.fields@, old(self).reserved())->Ok_0
                    =~= enc_fields(m.fields@, old(self).reserved())->Ok_0);
            }
        }
        r
    }

    /// The finished buffer: universal key, content length, content.
    pub fn concat(self) -> (r: Vec<u8>)
        requires
            self.wf(),
            self.frames() == 1,
        ensures
            r@ == self.universal() + encode_length(self.buffer(0).len()) + self.buffer(0),
    {
        let KLVSerializer { universal_key: mut key, mut output, .. } = self;
        let out = output.pop().unwrap();
        let _n = LengthOctet::length_to_buf(&mut key, out.len());
        extend_bytes(&mut key, out.as_slice());
        key
    }

    /// The finished buffer with a checksum trailer: the content length counts
    /// the trailer's four bytes, and the checksum covers everything before it.
    fn concat_with_checksum<C: CheckSumCalc>(self, crc: &C) -> (r: Result<Vec<u8>, Error>)
        requires
            self.wf(),
            self.frames() == 1,
        ensures
            self.buffer(0).len() + 4 > usize::MAX ==> r == Err::<Vec<u8>, Error>(
                Error::ContentLength,
            ),
            self.buffer(0).len() + 4 <= usize::MAX ==> ({
                let f = framed_for_checksum(self.universal(), self.buffer(0));
                r is Ok && r->Ok_0@ == f + be_bytes(crc.spec_checksum(f) as nat, 2)
            }),
    {
        let KLVSerializer { universal_key: mut key, mut output, .. } = self;
        let out = output.pop().unwrap();
        if out.len() > usize::MAX - 4 {
            return Err(Error::ContentLength);
        }
        let _n = LengthOctet::length_to_buf(&mut key, out.len() + 4);
        extend_bytes(&mut key, out.as_slice());
        key.push(CHECKSUM_KEY);
        key.push(CHECKSUM_LENGTH);
        let ghost framed = key@;
        let crc_code = crc.checksum(key.as_slice());
        push_be(&mut key, crc_code as u64, 2);
        proof {
            assert(framed =~= framed_for_checksum(self.universal(), self.buffer(0)));
        }
        Ok(key)
    }
}

impl Default for KLVSerializer {
    /// An encoder with one empty frame and no reserved key.
    fn default() -> (s: Self)
        ensures
            s.wf(),
            s.frames() == 1,
            s.buffer(0) == Seq::<u8>::empty(),
            s.keys_of(0) == Seq::<u8>::empty(),
            s.reserved() == Seq::<u8>::empty(),
            s.universal() == Seq::<u8>::empty(),
    {
        KLVSerializer::with_reserved_key(Vec::new())
    }
}

/// Encodes a message: universal key, content length, then one record per
/// written field, nested records in turn as records.
pub fn to_bytes(value: &Message) -> (r: Result<Vec<u8>, Error>)
    ensures
        match enc_message(*value, Seq::empty()) {
            Ok(b) => r is Ok && r->Ok_0@ == b,
            Err(e) => r == Err::<Vec<u8>, Error>(e),
        },
{
    let mut serializer = KLVSerializer::default();
    match serializer.serialize_struct(value) {
        Err(e) => Err(e),
        Ok(()) => Ok(serializer.concat()),
    }
}

/// Encodes a message and appends a checksum trailer computed by `calc`. The
/// trailer's key may not be used by a field at the outermost depth.
pub fn to_bytes_with_crc<C: CheckSumCalc>(value: &Message, calc: C) -> (r: Result<Vec<u8>, Error>)
    ensures
        match enc_message_with_checksum(*value, calc) {
            Ok(b) => r is Ok && r->Ok_0@ == b,
            Err(e) => r == Err::<Vec<u8>, Error>(e),
        },
{
    let mut reserved_key: Vec<u8> = Vec::new();
    reserved_key.push(CHECKSUM_KEY);
    let mut serializer = KLVSerializer::with_reserved_key(reserved_key);
    proof {
        assert(serializer.reserved() =~= seq![CHECKSUM_KEY]);
    }
    match serializer.serialize_struct(value) {
        Err(e) => Err(e),
        Ok(()) => serializer.concat_with_checksum(&calc),
    }
}

} // verus!
