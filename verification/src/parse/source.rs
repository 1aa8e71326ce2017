use vstd::prelude::*;
use vstd::utf8::*;

use crate::text::{from_utf8, lemma_ascii_byte_valid, lemma_encode_utf8_add};

verus! {

/// The offset of the first byte at or after `from` that is one of `stops`,
/// when all the bytes read up to it are ASCII; `None` when the source ends
/// first, or a byte that is not ASCII comes first.
pub open spec fn ascii_scan(bytes: Seq<u8>, from: int, stops: Seq<u8>) -> Option<int>
    decreases bytes.len() - from,
{
    if from < 0 || from >= bytes.len() {
        None
    } else if bytes[from] >= 0x80 {
        None
    } else if stops.contains(bytes[from]) {
        Some(from)
    } else {
        ascii_scan(bytes, from + 1, stops)
    }
}

pub proof fn lemma_ascii_scan(bytes: Seq<u8>, from: int, stops: Seq<u8>)
    ensures
        ascii_scan(bytes, from, stops) matches Some(i) ==> {
            &&& 0 <= from <= i < bytes.len()
            &&& bytes[i] < 0x80
            &&& stops.contains(bytes[i])
            &&& forall|k: int| from <= k < i ==> #[trigger] bytes[k] < 0x80 && !stops.contains(bytes[k])
        },
    decreases bytes.len() - from,
{
    if 0 <= from < bytes.len() && bytes[from] < 0x80 && !stops.contains(bytes[from]) {
        lemma_ascii_scan(bytes, from + 1, stops);
    }
}

/// Source text being read byte by byte, with the position of the next byte.
pub struct Source {
    bytes: Vec<u8>,
    pos: usize,
}

impl Source {
    #[verifier::type_invariant]
    spec fn wf(self) -> bool {
        self.pos <= self.bytes@.len()
    }

    /// All the bytes of the source.
    pub closed spec fn data(self) -> Seq<u8> {
        self.bytes@
    }

    /// The offset of the next byte to read.
    pub closed spec fn position(self) -> nat {
        self.pos as nat
    }

    /// A source positioned at its first byte.
    pub fn new(bytes: Vec<u8>) -> (r: Self)
        ensures
            r.data() == bytes@,
            r.position() == 0,
    {
        Source { bytes, pos: 0 }
    }

    /// The offset of the next byte to read.
    pub fn offset(&self) -> (r: usize)
        ensures
            r == self.position(),
    {
        self.pos
    }

    /// Reads the next byte into `buf` and returns 1; at the end of the source
    /// leaves `buf` as it was and returns 0.
    pub fn read(&mut self, buf: &mut u8) -> (n: usize)
        ensures
            final(self).data() == old(self).data(),
            old(self).data().len() <= usize::MAX,
            old(self).position() < old(self).data().len() ==> n == 1 && *final(buf) == old(
                self,
            ).data()[old(self).position() as int] && final(self).position() == old(self).position()
                + 1,
            old(self).position() >= old(self).data().len() ==> n == 0 && *final(buf) == *old(buf)
                && final(self).position() == old(self).position(),
    {
        proof {
            use_type_invariant(&*self);
        }
        if self.pos < self.bytes.len() {
            *buf = self.bytes[self.pos];
            self.pos += 1;
            1
        } else {
            0
        }
    }

    /// Moves back by one byte.
    pub fn unread(&mut self)
        requires
            old(self).position() > 0,
        ensures
            final(self).data() == old(self).data(),
            final(self).position() == old(self).position() - 1,
    {
        proof {
            use_type_invariant(&*self);
        }
        self.pos -= 1;
    }

    /// Reads bytes into `buf` up to and including the first `delim`, or to
    /// the end of the source; returns how many were read.
    pub fn read_until(&mut self, delim: u8, buf: &mut Vec<u8>) -> (n: usize)
        ensures
            final(self).data() == old(self).data(),
            old(self).position() <= final(self).position() <= old(self).data().len(),
            n == final(self).position() - old(self).position(),
            final(buf)@ == old(buf)@ + old(self).data().subrange(
                old(self).position() as int,
                final(self).position() as int,
            ),
            forall|i: int|
                old(self).position() <= i < final(self).position() - 1 ==> old(self).data()[i]
                    != delim,
            final(self).position() == old(self).data().len() || (final(self).position() > old(
                self,
            ).position() && old(self).data()[final(self).position() - 1] == delim),
    {
        proof {
            use_type_invariant(&*self);
        }
        let start = self.pos;
        loop
            invariant_except_break
                forall|i: int| start <= i < self.pos ==> self.bytes@[i] != delim,
            invariant
                self.bytes@ == old(self).bytes@,
                start == old(self).pos,
                start <= self.pos <= self.bytes@.len(),
                buf@ == old(buf)@ + self.bytes@.subrange(start as int, self.pos as int),
            ensures
                forall|i: int| start <= i < self.pos - 1 ==> self.bytes@[i] != delim,
                self.pos == self.bytes@.len() || (self.pos > start && self.bytes@[self.pos - 1]
                    == delim),
            decreases self.bytes@.len() - self.pos,
        {
            if self.pos >= self.bytes.len() {
                break;
            }
            let b = self.bytes[self.pos];
            buf.push(b);
            self.pos += 1;
            assert(self.bytes@.subrange(start as int, self.pos as int) =~= self.bytes@.subrange(
                start as int,
                self.pos - 1,
            ).push(b));
            if b == delim {
                break;
            }
        }
        self.pos - start
    }
}

/// Reads text byte by byte up to the first of `stops`, which is left unread;
/// returns the text read and how many bytes it takes.
pub fn read_ascii_until(reader: &mut Source, stops: &[u8]) -> (r: (String, usize))
    requires
        ascii_scan(old(reader).data(), old(reader).position() as int, stops@) is Some,
    ensures
        final(reader).data() == old(reader).data(),
        ({
            let start = old(reader).position() as int;
            let end = ascii_scan(old(reader).data(), start, stops@).unwrap();
            &&& final(reader).position() == end
            &&& encode_utf8(r.0@) == old(reader).data().subrange(start, end)
            &&& r.1 == end - start
        }),
{
    let ghost data = reader.data();
    let ghost start = reader.position() as int;
    let ghost end = ascii_scan(data, start, stops@).unwrap();
    proof {
        lemma_ascii_scan(data, start, stops@);
    }
    let mut text = String::new();
    let mut bytes_read: usize = 0;
    let mut buf: u8 = 0;
    loop
        invariant
            reader.data() == data,
            0 <= start <= reader.position() <= end,
            end < data.len(),
            bytes_read == reader.position() - start,
            encode_utf8(text@) == data.subrange(start, reader.position() as int),
            forall|k: int|
                start <= k < end ==> #[trigger] data[k] < 0x80 && !stops@.contains(data[k]),
            data[end] < 0x80,
            stops@.contains(data[end]),
        ensures
            reader.data() == data,
            reader.position() == end,
            bytes_read == end - start,
            encode_utf8(text@) == data.subrange(start, end),
        decreases end - reader.position(),
    {
        let ghost at = reader.position() as int;
        bytes_read += reader.read(&mut buf);
        proof {
            lemma_ascii_byte_valid(buf);
        }
        // Read the next char
        let arr = [buf];
        assert(arr@ =~= seq![buf]);
        let cur_char = match from_utf8(arr.as_slice()) {
            Some(c) => c,
            None => {
                // The bytes read are all ASCII, so this cannot happen
                assert(false);
                ""
            },
        };
        // Stop reading at expected endpoints
        if contains_byte(stops, buf) {
            assert(at == end);
            bytes_read -= 1;
            reader.unread();
            break;
        }
        let ghost before = text@;
        text.append(cur_char);
        proof {
            lemma_encode_utf8_add(before, cur_char@);
            assert(data.subrange(start, at + 1) =~= data.subrange(start, at).push(buf));
            assert(encode_utf8(text@) =~= data.subrange(start, at + 1));
        }
    }
    (text, bytes_read)
}

/// Whether `b` is one of `set`.
pub fn contains_byte(set: &[u8], b: u8) -> (r: bool)
    ensures
        r == set@.contains(b),
{
    let mut i: usize = 0;
    while i < set.len()
        invariant
            i <= set@.len(),
            forall|k: int| 0 <= k < i ==> set@[k] != b,
        decreases set.len() - i,
    {
        if set[i] == b {
            assert(set@[i as int] == b);
            return true;
        }
        i += 1;
    }
    false
}

} // verus!
