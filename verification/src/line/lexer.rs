use vstd::prelude::*;
use vstd::string::StringSliceAdditionalSpecFns;
use vstd::utf8::*;

use crate::text::substr;

verus! {

/// The bytes that separate the parts of a line: space and round brackets.
pub open spec fn separator(b: u8) -> bool {
    b == 0x20u8 || b == 0x28u8 || b == 0x29u8
}

/// The parts of the first `n` bytes of `bytes` that a separator has closed,
/// and the offset at which the open part starts.
pub open spec fn split_prefix(bytes: Seq<u8>, n: nat) -> (Seq<Seq<u8>>, nat)
    decreases n,
{
    if n == 0 || n > bytes.len() {
        (seq![], 0)
    } else {
        let prev = split_prefix(bytes, (n - 1) as nat);
        if separator(bytes[n - 1]) {
            (prev.0.push(bytes.subrange(prev.1 as int, n - 1)), n)
        } else {
            prev
        }
    }
}

/// The parts of `bytes` between separators, empty parts included: one more
/// part than there are separators.
pub open spec fn split_parts(bytes: Seq<u8>) -> Seq<Seq<u8>> {
    let p = split_prefix(bytes, bytes.len());
    p.0.push(bytes.subrange(p.1 as int, bytes.len() as int))
}

proof fn lemma_split_prefix_start(bytes: Seq<u8>, n: nat)
    requires
        n <= bytes.len(),
    ensures
        split_prefix(bytes, n).1 <= n,
        split_prefix(bytes, n).1 > 0 ==> separator(bytes[split_prefix(bytes, n).1 - 1]),
    decreases n,
{
    if n > 0 {
        lemma_split_prefix_start(bytes, (n - 1) as nat);
    }
}

/// How many separators `bytes` holds.
pub open spec fn separator_count(bytes: Seq<u8>) -> nat {
    bytes.filter(|b: u8| separator(b)).len()
}

proof fn lemma_split_prefix_shape(bytes: Seq<u8>, n: nat)
    requires
        n <= bytes.len(),
    ensures
        split_prefix(bytes, n).0.len() == separator_count(bytes.subrange(0, n as int)),
        forall|i: int, j: int|
            0 <= i < split_prefix(bytes, n).0.len() && 0 <= j < split_prefix(bytes, n).0[i].len()
                ==> !separator(#[trigger] split_prefix(bytes, n).0[i][j]),
        forall|j: int| split_prefix(bytes, n).1 <= j < n ==> !separator(#[trigger] bytes[j]),
        split_prefix(bytes, n).1 <= n,
    decreases n,
{
    if n > 0 {
        let m = (n - 1) as nat;
        lemma_split_prefix_shape(bytes, m);
        let pred = |b: u8| separator(b);
        let pre = bytes.subrange(0, m as int);
        assert(bytes.subrange(0, n as int) =~= pre.push(bytes[m as int]));
        pre.lemma_filter_push(bytes[m as int], pred);
        let prev = split_prefix(bytes, m);
        if separator(bytes[m as int]) {
            let part = bytes.subrange(prev.1 as int, m as int);
            let r = prev.0.push(part);
            assert forall|i: int, j: int| 0 <= i < r.len() && 0 <= j < r[i].len() implies !separator(#[trigger] r[i][j]) by {
                if i < prev.0.len() {
                    assert(r[i] == prev.0[i]);
                } else {
                    assert(r[i][j] == bytes[prev.1 + j]);
                }
            }
        }
    }
}

/// Splitting removes the separators: there is one more part than there are
/// separators in the line, and no part holds a separator.
pub proof fn law_split_parts(bytes: Seq<u8>)
    ensures
        split_parts(bytes).len() == separator_count(bytes) + 1,
        forall|i: int, j: int|
            0 <= i < split_parts(bytes).len() && 0 <= j < split_parts(bytes)[i].len() ==> !separator(
                #[trigger] split_parts(bytes)[i][j],
            ),
{
    lemma_split_prefix_shape(bytes, bytes.len());
    assert(bytes.subrange(0, bytes.len() as int) =~= bytes);
    let p = split_prefix(bytes, bytes.len());
    let r = split_parts(bytes);
    assert forall|i: int, j: int| 0 <= i < r.len() && 0 <= j < r[i].len() implies !separator(#[trigger] r[i][j]) by {
        if i < p.0.len() {
            assert(r[i] == p.0[i]);
        } else {
            assert(r[i][j] == bytes[p.1 + j]);
        }
    }
}

/// Splits a line into the words between spaces and round brackets, and hands
/// them out one at a time.
pub struct LineLexer<'a> {
    line: &'a String,
    parts: Vec<&'a str>,
    cur_idx: usize,
}

pub open spec fn part_bytes<'a>(parts: Seq<&'a str>) -> Seq<Seq<u8>> {
    parts.map_values(|p: &'a str| p.spec_bytes())
}

impl<'a> LineLexer<'a> {
    /// The parts are split off on the first read; once reading has begun
    /// they are those of the line.
    #[verifier::type_invariant]
    spec fn wf(self) -> bool {
        &&& self.cur_idx <= self.parts@.len()
        &&& self.cur_idx > 0 ==> part_bytes(self.parts@) == split_parts(encode_utf8(self.line@))
    }

    /// The text of the line.
    pub closed spec fn text(self) -> Seq<char> {
        self.line@
    }

    /// How many parts have been handed out.
    pub closed spec fn cursor(self) -> nat {
        self.cur_idx as nat
    }

    /// The parts of the line, as UTF-8 bytes.
    pub open spec fn parts_of(self) -> Seq<Seq<u8>> {
        split_parts(encode_utf8(self.text()))
    }

    pub fn new(line: &'a String) -> (r: Self)
        ensures
            r.text() == line@,
            r.cursor() == 0,
    {
        LineLexer { line, parts: vec![], cur_idx: 0 }
    }

    fn cache_parts(&mut self)
        ensures
            final(self).text() == old(self).text(),
            final(self).cursor() == old(self).cursor(),
            part_bytes(final(self).parts@) == final(self).parts_of(),
    {
        proof {
            use_type_invariant(&*self);
        }
        if self.cur_idx == 0 {
            // These delimiters should be connectives like brackets, ->, commas, etc.
            self.parts = split_line(self.line.as_str());
        }
    }

    fn peek(&mut self, next: usize) -> (r: Option<&[&'a str]>)
        requires
            next >= 1,
            old(self).cursor() + next - 1 <= usize::MAX,
        ensures
            final(self).text() == old(self).text(),
            final(self).cursor() == old(self).cursor(),
            old(self).cursor() + (next - 1) < old(self).parts_of().len() ==> (r matches Some(s)
                && part_bytes(s@) == old(self).parts_of().subrange(
                old(self).cursor() as int,
                old(self).cursor() + next - 1,
            )),
            old(self).cursor() + (next - 1) >= old(self).parts_of().len() ==> r is None,
    {
        self.cache_parts();
        proof {
            use_type_invariant(&*self);
        }
        if self.cur_idx + (next - 1) < self.parts.len() {
            let s = vstd::slice::slice_subrange(self.parts.as_slice(), self.cur_idx, self.cur_idx + (next - 1));
            assert(part_bytes(s@) =~= part_bytes(self.parts@).subrange(
                self.cur_idx as int,
                self.cur_idx + next - 1,
            ));
            Some(s)
        } else {
            None
        }
    }

    /// Hands out the next part of the line, if any is left.
    pub fn next(&mut self) -> (r: Option<&'a str>)
        ensures
            final(self).text() == old(self).text(),
            old(self).cursor() < old(self).parts_of().len() ==> (r matches Some(p)
                && p.spec_bytes() == old(self).parts_of()[old(self).cursor() as int]
                && final(self).cursor() == old(self).cursor() + 1),
            old(self).cursor() >= old(self).parts_of().len() ==> r is None && final(self).cursor()
                == old(self).cursor(),
    {
        self.cache_parts();
        proof {
            use_type_invariant(&*self);
        }
        // While we have parts to process
        if self.cur_idx < self.parts.len() {
            let next_token = self.parts[self.cur_idx];
            assert(part_bytes(self.parts@)[self.cur_idx as int] == next_token.spec_bytes());
            self.cur_idx += 1;
            Some(next_token)
        } else {
            None  // We finished the line

        }
    }
}

/// The parts of `line` between spaces and round brackets.
fn split_line<'a>(line: &'a str) -> (parts: Vec<&'a str>)
    ensures
        part_bytes(parts@) == split_parts(encode_utf8(line@)),
{
    let bytes = line.as_bytes();
    let ghost bs = bytes@;
    let mut parts: Vec<&'a str> = Vec::new();
    let mut start: usize = 0;
    let mut idx: usize = 0;
    while idx < bytes.len()
        invariant
            bs == line.spec_bytes(),
            bs == bytes@,
            bs == encode_utf8(line@),
            idx <= bytes.len(),
            part_bytes(parts@) == split_prefix(bs, idx as nat).0,
            start == split_prefix(bs, idx as nat).1,
        decreases bytes.len() - idx,
    {
        proof {
            lemma_split_prefix_start(bs, idx as nat);
        }
        let b = bytes[idx];
        if b == 0x20 || b == 0x28 || b == 0x29 {
            let part = substr(line, start, idx);
            let ghost old_parts = parts@;
            parts.push(part);
            assert(part_bytes(parts@) =~= part_bytes(old_parts).push(part.spec_bytes()));
            start = idx + 1;
        }
        idx += 1;
    }
    proof {
        lemma_split_prefix_start(bs, idx as nat);
    }
    let part = substr(line, start, bytes.len());
    let ghost old_parts = parts@;
    parts.push(part);
    assert(part_bytes(parts@) =~= part_bytes(old_parts).push(part.spec_bytes()));
    parts
}

} // verus!
