use vstd::prelude::*;
use vstd::utf8::*;

use crate::parse::source::Source;
use crate::parse::{Parse, SyntaxError};
use crate::span::Span;
use crate::text::{from_utf8, lemma_ascii_byte_valid, lemma_encode_utf8_add};

verus! {

/// `(`, `{` and `<`: bytes that open a nested group inside a list item.
pub open spec fn opener(b: u8) -> bool {
    b == 0x28u8 || b == 0x7Bu8 || b == 0x3Cu8
}

/// `)`, `}` and `>`: bytes that close a nested group, or the list itself.
pub open spec fn closer(b: u8) -> bool {
    b == 0x29u8 || b == 0x7Du8 || b == 0x3Eu8
}

/// Reads a comma separated list from offset `from`, `depth` groups deep, with
/// the current item `cur` and the finished `items` so far. The list ends at
/// a closing bracket outside any group, which is read but belongs to no item;
/// a comma outside any group ends an item. Gives the offset after the
/// closing bracket and the items, or `None` when the source ends first or a
/// byte that is not ASCII comes first.
pub open spec fn list_scan(bytes: Seq<u8>, from: int, depth: nat, cur: Seq<u8>, items: Seq<Seq<u8>>) -> Option<(int, Seq<Seq<u8>>)>
    decreases bytes.len() - from,
{
    if from < 0 || from >= bytes.len() || bytes[from] >= 0x80 {
        None
    } else {
        let b = bytes[from];
        if opener(b) {
            list_scan(bytes, from + 1, depth + 1, cur.push(b), items)
        } else if closer(b) {
            if depth == 0 {
                Some((from + 1, items.push(cur)))
            } else {
                list_scan(bytes, from + 1, (depth - 1) as nat, cur.push(b), items)
            }
        } else if b == 0x2Cu8 && depth == 0 {
            list_scan(bytes, from + 1, 0, seq![], items.push(cur))
        } else {
            list_scan(bytes, from + 1, depth, cur.push(b), items)
        }
    }
}

/// The list that starts at offset `from`.
pub open spec fn list_at(bytes: Seq<u8>, from: int) -> Option<(int, Seq<Seq<u8>>)> {
    list_scan(bytes, from, 0, seq![], seq![])
}

pub proof fn lemma_list_scan(bytes: Seq<u8>, from: int, depth: nat, cur: Seq<u8>, items: Seq<Seq<u8>>)
    ensures
        list_scan(bytes, from, depth, cur, items) matches Some((end, its)) ==> 0 <= from < end
            <= bytes.len() && its.len() > items.len(),
    decreases bytes.len() - from,
{
    if 0 <= from < bytes.len() && bytes[from] < 0x80 {
        let b = bytes[from];
        if opener(b) {
            lemma_list_scan(bytes, from + 1, depth + 1, cur.push(b), items);
        } else if closer(b) {
            if depth != 0 {
                lemma_list_scan(bytes, from + 1, (depth - 1) as nat, cur.push(b), items);
            }
        } else if b == 0x2Cu8 && depth == 0 {
            lemma_list_scan(bytes, from + 1, 0, seq![], items.push(cur));
        } else {
            lemma_list_scan(bytes, from + 1, depth, cur.push(b), items);
        }
    }
}

/// Every item of a list is no longer than the source.
pub proof fn lemma_list_scan_lengths(bytes: Seq<u8>, from: int, depth: nat, cur: Seq<u8>, items: Seq<Seq<u8>>)
    requires
        cur.len() <= from,
        forall|i: int| 0 <= i < items.len() ==> #[trigger] items[i].len() <= bytes.len(),
    ensures
        list_scan(bytes, from, depth, cur, items) matches Some((_, its)) ==> forall|i: int|
            0 <= i < its.len() ==> #[trigger] its[i].len() <= bytes.len(),
    decreases bytes.len() - from,
{
    if 0 <= from < bytes.len() && bytes[from] < 0x80 {
        let b = bytes[from];
        if opener(b) {
            lemma_list_scan_lengths(bytes, from + 1, depth + 1, cur.push(b), items);
        } else if closer(b) {
            if depth != 0 {
                lemma_list_scan_lengths(bytes, from + 1, (depth - 1) as nat, cur.push(b), items);
            }
        } else if b == 0x2Cu8 && depth == 0 {
            lemma_list_scan_lengths(bytes, from + 1, 0, seq![], items.push(cur));
        } else {
            lemma_list_scan_lengths(bytes, from + 1, depth, cur.push(b), items);
        }
    }
}

/// The nesting a run of bytes leaves: one more for each `(`, `{` and `<`,
/// one less for each `)`, `}` and `>`.
pub open spec fn nesting(bs: Seq<u8>) -> int
    decreases bs.len(),
{
    if bs.len() == 0 {
        0
    } else {
        nesting(bs.drop_last()) + if opener(bs.last()) {
            1int
        } else if closer(bs.last()) {
            -1int
        } else {
            0int
        }
    }
}

/// Brackets that nest: no prefix closes more groups than it opened, and at
/// the end every group is closed.
pub open spec fn balanced(bs: Seq<u8>) -> bool {
    &&& nesting(bs) == 0
    &&& forall|k: int| 0 <= k <= bs.len() ==> nesting(#[trigger] bs.subrange(0, k)) >= 0
}

/// Every comma of `bs` lies inside a group.
pub open spec fn commas_nested(bs: Seq<u8>) -> bool {
    forall|k: int| 0 <= k < bs.len() && #[trigger] bs[k] == 0x2Cu8 ==> nesting(bs.subrange(0, k)) > 0
}

/// `items` one after another, with a comma between each two.
pub open spec fn comma_joined(items: Seq<Seq<u8>>) -> Seq<u8>
    decreases items.len(),
{
    if items.len() == 0 {
        seq![]
    } else if items.len() == 1 {
        items[0]
    } else {
        comma_joined(items.drop_last()) + seq![0x2Cu8] + items.last()
    }
}

/// An item being read, `depth` groups deep.
spec fn open_item(cur: Seq<u8>, depth: nat) -> bool {
    &&& nesting(cur) == depth
    &&& forall|k: int| 0 <= k <= cur.len() ==> nesting(#[trigger] cur.subrange(0, k)) >= 0
    &&& commas_nested(cur)
}

proof fn lemma_open_item_push(cur: Seq<u8>, depth: nat, b: u8)
    requires
        open_item(cur, depth),
        closer(b) ==> depth > 0,
        b == 0x2Cu8 ==> depth > 0,
    ensures
        nesting(cur.push(b)) == depth + if opener(b) {
            1int
        } else if closer(b) {
            -1int
        } else {
            0int
        },
        open_item(cur.push(b), nesting(cur.push(b)) as nat),
{
    let c = cur.push(b);
    assert(c.drop_last() =~= cur);
    assert forall|k: int| 0 <= k <= c.len() implies nesting(#[trigger] c.subrange(0, k)) >= 0 by {
        if k <= cur.len() {
            assert(c.subrange(0, k) =~= cur.subrange(0, k));
        } else {
            assert(c.subrange(0, k) =~= c);
        }
    }
    assert forall|k: int| 0 <= k < c.len() && #[trigger] c[k] == 0x2Cu8 implies nesting(
        c.subrange(0, k),
    ) > 0 by {
        if k < cur.len() {
            assert(c.subrange(0, k) =~= cur.subrange(0, k));
            assert(cur[k] == 0x2Cu8);
        } else {
            assert(c.subrange(0, k) =~= cur);
        }
    }
}

proof fn lemma_comma_joined_push(items: Seq<Seq<u8>>, cur: Seq<u8>, b: u8)
    ensures
        comma_joined(items.push(cur.push(b))) == comma_joined(items.push(cur)).push(b),
        comma_joined(items.push(cur).push(seq![])) == comma_joined(items.push(cur)).push(0x2Cu8),
{
    assert(items.push(cur.push(b)).drop_last() =~= items);
    assert(items.push(cur).drop_last() =~= items);
    assert(items.push(cur).push(seq![]).drop_last() =~= items.push(cur));
    if items.len() == 0 {
        assert(comma_joined(items.push(cur)) == cur);
    }
    assert(comma_joined(items.push(cur).push(seq![])) =~= comma_joined(items.push(cur)).push(0x2Cu8));
    assert(comma_joined(items.push(cur.push(b))) =~= comma_joined(items.push(cur)).push(b));
}

proof fn lemma_list_scan_items(bytes: Seq<u8>, from: int, depth: nat, cur: Seq<u8>, items: Seq<Seq<u8>>)
    requires
        forall|i: int| 0 <= i < items.len() ==> balanced(#[trigger] items[i]) && commas_nested(items[i]),
        open_item(cur, depth),
    ensures
        list_scan(bytes, from, depth, cur, items) matches Some((end, its)) ==> {
            &&& 0 <= from < end <= bytes.len()
            &&& closer(bytes[end - 1])
            &&& comma_joined(its) == comma_joined(items.push(cur)) + bytes.subrange(from, end - 1)
            &&& forall|i: int| 0 <= i < its.len() ==> balanced(#[trigger] its[i]) && commas_nested(its[i])
        },
    decreases bytes.len() - from,
{
    lemma_list_scan(bytes, from, depth, cur, items);
    if 0 <= from < bytes.len() && bytes[from] < 0x80 {
        let b = bytes[from];
        let closes = closer(b) && depth == 0;
        let splits = !opener(b) && !closer(b) && b == 0x2Cu8 && depth == 0;
        if closes {
            let its = items.push(cur);
            assert forall|i: int| 0 <= i < its.len() implies balanced(#[trigger] its[i]) && commas_nested(its[i]) by {
                if i < items.len() {
                    assert(its[i] == items[i]);
                }
            }
            assert(bytes.subrange(from, from) =~= Seq::<u8>::empty());
            assert(comma_joined(its) + Seq::<u8>::empty() =~= comma_joined(its));
        } else if splits {
            let items2 = items.push(cur);
            assert forall|i: int| 0 <= i < items2.len() implies balanced(#[trigger] items2[i])
                && commas_nested(items2[i]) by {
                if i < items.len() {
                    assert(items2[i] == items[i]);
                }
            }
            let e = Seq::<u8>::empty();
            assert(open_item(e, 0)) by {
                assert forall|k: int| 0 <= k <= e.len() implies nesting(#[trigger] e.subrange(0, k)) >= 0 by {
                    assert(e.subrange(0, k) =~= e);
                }
            }
            lemma_list_scan_items(bytes, from + 1, 0, e, items2);
            lemma_comma_joined_push(items, cur, b);
            if list_scan(bytes, from, depth, cur, items) is Some {
                let end = list_scan(bytes, from, depth, cur, items).unwrap().0;
                assert(bytes.subrange(from, end - 1) =~= seq![b] + bytes.subrange(from + 1, end - 1));
                assert(comma_joined(items2.push(e)) + bytes.subrange(from + 1, end - 1) =~= comma_joined(
                    items.push(cur),
                ) + bytes.subrange(from, end - 1));
            }
        } else {
            lemma_open_item_push(cur, depth, b);
            let d2 = nesting(cur.push(b)) as nat;
            lemma_list_scan_items(bytes, from + 1, d2, cur.push(b), items);
            lemma_comma_joined_push(items, cur, b);
            if opener(b) {
                assert(list_scan(bytes, from, depth, cur, items) == list_scan(bytes, from + 1, d2, cur.push(b), items));
            } else if closer(b) {
                assert(list_scan(bytes, from, depth, cur, items) == list_scan(bytes, from + 1, d2, cur.push(b), items));
            } else {
                assert(list_scan(bytes, from, depth, cur, items) == list_scan(bytes, from + 1, d2, cur.push(b), items));
            }
            if list_scan(bytes, from, depth, cur, items) is Some {
                let end = list_scan(bytes, from, depth, cur, items).unwrap().0;
                assert(bytes.subrange(from, end - 1) =~= seq![b] + bytes.subrange(from + 1, end - 1));
                assert(comma_joined(items.push(cur.push(b))) + bytes.subrange(from + 1, end - 1) =~= comma_joined(
                    items.push(cur),
                ) + bytes.subrange(from, end - 1));
            }
        }
    }
}

/// What a list is: the list read from `from` ends just after a closing
/// bracket (`)`, `}` or `>`); its items, joined with commas, are exactly the
/// source from `from` up to that bracket; and the brackets in each item nest
/// to any depth and are all closed, with each of its commas inside a group.
/// So the list ends only at a closing bracket that closes no group opened
/// in it, and splits only at commas outside any group.
pub proof fn law_list_items(bytes: Seq<u8>, from: int)
    requires
        list_at(bytes, from) is Some,
    ensures
        ({
            let (end, its) = list_at(bytes, from).unwrap();
            &&& 0 <= from < end <= bytes.len()
            &&& closer(bytes[end - 1])
            &&& comma_joined(its) == bytes.subrange(from, end - 1)
            &&& forall|i: int| 0 <= i < its.len() ==> balanced(#[trigger] its[i]) && commas_nested(its[i])
        }),
{
    let e = Seq::<u8>::empty();
    let none = Seq::<Seq<u8>>::empty();
    assert(open_item(e, 0)) by {
        assert forall|k: int| 0 <= k <= e.len() implies nesting(#[trigger] e.subrange(0, k)) >= 0 by {
            assert(e.subrange(0, k) =~= e);
        }
    }
    lemma_list_scan_items(bytes, from, 0, e, none);
    assert(none.push(e) =~= seq![e]);
    assert(comma_joined(seq![e]) == e);
    let end = list_at(bytes, from).unwrap().0;
    assert(e + bytes.subrange(from, end - 1) =~= bytes.subrange(from, end - 1));
}

/// The UTF-8 encodings of `items`.
pub open spec fn encodings(items: Seq<String>) -> Seq<Seq<u8>> {
    items.map_values(|s: String| encode_utf8(s@))
}

/// `items` one after another, with `sep` between each two.
pub open spec fn joined(items: Seq<Seq<char>>, sep: Seq<char>) -> Seq<char>
    decreases items.len(),
{
    if items.len() == 0 {
        seq![]
    } else if items.len() == 1 {
        items[0]
    } else {
        joined(items.drop_last(), sep) + sep + items.last()
    }
}

pub open spec fn texts(items: Seq<String>) -> Seq<Seq<char>> {
    items.map_values(|s: String| s@)
}

/// The items of a comma separated list, with the span of source it covers.
#[derive(Debug)]
pub struct List {
    pub items: Vec<String>,
    pub span: Span,
}

impl List {
    /// The items, separated by `, `.
    pub fn to_string(&self) -> (r: String)
        ensures
            r@ == joined(texts(self.items@), ", "@),
    {
        let mut r = String::new();
        let n = self.items.len();
        let mut i: usize = 0;
        while i < n
            invariant
                n == self.items@.len(),
                i <= n,
                r@ == joined(texts(self.items@.subrange(0, i as int)), ", "@),
            decreases n - i,
        {
            if i != 0 {
                r.append(", ");
            }
            r.append(self.items[i].as_str());
            proof {
                let t = texts(self.items@.subrange(0, i + 1));
                assert(t.drop_last() =~= texts(self.items@.subrange(0, i as int)));
                assert(t.last() == self.items@[i as int]@);
            }
            i += 1;
        }
        assert(self.items@.subrange(0, n as int) =~= self.items@);
        r
    }
}

impl Parse for List {
    open spec fn readable(bytes: Seq<u8>, pos: int, span: Span) -> bool {
        list_at(bytes, pos) is Some
    }

    open spec fn read_end(bytes: Seq<u8>, pos: int, span: Span) -> int {
        list_at(bytes, pos).unwrap().0
    }

    /// The items are those of the list, and the span starts where `span`
    /// does and covers the list with its closing bracket.
    open spec fn read_value(v: Self, bytes: Seq<u8>, pos: int, span: Span) -> bool {
        &&& encodings(v.items@) == list_at(bytes, pos).unwrap().1
        &&& v.span.start == span.start
        &&& v.span.size == Self::read_end(bytes, pos, span) - pos
    }

    /// Reads a comma separated list up to and including its closing bracket.
    fn parse(reader: &mut Source, span: Span) -> (r: Result<Self, SyntaxError>)
    {
        let ghost data = reader.data();
        let ghost start = reader.position() as int;
        let ghost goal = list_at(data, start).unwrap();
        proof {
            lemma_list_scan(data, start, 0, seq![], seq![]);
        }
        let mut bytes_read: usize = 0;
        let mut items: Vec<String> = Vec::new();
        let mut buf: u8 = 0;

        let mut cur_item = String::new();
        let mut depth: usize = 0;
        assert(encode_utf8(cur_item@) =~= Seq::<u8>::empty());
        assert(encodings(items@) =~= Seq::<Seq<u8>>::empty());
        loop
            invariant_except_break
                list_scan(data, reader.position() as int, depth as nat, encode_utf8(cur_item@), encodings(items@)) == Some(goal),
            invariant
                reader.data() == data,
                0 <= start <= reader.position() <= goal.0,
                goal.0 <= data.len(),
                bytes_read == reader.position() - start,
                depth <= reader.position() - start,
            ensures
                reader.data() == data,
                reader.position() == goal.0,
                bytes_read == goal.0 - start,
                encodings(items@) == goal.1,
            decreases data.len() - reader.position(),
        {
            let ghost at = reader.position() as int;
            proof {
                lemma_list_scan(data, at, depth as nat, encode_utf8(cur_item@), encodings(items@));
            }
            bytes_read += reader.read(&mut buf);
            proof {
                lemma_ascii_byte_valid(buf);
            }
            // Read the next char
            let arr = [buf];
            assert(arr@ =~= seq![buf]);
            let cur_char = match from_utf8(arr.as_slice()) {
                Some(c) => c,
                None => {
                    // The bytes read are all ASCII, so this cannot happen
                    assert(false);
                    ""
                },
            };
            let ghost cur = encode_utf8(cur_item@);
            let ghost its = encodings(items@);
            if buf == 0x28 || buf == 0x7B || buf == 0x3C {
                depth += 1;
            } else if buf == 0x29 || buf == 0x7D || buf == 0x3E {
                // A closing bracket outside of any list item ends the list
                if depth == 0 {
                    items.push(cur_item);
                    assert(encodings(items@) =~= its.push(cur));
                    break;
                } else {
                    depth -= 1;
                }
            } else if buf == 0x2C {
                if depth == 0 {
                    items.push(cur_item);
                    assert(encodings(items@) =~= its.push(cur));
                    cur_item = String::new();
                    assert(encode_utf8(cur_item@) =~= Seq::<u8>::empty());
                    continue;
                }
            }
            let ghost before = cur_item@;
            cur_item.append(cur_char);
            proof {
                lemma_encode_utf8_add(before, cur_char@);
                assert(encode_utf8(cur_item@) =~= cur.push(buf));
            }
        }

        Ok(List { items, span: Span::new(span.start, bytes_read) })
    }
}

} // verus!
