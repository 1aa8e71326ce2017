use vstd::prelude::*;
use vstd::string::StringSliceAdditionalSpecFns;
use vstd::utf8::*;

use crate::parse::identifier::{identifier_stops, valid_identifier, Identifier};
use crate::parse::list::{encodings, lemma_list_scan, lemma_list_scan_lengths, list_at, List};
use crate::parse::source::{ascii_scan, Source};
use crate::parse::ty::Type;
use crate::parse::{Parse, SyntaxError};
use crate::span::Span;
use crate::text::trim_chars;

verus! {

/// The index of the first `:` in `s` at or after `from`, or the length of `s`.
pub open spec fn colon_at(s: Seq<char>, from: int) -> int
    decreases s.len() - from,
{
    if from < 0 || from >= s.len() {
        s.len() as int
    } else if s[from] == ':' {
        from
    } else {
        colon_at(s, from + 1)
    }
}

proof fn lemma_colon_at(s: Seq<char>, from: int)
    requires
        0 <= from <= s.len(),
    ensures
        from <= colon_at(s, from) <= s.len(),
        colon_at(s, from) < s.len() ==> s[colon_at(s, from)] == ':',
        forall|k: int| from <= k < colon_at(s, from) ==> #[trigger] s[k] != ':',
    decreases s.len() - from,
{
    if from < s.len() && s[from] != ':' {
        lemma_colon_at(s, from + 1);
    }
}

/// The name in `name: type`: the text before the first `:`.
pub open spec fn argument_name(s: Seq<char>) -> Seq<char> {
    s.subrange(0, colon_at(s, 0))
}

/// The type in `name: type`: the text between the first `:` and the next.
pub open spec fn argument_type(s: Seq<char>) -> Seq<char> {
    s.subrange(colon_at(s, 0) + 1, colon_at(s, colon_at(s, 0) + 1))
}

/// Text that an argument can be read from: it has a `:`, a name without the
/// characters identifiers cannot hold, and a type that is empty or an
/// identifier between whitespace.
pub open spec fn argument_text(s: Seq<char>) -> bool {
    &&& colon_at(s, 0) < s.len()
    &&& valid_identifier(argument_name(s))
    &&& argument_type(s).len() > 0 ==> valid_identifier(trim_chars(argument_type(s)))
}

/// `arg` is the argument read from `s` with spans starting at `start`.
pub open spec fn argument_from(arg: FunctionArgument, s: Seq<char>, start: usize) -> bool {
    &&& arg.identifier.ident@ == argument_name(s)
    &&& arg.identifier.span.start == start
    &&& arg.identifier.span.size == encode_utf8(argument_name(s)).len() as usize
    &&& argument_type(s).len() == 0 ==> arg.ty is Inferred
    &&& argument_type(s).len() > 0 ==> (arg.ty matches Type::Explicit(id, sp) && id.ident@
        == trim_chars(argument_type(s)) && id.span.start == start && id.span.size == encode_utf8(
        trim_chars(argument_type(s)),
    ).len() as usize && sp == id.span)
    &&& arg.span.start == start
    &&& arg.span.size == encode_utf8(s).len() as usize
}

/// `: type` for an explicit type, nothing for an inferred one.
pub open spec fn type_suffix(ty: Type) -> Seq<char> {
    match ty {
        Type::Explicit(id, _) => ": "@ + id.ident@,
        Type::Inferred => seq![],
    }
}

/// An argument as it is displayed: `name: type`, or `name`.
pub open spec fn argument_display(arg: FunctionArgument) -> Seq<char> {
    arg.identifier.ident@ + type_suffix(arg.ty)
}

/// Arguments as they are displayed: each as `name: type,` or `name,`.
pub open spec fn arguments_display(args: Seq<FunctionArgument>) -> Seq<char>
    decreases args.len(),
{
    if args.len() == 0 {
        seq![]
    } else {
        arguments_display(args.drop_last()) + argument_display(args.last()) + ","@
    }
}

/// A function as it is displayed: `name(arguments)`, then `: type` when the
/// return type is explicit.
pub open spec fn function_display(f: Function) -> Seq<char> {
    let args = match f.arguments {
        Some(a) => arguments_display(a.arguments@),
        None => seq![],
    };
    f.identifier.ident@ + "("@ + args + ")"@ + type_suffix(f.return_type)
}

/// Appends `: type` for an explicit type, nothing for an inferred one.
fn append_type(out: &mut String, ty: &Type)
    ensures
        final(out)@ == old(out)@ + type_suffix(*ty),
{
    match ty {
        Type::Explicit(ty_ident, _) => {
            out.append(": ");
            out.append(ty_ident.ident.as_str());
        },
        Type::Inferred => {
            assert(old(out)@ + seq![] =~= old(out)@);
        },
    }
}

/// An argument of a function: its name, its type, and the span it covers.
#[derive(Debug)]
pub struct FunctionArgument {
    pub identifier: Identifier,
    pub ty: Type,
    pub span: Span,
}

impl FunctionArgument {
    /// The argument as it is displayed.
    pub fn to_string(&self) -> (r: String)
        ensures
            r@ == argument_display(*self),
    {
        let mut r = self.identifier.to_string();
        append_type(&mut r, &self.ty);
        r
    }

    /// Reads `name: type` from `value`.
    fn from(value: String, span: Span) -> (r: Self)
        requires
            argument_text(value@),
        ensures
            argument_from(r, value@, span.start),
    {
        let s = value.as_str();
        let n = s.unicode_len();
        let ghost v = s@;
        proof {
            lemma_colon_at(v, 0);
        }
        let mut a: usize = 0;
        while a < n && s.get_char(a) != ':'
            invariant
                v == s@,
                n == v.len(),
                a <= colon_at(v, 0),
                colon_at(v, a as int) == colon_at(v, 0),
            decreases n - a,
        {
            proof {
                lemma_colon_at(v, a + 1);
            }
            a += 1;
        }
        proof {
            lemma_colon_at(v, a + 1);
        }
        let mut b: usize = a + 1;
        while b < n && s.get_char(b) != ':'
            invariant
                v == s@,
                n == v.len(),
                a < n,
                a + 1 <= b <= colon_at(v, a + 1),
                colon_at(v, b as int) == colon_at(v, a + 1),
            decreases n - b,
        {
            proof {
                lemma_colon_at(v, b + 1);
            }
            b += 1;
        }
        let name = s.substring_char(0, a);
        let ty_text = s.substring_char(a + 1, b);

        let identifier = Identifier::new(name, span);
        let ty = Type::from(ty_text, span);

        let span = Span::new(span.start, s.len());

        FunctionArgument { identifier, ty, span }
    }
}

/// The arguments of a function, with the span they cover.
#[derive(Debug)]
pub struct FunctionArguments {
    pub arguments: Vec<FunctionArgument>,
    pub span: Span,
}

/// The offset after skipping one byte, if any is left.
pub open spec fn skip_one(bytes: Seq<u8>, pos: int) -> int {
    if pos < bytes.len() {
        pos + 1
    } else {
        pos
    }
}

/// The argument list that follows the byte at `pos`: its end and its items.
pub open spec fn arguments_at(bytes: Seq<u8>, pos: int) -> Option<(int, Seq<Seq<u8>>)> {
    list_at(bytes, skip_one(bytes, pos))
}

/// An argument list that starts after the byte at `pos` and can be read:
/// each item is an argument, and the spans fit in `usize`.
pub open spec fn arguments_readable(bytes: Seq<u8>, pos: int, parent: Span) -> bool {
    &&& parent.end() <= usize::MAX
    &&& arguments_at(bytes, pos) matches Some((_, items)) && (forall|i: int|
        0 <= i < items.len() ==> argument_text(#[trigger] decode_utf8(items[i])))
        && parent.end() + items.last().len() <= usize::MAX
}

impl FunctionArguments {
    /// The arguments as they are displayed.
    pub fn to_string(&self) -> (r: String)
        ensures
            r@ == arguments_display(self.arguments@),
    {
        let mut args_string = String::new();
        let n = self.arguments.len();
        let mut i: usize = 0;
        while i < n
            invariant
                n == self.arguments@.len(),
                i <= n,
                args_string@ == arguments_display(self.arguments@.subrange(0, i as int)),
            decreases n - i,
        {
            let arg = &self.arguments[i];
            args_string.append(arg.identifier.ident.as_str());
            append_type(&mut args_string, &arg.ty);
            args_string.append(",");
            proof {
                let a = self.arguments@.subrange(0, i + 1);
                assert(a.drop_last() =~= self.arguments@.subrange(0, i as int));
                assert(a.last() == self.arguments@[i as int]);
                assert(args_string@ =~= arguments_display(a));
            }
            i += 1;
        }
        assert(self.arguments@.subrange(0, n as int) =~= self.arguments@);
        args_string
    }
}

/// The items of the argument list read at `pos`.
pub open spec fn argument_items(bytes: Seq<u8>, pos: int) -> Seq<Seq<u8>> {
    arguments_at(bytes, pos).unwrap().1
}

impl Parse for FunctionArguments {
    open spec fn readable(bytes: Seq<u8>, pos: int, span: Span) -> bool {
        arguments_readable(bytes, pos, span)
    }

    open spec fn read_end(bytes: Seq<u8>, pos: int, span: Span) -> int {
        arguments_at(bytes, pos).unwrap().0
    }

    /// One argument per item, each read from the item's text with spans
    /// that start where `span` ends; the span of the list starts where `span`
    /// does.
    open spec fn read_value(v: Self, bytes: Seq<u8>, pos: int, span: Span) -> bool {
        let items = argument_items(bytes, pos);
        &&& v.arguments@.len() == items.len()
        &&& forall|i: int|
            0 <= i < items.len() ==> argument_from(
                #[trigger] v.arguments@[i],
                decode_utf8(items[i]),
                span.end() as usize,
            )
        &&& v.span.start == span.start
        &&& v.span.size == span.end() + items.last().len()
    }

    /// Skips the opening bracket, reads the comma separated arguments up to
    /// and including the closing bracket, and reads `name: type` from each.
    fn parse(reader: &mut Source, span: Span) -> (r: Result<Self, SyntaxError>)
    {
        let parent_span = span;
        // Read in the opening (
        let mut opening: u8 = 0;
        reader.read(&mut opening);

        let ghost data = reader.data();
        let ghost pos = reader.position() as int;
        let ghost goal = list_at(data, pos).unwrap();
        proof {
            lemma_list_scan(data, pos, 0, seq![], seq![]);
            lemma_list_scan_lengths(data, pos, 0, seq![], seq![]);
        }
        assert(data.len() <= usize::MAX);
        let list = match List::parse(reader, parent_span) {
            Ok(list) => list,
            Err(e) => {
                return Err(e);
            },
        };
        let mut arguments: Vec<FunctionArgument> = Vec::new();
        let ghost items = goal.1;
        assert(items.len() > 0) by {
            assert(encodings(list.items@).len() == list.items@.len());
        }

        let mut last_span = Span::after(parent_span);
        let items_read = list.items;
        let ghost all = items_read@;
        let n = items_read.len();
        let mut i: usize = 0;
        while i < n
            invariant
                n == all.len(),
                n == items.len(),
                encodings(all) == items,
                forall|k: int| 0 <= k < n ==> #[trigger] items[k].len() <= usize::MAX,
                forall|k: int| 0 <= k < n ==> argument_text(#[trigger] decode_utf8(items[k])),
                i <= n,
                items_read@ == all,
                arguments@.len() == i,
                forall|k: int| 0 <= k < i ==> argument_from(
                    #[trigger] arguments@[k],
                    decode_utf8(items[k]),
                    parent_span.end() as usize,
                ),
                last_span.start == parent_span.end(),
                i > 0 ==> last_span.size == items[i - 1].len(),
                i == 0 ==> last_span.size == 0,
                parent_span.end() + items.last().len() <= usize::MAX,
            decreases n - i,
        {
            let item = items_read[i].clone();
            proof {
                assert(encodings(all)[i as int] == encode_utf8(all[i as int]@));
                encode_utf8_decode_utf8(item@);
            }
            let arg = FunctionArgument::from(item, last_span);
            last_span = arg.span;
            arguments.push(arg);
            i += 1;
        }

        Ok(FunctionArguments {
            arguments,
            span: Span::new(parent_span.start, last_span.start + last_span.size),
        })
    }
}

/// A function declaration: its name, its arguments, its return type and the
/// span it covers.
#[derive(Debug)]
pub struct Function {
    pub identifier: Identifier,
    pub arguments: Option<FunctionArguments>,
    pub return_type: Type,
    pub span: Span,
}

/// Where the name of a function read at `pos` ends.
pub open spec fn name_end(bytes: Seq<u8>, pos: int) -> int {
    ascii_scan(bytes, pos, identifier_stops()).unwrap()
}

/// The span the arguments of a function read at `pos` are measured from.
pub open spec fn arguments_parent(bytes: Seq<u8>, pos: int, span: Span) -> Span {
    Span { start: (span.start + (name_end(bytes, pos) - pos)) as usize, size: 0 }
}

/// The offset at which the span of a function read at `pos` ends.
pub open spec fn function_end(bytes: Seq<u8>, pos: int, span: Span) -> int {
    let parent = arguments_parent(bytes, pos, span);
    parent.start + parent.start + arguments_at(bytes, name_end(bytes, pos)).unwrap().1.last().len()
}

/// A function declaration that can be read at `pos`: a name up to `(`, `{`
/// or a space, readable arguments after it, and spans that fit in `usize`.
pub open spec fn function_readable(bytes: Seq<u8>, pos: int, span: Span) -> bool {
    &&& ascii_scan(bytes, pos, identifier_stops()) is Some
    &&& span.start + (name_end(bytes, pos) - pos) <= usize::MAX
    &&& arguments_readable(bytes, name_end(bytes, pos), arguments_parent(bytes, pos, span))
    &&& span.end() <= function_end(bytes, pos, span) <= usize::MAX
}

/// `f` is the function declaration read at `pos`, measured from `span`.
pub open spec fn function_read(f: Function, bytes: Seq<u8>, pos: int, span: Span) -> bool {
    let name = name_end(bytes, pos);
    let parent = arguments_parent(bytes, pos, span);
    let items = arguments_at(bytes, name).unwrap().1;
    &&& encode_utf8(f.identifier.ident@) == bytes.subrange(pos, name)
    &&& f.identifier.span.start == span.start
    &&& f.identifier.span.size == name - pos
    &&& f.arguments matches Some(args) && args.arguments@.len() == items.len() && (forall|i: int|
        0 <= i < items.len() ==> argument_from(
            #[trigger] args.arguments@[i],
            decode_utf8(items[i]),
            parent.start,
        )) && args.span.start == parent.start && args.span.size == parent.start + items.last().len()
    &&& f.return_type is Inferred
    &&& f.span.start == span.end()
    &&& f.span.size == function_end(bytes, pos, span) - span.end()
}

impl Function {
    /// The function as it is displayed.
    pub fn to_string(&self) -> (r: String)
        ensures
            r@ == function_display(*self),
    {
        let mut r = self.identifier.to_string();
        r.append("(");
        match &self.arguments {
            Some(args) => {
                let args_string = args.to_string();
                r.append(args_string.as_str());
            },
            None => {},
        }
        r.append(")");
        append_type(&mut r, &self.return_type);
        proof {
            assert(r@ =~= function_display(*self));
        }
        r
    }
}

impl Parse for Function {
    open spec fn readable(bytes: Seq<u8>, pos: int, span: Span) -> bool {
        function_readable(bytes, pos, span)
    }

    open spec fn read_end(bytes: Seq<u8>, pos: int, span: Span) -> int {
        arguments_at(bytes, name_end(bytes, pos)).unwrap().0
    }

    open spec fn read_value(v: Self, bytes: Seq<u8>, pos: int, span: Span) -> bool {
        function_read(v, bytes, pos, span)
    }

    /// Reads a function declaration: its name, then its argument list. The
    /// return type is left to be inferred.
    fn parse(reader: &mut Source, span: Span) -> (r: Result<Self, SyntaxError>)
    {
        let identifier = match Identifier::parse(reader, span) {
            Ok(identifier) => identifier,
            Err(e) => {
                return Err(e);
            },
        };

        // Parse args list
        let arguments = match FunctionArguments::parse(reader, Span::after(identifier.span)) {
            Ok(arguments) => arguments,
            Err(e) => {
                return Err(e);
            },
        };

        // Parse return type
        // The return type is not read yet: it is left to be inferred.
        let mut fun_span = Span::after(span);
        fun_span.size = (arguments.span.start + arguments.span.size) - fun_span.start;

        Ok(Function {
            identifier,
            arguments: Some(arguments),
            return_type: Type::Inferred,
            span: fun_span,
        })
    }
}


} // verus!
