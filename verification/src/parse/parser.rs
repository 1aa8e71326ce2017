use vstd::prelude::*;

use crate::parse::error::{LabeledSpan, Report, UnexpectedToken};
use vstd::string::StringSliceAdditionalSpecFns;
use vstd::multiset::Multiset;
use crate::token::{kind_precedence, Token, TokenKind};

verus! {

/// The index of the first token at or after `from`, and before `limit`, that
/// is neither a space nor a newline.
pub open spec fn next_solid(tokens: Seq<Token>, from: int, limit: int) -> Option<int>
    decreases limit - from,
{
    if from >= limit {
        None
    } else if !tokens[from].is_whitespace() {
        Some(from)
    } else {
        next_solid(tokens, from + 1, limit)
    }
}

pub proof fn lemma_next_solid(tokens: Seq<Token>, from: int, limit: int)
    ensures
        next_solid(tokens, from, limit) matches Some(i) ==> from <= i < limit
            && !tokens[i].is_whitespace() && forall|j: int|
            from <= j < i ==> #[trigger] tokens[j].is_whitespace(),
        next_solid(tokens, from, limit) is None ==> forall|j: int|
            from <= j < limit ==> #[trigger] tokens[j].is_whitespace(),
    decreases limit - from,
{
    if from < limit {
        lemma_next_solid(tokens, from + 1, limit);
    }
}

/// `e` is the error for an unexpected token at position `pos`: it names the
/// next token that is neither a space nor a newline, if there is one, and
/// marks its place; otherwise it marks the end of the token just before
/// `pos` (offset 0 when that one is a space or a newline too).
pub open spec fn unexpected_at(input: Seq<Token>, pos: int, e: UnexpectedToken) -> bool {
    &&& e.unexpected_span.label is None
    &&& match next_solid(input, pos, input.len() as int) {
        Some(i) => {
            &&& e.found matches Some(text) && text@ == input[i].text()
            &&& e.unexpected_span.offset == input[i].location()
            &&& e.unexpected_span.len == input[i].bytes().len() as usize
        },
        None => {
            &&& e.found is None
            &&& e.unexpected_span.len == 0
            &&& match next_solid(input, pos - 1, input.len() as int) {
                Some(j) => e.unexpected_span.offset == input[j].location() + (
                input[j].bytes().len() as usize),
                None => e.unexpected_span.offset == 0,
            }
        },
    }
}

/// The state of an expression being turned into postfix order: the operator
/// stack, the output so far, the right precedence of the last operator, and
/// whether a `;` has ended the expression.
pub struct ExprState<'t> {
    pub stack: Seq<Token<'t>>,
    pub parsed: Seq<Token<'t>>,
    pub last_rp: u8,
    pub done: bool,
}


pub open spec fn right_precedence(t: Token) -> u8 {
    kind_precedence(t.kind()).1
}

pub open spec fn left_precedence(t: Token) -> u8 {
    kind_precedence(t.kind()).0
}

/// Pops the stack and writes each popped token, until an open bracket is
/// popped (it is dropped) or the stack is empty.
pub open spec fn pop_to_open<'t>(stack: Seq<Token<'t>>, parsed: Seq<Token<'t>>) -> (Seq<Token<'t>>, Seq<Token<'t>>)
    decreases stack.len(),
{
    if stack.len() == 0 {
        (stack, parsed)
    } else if stack.last() is OpenBracket {
        (stack.drop_last(), parsed)
    } else {
        pop_to_open(stack.drop_last(), parsed.push(stack.last()))
    }
}

/// Pops the stack and writes each popped token, as long as the top of the
/// stack binds tighter than an incoming operator of left precedence `lp`:
/// that is, as long as its right precedence is above `lp`.
pub open spec fn pop_operators<'t>(stack: Seq<Token<'t>>, parsed: Seq<Token<'t>>, lp: u8) -> (Seq<Token<'t>>, Seq<Token<'t>>)
    decreases stack.len(),
{
    if stack.len() > 0 && lp < right_precedence(stack.last()) {
        pop_operators(stack.drop_last(), parsed.push(stack.last()), lp)
    } else {
        (stack, parsed)
    }
}

/// What reading one token (neither a space nor a newline) does to the state.
pub open spec fn expr_step<'t>(s: ExprState<'t>, t: Token<'t>) -> ExprState<'t> {
    match t.kind() {
        // Identifiers and literals are written immediately
        TokenKind::Identifier | TokenKind::NumericLiteral => ExprState { parsed: s.parsed.push(t), ..s },
        // The end of the expression writes the whole stack, top first, then the `;`
        TokenKind::SemiColon => ExprState {
            stack: seq![],
            parsed: s.parsed + s.stack.reverse() + seq![t],
            done: true,
            ..s
        },
        // An open bracket is written, and pushed to bound what follows
        TokenKind::OpenBracket => ExprState {
            stack: s.stack.push(t),
            parsed: s.parsed.push(t),
            last_rp: right_precedence(t),
            ..s
        },
        // A close bracket writes the stack down to its open bracket, then itself
        TokenKind::CloseBracket => {
            let (st, p) = pop_to_open(s.stack, s.parsed);
            ExprState {
                stack: st,
                parsed: p.push(t),
                last_rp: if st.len() > 0 { right_precedence(st.last()) } else { 0 },
                ..s
            }
        },
        // Any other token is an operator: it first writes operators that bind tighter
        _ => {
            let (st, p) = if left_precedence(t) < s.last_rp {
                pop_operators(s.stack, s.parsed, left_precedence(t))
            } else {
                (s.stack, s.parsed)
            };
            ExprState { stack: st.push(t), parsed: p, last_rp: right_precedence(t), ..s }
        },
    }
}

/// The state after reading the tokens at positions `from..` (spaces and newlines
/// are skipped), stopping after a `;`; with the position reached.
pub open spec fn expr_scan<'t>(tokens: Seq<Token<'t>>, from: int, s: ExprState<'t>) -> (int, ExprState<'t>)
    decreases tokens.len() - from,
{
    if from >= tokens.len() {
        (from, s)
    } else if tokens[from].is_whitespace() {
        expr_scan(tokens, from + 1, s)
    } else {
        let s2 = expr_step(s, tokens[from]);
        if s2.done {
            (from + 1, s2)
        } else {
            expr_scan(tokens, from + 1, s2)
        }
    }
}

/// Reading from `from` first skips spaces and newlines up to the next other
/// token (if any), reads it, and goes on from just after it.
pub proof fn lemma_scan_next<'t>(tokens: Seq<Token<'t>>, from: int, s: ExprState<'t>)
    ensures
        match next_solid(tokens, from, tokens.len() as int) {
            Some(i) => expr_scan(tokens, from, s) == if expr_step(s, tokens[i]).done {
                (i + 1, expr_step(s, tokens[i]))
            } else {
                expr_scan(tokens, i + 1, expr_step(s, tokens[i]))
            },
            None => expr_scan(tokens, from, s) == (
                if from < tokens.len() {
                    tokens.len() as int
                } else {
                    from
                },
                s,
            ),
        },
    decreases tokens.len() - from,
{
    if from < tokens.len() && tokens[from].is_whitespace() {
        lemma_scan_next(tokens, from + 1, s);
    }
}

/// The state an expression starts from, with the given stack and output.
pub open spec fn start_state<'t>(stack: Seq<Token<'t>>, parsed: Seq<Token<'t>>) -> ExprState<'t> {
    ExprState { stack, parsed, last_rp: 0, done: false }
}

/// Identifiers and numeric literals: the tokens an expression is built on.
pub open spec fn is_operand(t: Token) -> bool {
    t is Identifier || t is NumericLiteral
}

/// The operands among `ts`, in order.
pub open spec fn operands<'t>(ts: Seq<Token<'t>>) -> Seq<Token<'t>> {
    ts.filter(|t: Token<'t>| is_operand(t))
}

pub open spec fn no_operands<'t>(ts: Seq<Token<'t>>) -> bool {
    forall|i: int| 0 <= i < ts.len() ==> !is_operand(#[trigger] ts[i])
}

proof fn lemma_operands_push<'t>(ts: Seq<Token<'t>>, t: Token<'t>)
    ensures
        operands(ts.push(t)) == if is_operand(t) {
            operands(ts).push(t)
        } else {
            operands(ts)
        },
{
    ts.lemma_filter_push(t, |t: Token<'t>| is_operand(t));
}

proof fn lemma_no_operands_empty<'t>(ts: Seq<Token<'t>>)
    requires
        no_operands(ts),
    ensures
        operands(ts) == Seq::<Token<'t>>::empty(),
    decreases ts.len(),
{
    if ts.len() > 0 {
        lemma_no_operands_empty(ts.drop_last());
        lemma_operands_push(ts.drop_last(), ts.last());
        assert(ts.drop_last().push(ts.last()) =~= ts);
    }
}

proof fn lemma_operands_add<'t>(a: Seq<Token<'t>>, b: Seq<Token<'t>>)
    ensures
        operands(a + b) == operands(a) + operands(b),
{
    Seq::filter_distributes_over_add(a, b, |t: Token<'t>| is_operand(t));
}

proof fn lemma_pop_to_open_operands<'t>(stack: Seq<Token<'t>>, parsed: Seq<Token<'t>>)
    requires
        no_operands(stack),
    ensures
        no_operands(pop_to_open(stack, parsed).0),
        operands(pop_to_open(stack, parsed).1) == operands(parsed),
    decreases stack.len(),
{
    if stack.len() > 0 {
        lemma_operands_push(parsed, stack.last());
        if !(stack.last() is OpenBracket) {
            lemma_pop_to_open_operands(stack.drop_last(), parsed.push(stack.last()));
        }
    }
}

proof fn lemma_pop_operators_operands<'t>(stack: Seq<Token<'t>>, parsed: Seq<Token<'t>>, lp: u8)
    requires
        no_operands(stack),
    ensures
        no_operands(pop_operators(stack, parsed, lp).0),
        operands(pop_operators(stack, parsed, lp).1) == operands(parsed),
    decreases stack.len(),
{
    if stack.len() > 0 && lp < right_precedence(stack.last()) {
        lemma_operands_push(parsed, stack.last());
        lemma_pop_operators_operands(stack.drop_last(), parsed.push(stack.last()), lp);
    }
}

proof fn lemma_step_operands<'t>(s: ExprState<'t>, t: Token<'t>)
    requires
        no_operands(s.stack),
    ensures
        no_operands(expr_step(s, t).stack),
        operands(expr_step(s, t).parsed) == operands(s.parsed) + operands(seq![t]),
{
    let e: Seq<Token<'t>> = seq![];
    lemma_operands_push(e, t);
    assert(e.push(t) == seq![t]);
    lemma_operands_push(s.parsed, t);
    match t.kind() {
        TokenKind::Identifier | TokenKind::NumericLiteral => {},
        TokenKind::SemiColon => {
            let r = s.stack.reverse();
            assert(no_operands(r));
            lemma_no_operands_empty(r);
            lemma_operands_add(s.parsed, r);
            lemma_operands_add(s.parsed + r, seq![t]);
        },
        TokenKind::OpenBracket => {},
        TokenKind::CloseBracket => {
            lemma_pop_to_open_operands(s.stack, s.parsed);
            lemma_operands_push(pop_to_open(s.stack, s.parsed).1, t);
        },
        _ => {
            if left_precedence(t) < s.last_rp {
                lemma_pop_operators_operands(s.stack, s.parsed, left_precedence(t));
            }
        },
    }
    assert(operands(expr_step(s, t).parsed) =~= operands(s.parsed) + operands(seq![t]));
}

/// Operands come out of an expression in the order in which they came in:
/// the operands written while reading from `from` are exactly the operands
/// among the tokens read, in the same order; and the stack never holds an
/// operand.
pub proof fn law_operands_keep_order<'t>(tokens: Seq<Token<'t>>, from: int, s: ExprState<'t>)
    requires
        0 <= from <= tokens.len(),
        no_operands(s.stack),
    ensures
        from <= expr_scan(tokens, from, s).0 <= tokens.len(),
        no_operands(expr_scan(tokens, from, s).1.stack),
        operands(expr_scan(tokens, from, s).1.parsed) == operands(s.parsed) + operands(
            tokens.subrange(from, expr_scan(tokens, from, s).0),
        ),
    decreases tokens.len() - from,
{
    let (pos, st) = expr_scan(tokens, from, s);
    if from >= tokens.len() {
        assert(tokens.subrange(from, pos) =~= Seq::<Token<'t>>::empty());
        assert(operands(s.parsed) + operands(Seq::<Token<'t>>::empty()) =~= operands(s.parsed)) by {
            lemma_no_operands_empty(Seq::<Token<'t>>::empty());
        }
    } else {
        let t = tokens[from];
        let s2 = if t.is_whitespace() { s } else { expr_step(s, t) };
        if !t.is_whitespace() {
            lemma_step_operands(s, t);
        } else {
            lemma_operands_push(s.parsed, t);
        }
        let e: Seq<Token<'t>> = seq![];
        lemma_operands_push(e, t);
        assert(e.push(t) == seq![t]);
        if !t.is_whitespace() && s2.done {
            assert(tokens.subrange(from, from + 1) =~= seq![t]);
        } else {
            law_operands_keep_order(tokens, from + 1, s2);
            assert(tokens.subrange(from, pos) =~= seq![t] + tokens.subrange(from + 1, pos));
            lemma_operands_add(seq![t], tokens.subrange(from + 1, pos));
            assert(operands(st.parsed) =~= operands(s.parsed) + operands(tokens.subrange(from, pos)));
        }
    }
}

/// An expression ends at its first `;`: reading stops just after it, and it
/// comes out last, after the whole stack. Without a `;` every token is read.
pub proof fn law_expression_ends_at_semicolon<'t>(tokens: Seq<Token<'t>>, from: int, s: ExprState<'t>)
    requires
        0 <= from <= tokens.len(),
        !s.done,
    ensures
        ({
            let (pos, st) = expr_scan(tokens, from, s);
            &&& st.done <==> exists|k: int| from <= k < tokens.len() && #[trigger] tokens[k] is SemiColon
            &&& st.done ==> {
                &&& from < pos <= tokens.len()
                &&& tokens[pos - 1] is SemiColon
                &&& st.parsed.len() > 0 && st.parsed.last() == tokens[pos - 1]
                &&& st.stack.len() == 0
                &&& forall|k: int| from <= k < pos - 1 ==> !(#[trigger] tokens[k] is SemiColon)
            }
            &&& !st.done ==> pos == tokens.len()
        }),
    decreases tokens.len() - from,
{
    if from < tokens.len() {
        let t = tokens[from];
        let s2 = if t.is_whitespace() { s } else { expr_step(s, t) };
        assert(s2.done <==> t is SemiColon);
        if !(t.is_whitespace()) && s2.done {
            assert(exists|k: int| from <= k < tokens.len() && #[trigger] tokens[k] is SemiColon) by {
                assert(tokens[from] is SemiColon);
            }
        } else {
            law_expression_ends_at_semicolon(tokens, from + 1, s2);
            let st = expr_scan(tokens, from, s).1;
            if exists|k: int| from <= k < tokens.len() && #[trigger] tokens[k] is SemiColon {
                let k = choose|k: int| from <= k < tokens.len() && #[trigger] tokens[k] is SemiColon;
                assert(k != from);
                assert(from + 1 <= k < tokens.len() && tokens[k] is SemiColon);
            }
            if exists|k: int| from + 1 <= k < tokens.len() && #[trigger] tokens[k] is SemiColon {
                let k = choose|k: int| from + 1 <= k < tokens.len() && #[trigger] tokens[k] is SemiColon;
                assert(from <= k < tokens.len() && tokens[k] is SemiColon);
            }
        }
    }
}

/// The tokens of `ts` that are neither spaces nor newlines, in order.
pub open spec fn solid<'t>(ts: Seq<Token<'t>>) -> Seq<Token<'t>> {
    ts.filter(|t: Token<'t>| !t.is_whitespace())
}

/// The bracket depth after reading `t` at depth `d`: an open bracket opens a
/// level, a close bracket closes the innermost open one (at depth 0 there is
/// none to close), any other token leaves the depth as it is.
pub open spec fn bracket_step(d: nat, t: Token) -> nat {
    if t is OpenBracket {
        d + 1
    } else if t is CloseBracket && d > 0 {
        (d - 1) as nat
    } else {
        d
    }
}

/// The bracket depth after reading all of `ts`, from depth `d`.
pub open spec fn depth_after<'t>(d: nat, ts: Seq<Token<'t>>) -> nat
    decreases ts.len(),
{
    if ts.len() == 0 {
        d
    } else {
        depth_after(bracket_step(d, ts[0]), ts.drop_first())
    }
}

/// The position of the first `;` at or after `from`; the length of `tokens`
/// when there is none.
pub open spec fn first_semicolon<'t>(tokens: Seq<Token<'t>>, from: int) -> int
    decreases tokens.len() - from,
{
    if from >= tokens.len() {
        tokens.len() as int
    } else if tokens[from] is SemiColon {
        from
    } else {
        first_semicolon(tokens, from + 1)
    }
}

proof fn lemma_first_semicolon<'t>(tokens: Seq<Token<'t>>, from: int)
    requires
        0 <= from <= tokens.len(),
    ensures
        from <= first_semicolon(tokens, from) <= tokens.len(),
    decreases tokens.len() - from,
{
    if from < tokens.len() && !(tokens[from] is SemiColon) {
        lemma_first_semicolon(tokens, from + 1);
    }
}

/// The open brackets on a stack.
spec fn open_count<'t>(ts: Seq<Token<'t>>) -> nat
    decreases ts.len(),
{
    if ts.len() == 0 {
        0
    } else {
        open_count(ts.drop_last()) + if ts.last() is OpenBracket {
            1nat
        } else {
            0nat
        }
    }
}

/// A stack without its open brackets.
spec fn strip_open<'t>(ts: Seq<Token<'t>>) -> Seq<Token<'t>>
    decreases ts.len(),
{
    if ts.len() == 0 {
        ts
    } else if ts.last() is OpenBracket {
        strip_open(ts.drop_last())
    } else {
        strip_open(ts.drop_last()).push(ts.last())
    }
}

/// The tokens that a state holds and will write exactly once: its output,
/// and its stack but for the open brackets (each was written when read).
spec fn accounted<'t>(s: ExprState<'t>) -> Multiset<Token<'t>> {
    s.parsed.to_multiset().add(strip_open(s.stack).to_multiset())
}

/// The right precedence of the last operator is that of the top of the stack.
spec fn tracks_top<'t>(s: ExprState<'t>) -> bool {
    s.last_rp == if s.stack.len() > 0 {
        right_precedence(s.stack.last())
    } else {
        0
    }
}

proof fn lemma_stack_push<'t>(ts: Seq<Token<'t>>, t: Token<'t>)
    ensures
        open_count(ts.push(t)) == open_count(ts) + if t is OpenBracket {
            1nat
        } else {
            0nat
        },
        strip_open(ts.push(t)) == if t is OpenBracket {
            strip_open(ts)
        } else {
            strip_open(ts).push(t)
        },
{
    assert(ts.push(t).drop_last() =~= ts);
}

proof fn lemma_no_open_strip<'t>(ts: Seq<Token<'t>>)
    requires
        open_count(ts) == 0,
    ensures
        strip_open(ts) == ts,
    decreases ts.len(),
{
    if ts.len() > 0 {
        lemma_no_open_strip(ts.drop_last());
        assert(ts.drop_last().push(ts.last()) =~= ts);
    }
}

proof fn lemma_push_multiset<'t>(a: Multiset<Token<'t>>, b: Multiset<Token<'t>>, ts: Seq<Token<'t>>, t: Token<'t>)
    ensures
        ts.push(t).to_multiset() == ts.to_multiset().insert(t),
        a.insert(t).add(b) == a.add(b).insert(t),
        a.add(b.insert(t)) == a.add(b).insert(t),
{
    broadcast use vstd::seq_lib::group_to_multiset_ensures, vstd::multiset::group_multiset_axioms;

    assert(a.insert(t).add(b) =~= a.add(b).insert(t));
    assert(a.add(b.insert(t)) =~= a.add(b).insert(t));
}

/// Closing a bracket moves tokens from the stack to the output and drops one
/// open bracket: what the state accounts for is unchanged.
proof fn lemma_pop_to_open_accounts<'t>(stack: Seq<Token<'t>>, parsed: Seq<Token<'t>>)
    ensures
        ({
            let (st, p) = pop_to_open(stack, parsed);
            &&& p.to_multiset().add(strip_open(st).to_multiset()) == parsed.to_multiset().add(
                strip_open(stack).to_multiset(),
            )
            &&& open_count(st) == if open_count(stack) > 0 {
                (open_count(stack) - 1) as nat
            } else {
                0nat
            }
        }),
    decreases stack.len(),
{
    if stack.len() > 0 {
        let rest = stack.drop_last();
        let top = stack.last();
        lemma_stack_push(rest, top);
        assert(rest.push(top) =~= stack);
        if !(top is OpenBracket) {
            lemma_pop_to_open_accounts(rest, parsed.push(top));
            lemma_push_multiset(
                parsed.to_multiset(),
                strip_open(rest).to_multiset(),
                parsed,
                top,
            );
            lemma_push_multiset(
                parsed.to_multiset(),
                strip_open(rest).to_multiset(),
                strip_open(rest),
                top,
            );
        }
    }
}

/// Writing operators moves them from the stack to the output; an open
/// bracket binds nothing, so none is moved: what the state accounts for and
/// the bracket depth are unchanged.
proof fn lemma_pop_operators_accounts<'t>(stack: Seq<Token<'t>>, parsed: Seq<Token<'t>>, lp: u8)
    ensures
        ({
            let (st, p) = pop_operators(stack, parsed, lp);
            &&& p.to_multiset().add(strip_open(st).to_multiset()) == parsed.to_multiset().add(
                strip_open(stack).to_multiset(),
            )
            &&& open_count(st) == open_count(stack)
        }),
    decreases stack.len(),
{
    if stack.len() > 0 && lp < right_precedence(stack.last()) {
        let rest = stack.drop_last();
        let top = stack.last();
        assert(!(top is OpenBracket));
        assert(rest.push(top) =~= stack);
        lemma_stack_push(rest, top);
        lemma_pop_operators_accounts(rest, parsed.push(top), lp);
        lemma_push_multiset(parsed.to_multiset(), strip_open(rest).to_multiset(), parsed, top);
        lemma_push_multiset(
            parsed.to_multiset(),
            strip_open(rest).to_multiset(),
            strip_open(rest),
            top,
        );
    }
}

pub(crate) proof fn lemma_solid_single<'t>(t: Token<'t>)
    ensures
        solid(seq![t]) == if t.is_whitespace() {
            Seq::<Token<'t>>::empty()
        } else {
            seq![t]
        },
{
    reveal(Seq::filter);
    let e = Seq::<Token<'t>>::empty();
    assert(solid(e) =~= e);
    e.lemma_filter_push(t, |t: Token<'t>| !t.is_whitespace());
    assert(e.push(t) =~= seq![t]);
}

/// Reading one token that is neither a space nor a newline: a token other
/// than `;` is taken into account once and moves the bracket depth by one
/// step; a `;` read with no open bracket on the stack writes all that is
/// accounted for, and itself.
proof fn lemma_step_accounts<'t>(s: ExprState<'t>, t: Token<'t>)
    requires
        tracks_top(s),
        !t.is_whitespace(),
    ensures
        !(t is SemiColon) ==> {
            &&& tracks_top(expr_step(s, t))
            &&& expr_step(s, t).done == s.done
            &&& accounted(expr_step(s, t)) == accounted(s).insert(t)
            &&& open_count(expr_step(s, t).stack) == bracket_step(open_count(s.stack), t)
        },
        t is SemiColon && open_count(s.stack) == 0 ==> expr_step(s, t).parsed.to_multiset()
            == accounted(s).insert(t),
{
    broadcast use vstd::seq_lib::group_to_multiset_ensures, vstd::multiset::group_multiset_axioms;

    let pm = s.parsed.to_multiset();
    let sm = strip_open(s.stack).to_multiset();
    lemma_push_multiset(pm, sm, s.parsed, t);
    lemma_stack_push(s.stack, t);
    lemma_push_multiset(pm, sm, strip_open(s.stack), t);
    match t.kind() {
        TokenKind::Identifier | TokenKind::NumericLiteral => {},
        TokenKind::SemiColon => {
            if open_count(s.stack) == 0 {
                let r = s.stack.reverse();
                lemma_no_open_strip(s.stack);
                s.stack.lemma_reverse_to_multiset();
                vstd::seq_lib::lemma_multiset_commutative(s.parsed, r);
                assert(s.parsed + r + seq![t] =~= (s.parsed + r).push(t));
            }
        },
        TokenKind::OpenBracket => {},
        TokenKind::CloseBracket => {
            let (st, p) = pop_to_open(s.stack, s.parsed);
            lemma_pop_to_open_accounts(s.stack, s.parsed);
            lemma_push_multiset(p.to_multiset(), strip_open(st).to_multiset(), p, t);
        },
        _ => {
            let (st, p) = if left_precedence(t) < s.last_rp {
                lemma_pop_operators_accounts(s.stack, s.parsed, left_precedence(t));
                pop_operators(s.stack, s.parsed, left_precedence(t))
            } else {
                (s.stack, s.parsed)
            };
            lemma_stack_push(st, t);
            lemma_push_multiset(p.to_multiset(), strip_open(st).to_multiset(), strip_open(st), t);
        },
    }
}

/// Reading up to and including the first `;`, when that `;` leaves no
/// bracket open: the output then holds what the starting state accounted
/// for, and each token read that is neither a space nor a newline, once.
#[verifier::spinoff_prover]
proof fn lemma_scan_accounts<'t>(tokens: Seq<Token<'t>>, from: int, s: ExprState<'t>)
    requires
        0 <= from <= tokens.len(),
        tracks_top(s),
        !s.done,
        first_semicolon(tokens, from) < tokens.len(),
        depth_after(open_count(s.stack), tokens.subrange(from, first_semicolon(tokens, from) + 1))
            == 0,
    ensures
        expr_scan(tokens, from, s).0 == first_semicolon(tokens, from) + 1,
        expr_scan(tokens, from, s).1.parsed.to_multiset() == accounted(s).add(
            solid(tokens.subrange(from, first_semicolon(tokens, from) + 1)).to_multiset(),
        ),
    decreases tokens.len() - from,
{
    broadcast use vstd::seq_lib::group_to_multiset_ensures, vstd::multiset::group_multiset_axioms;

    lemma_first_semicolon(tokens, from);
    let t = tokens[from];
    let fs = first_semicolon(tokens, from);
    let seg = tokens.subrange(from, fs + 1);
    let rest = tokens.subrange(from + 1, fs + 1);
    let d = open_count(s.stack);
    assert(seg[0] == t);
    assert(seg.drop_first() =~= rest);
    assert(seg =~= seq![t] + rest);
    Seq::filter_distributes_over_add(seq![t], rest, |t: Token<'t>| !t.is_whitespace());
    lemma_solid_single(t);
    vstd::seq_lib::lemma_multiset_commutative(seq![t], solid(rest));
    assert(seq![t].to_multiset() =~= Multiset::<Token<'t>>::empty().insert(t)) by {
        assert(Seq::<Token<'t>>::empty().push(t) =~= seq![t]);
    }
    if t.is_whitespace() {
        assert(solid(seg) =~= solid(rest));
        lemma_scan_accounts(tokens, from + 1, s);
        assert(expr_scan(tokens, from, s) == expr_scan(tokens, from + 1, s));
        assert(expr_scan(tokens, from, s).1.parsed.to_multiset() == accounted(s).add(solid(seg).to_multiset()));
    } else {
        lemma_step_accounts(s, t);
        let s2 = expr_step(s, t);
        if t is SemiColon {
            assert(rest.len() == 0);
            assert(depth_after(d, seg) == depth_after(bracket_step(d, t), rest));
            assert(depth_after(bracket_step(d, t), rest) == d);
            assert(d == 0);
            assert(s2.parsed.to_multiset() == accounted(s).insert(t));
            assert(solid(seg) =~= seq![t]);
            assert(accounted(s).insert(t) =~= accounted(s).add(seq![t].to_multiset()));
            assert(expr_scan(tokens, from, s) == (from + 1, s2));
            assert(expr_scan(tokens, from, s).1.parsed.to_multiset() == accounted(s).add(solid(seg).to_multiset()));
        } else {
            assert(solid(seg) =~= seq![t] + solid(rest));
            lemma_scan_accounts(tokens, from + 1, s2);
            assert(accounted(s).insert(t).add(solid(rest).to_multiset()) =~= accounted(s).add(
                seq![t].to_multiset().add(solid(rest).to_multiset()),
            ));
            assert(expr_scan(tokens, from, s) == expr_scan(tokens, from + 1, s2));
            assert(expr_scan(tokens, from, s).1.parsed.to_multiset() == accounted(s).add(solid(seg).to_multiset()));
        }
    }
}

/// What an expression writes is a reordering of what it reads: reading from
/// `from` with an empty stack and output stops just after the first `;`, and,
/// when every bracket opened before that `;` is closed before it, writes each
/// token read that is neither a space nor a newline exactly once.
pub proof fn law_parse_reorders_input<'t>(tokens: Seq<Token<'t>>, from: int)
    requires
        0 <= from <= tokens.len(),
        first_semicolon(tokens, from) < tokens.len(),
        depth_after(0, tokens.subrange(from, first_semicolon(tokens, from) + 1)) == 0,
    ensures
        expr_scan(tokens, from, start_state(seq![], seq![])).0 == first_semicolon(tokens, from) + 1,
        expr_scan(tokens, from, start_state(seq![], seq![])).1.parsed.to_multiset() == solid(
            tokens.subrange(from, first_semicolon(tokens, from) + 1),
        ).to_multiset(),
{
    broadcast use vstd::seq_lib::group_to_multiset_ensures, vstd::multiset::group_multiset_axioms;

    let s = start_state(Seq::<Token<'t>>::empty(), Seq::<Token<'t>>::empty());
    assert(open_count(s.stack) == 0);
    assert(strip_open(s.stack) == s.stack);
    lemma_scan_accounts(tokens, from, s);
    let m = solid(tokens.subrange(from, first_semicolon(tokens, from) + 1)).to_multiset();
    assert(accounted(s).add(m) =~= m);
}

/// A parser that turns a run of tokens into postfix order.
pub struct Parser<'t> {
    index: usize,
    tokens: &'t [Token<'t>],
    stack: Vec<Token<'t>>,
    parsed: Vec<Token<'t>>,
}

impl<'t> Parser<'t> {
    /// The position of the next token to read.
    pub closed spec fn position(&self) -> int {
        self.index as int
    }

    pub closed spec fn input(&self) -> Seq<Token<'t>> {
        self.tokens@
    }

    /// The operator stack, bottom first.
    pub closed spec fn operators(&self) -> Seq<Token<'t>> {
        self.stack@
    }

    /// The tokens written so far.
    pub closed spec fn output(&self) -> Seq<Token<'t>> {
        self.parsed@
    }

    /// `after` is this parser with `t` pushed onto its operator stack.
    pub open spec fn pushed(self, t: Token<'t>, after: Self) -> bool {
        &&& after.input() == self.input()
        &&& after.position() == self.position()
        &&& after.output() == self.output()
        &&& after.operators() == self.operators().push(t)
    }

    /// `after` is this parser with the top of its operator stack popped, and
    /// `r` is the token popped (`None` when the stack is empty, which is
    /// then left as it is).
    pub open spec fn popped(self, r: Option<Token<'t>>, after: Self) -> bool {
        &&& after.input() == self.input()
        &&& after.position() == self.position()
        &&& after.output() == self.output()
        &&& self.operators().len() > 0 ==> r == Some(self.operators().last())
            && after.operators() == self.operators().drop_last()
        &&& self.operators().len() == 0 ==> r is None && after.operators() == self.operators()
    }

    pub fn new(index: usize, tokens: &'t [Token<'t>]) -> (p: Self)
        ensures
            p.position() == index,
            p.input() == tokens@,
            p.operators() == Seq::<Token<'t>>::empty(),
            p.output() == Seq::<Token<'t>>::empty(),
    {
        Parser {
            index,
            tokens,
            stack: Vec::new(),
            parsed: Vec::with_capacity(tokens.len()),
        }
    }

    /// The next token that is neither a space nor a newline, at or after the
    /// current position, without moving.
    fn peek_token(&self) -> (r: Option<Token<'t>>)
        ensures
            r == (match next_solid(self.input(), self.position(), self.input().len() as int) {
                Some(i) => Some(self.input()[i]),
                None => None,
            }),
    {
        let mut index = self.index;

        loop
            invariant
                self.position() <= index,
                next_solid(self.input(), self.position(), self.input().len() as int) == next_solid(
                    self.input(),
                    index as int,
                    self.input().len() as int,
                ),
            decreases self.tokens.len() - index,
        {
            if index >= self.tokens.len() {
                return None;
            }
            let next_token = self.tokens[index];
            index += 1;

            if let Token::Space(_) | Token::Newline(_) = next_token {
                continue;
            } else {
                return Some(next_token);
            }
        }
    }

    /// Reads the next token that is neither a space nor a newline.
    fn next_token(&mut self) -> (r: Option<Token<'t>>)
        ensures
            final(self).input() == old(self).input(),
            final(self).operators() == old(self).operators(),
            final(self).output() == old(self).output(),
            match next_solid(old(self).input(), old(self).position(), old(self).input().len() as int) {
                Some(i) => r == Some(old(self).input()[i]) && final(self).position() == i + 1,
                None => r is None && final(self).position() == if old(self).position()
                    < old(self).input().len() {
                    old(self).input().len() as int
                } else {
                    old(self).position()
                },
            },
    {
        loop
            invariant
                self.input() == old(self).input(),
                self.operators() == old(self).operators(),
                self.output() == old(self).output(),
                old(self).position() <= self.position(),
                self.position() > old(self).position() ==> self.position() <= self.input().len(),
                next_solid(old(self).input(), old(self).position(), old(self).input().len() as int)
                    == next_solid(self.input(), self.position(), self.input().len() as int),
            decreases self.tokens.len() - self.index,
        {
            if self.index >= self.tokens.len() {
                return None;
            }
            let next_token = self.tokens[self.index];
            self.index += 1;

            if let Token::Space(_) | Token::Newline(_) = next_token {
                continue;
            } else {
                return Some(next_token);
            }
        }
    }

    fn consume_token(&mut self)
        ensures
            final(self).input() == old(self).input(),
            final(self).operators() == old(self).operators(),
            final(self).output() == old(self).output(),
            final(self).position() == match next_solid(
                old(self).input(),
                old(self).position(),
                old(self).input().len() as int,
            ) {
                Some(i) => i + 1,
                None => if old(self).position() < old(self).input().len() {
                    old(self).input().len() as int
                } else {
                    old(self).position()
                },
            },
    {
        let _ = self.next_token();
    }

    pub fn push(&mut self, token: Token<'t>)
        ensures
            old(self).pushed(token, *final(self)),
    {
        self.stack.push(token);
    }

    pub fn pop(&mut self) -> (r: Option<Token<'t>>)
        ensures
            old(self).popped(r, *final(self)),
    {
        self.stack.pop()
    }

    fn last(&mut self) -> (r: Option<&Token<'t>>)
        ensures
            *final(self) == *old(self),
            old(self).operators().len() > 0 ==> r == Some(&old(self).operators().last()),
            old(self).operators().len() == 0 ==> r is None,
    {
        self.stack.last()
    }

    fn write(&mut self, token: Token<'t>)
        ensures
            final(self).input() == old(self).input(),
            final(self).position() == old(self).position(),
            final(self).operators() == old(self).operators(),
            final(self).output() == old(self).output().push(token),
    {
        self.parsed.push(token);
    }

    /// Peeks at the next token and passes it into `predicate`.
    ///
    /// When `predicate` returns `true`, this function returns `Ok` containing
    /// the peeked token. Otherwise it returns `Err`, locating the token that
    /// was found, or the end of the last token when there is none.
    fn expect<P>(&mut self, predicate: P) -> (r: Result<Token<'t>, UnexpectedToken>) where
        P: FnOnce(&Token<'t>) -> bool,

        requires
            forall|t: Token<'t>| #[trigger] predicate.requires((&t,)),
            next_solid(old(self).input(), old(self).position(), old(self).input().len() as int) is None
                ==> old(self).position() > 0 && (next_solid(
                old(self).input(),
                old(self).position() - 1,
                old(self).input().len() as int,
            ) matches Some(j) ==> old(self).input()[j].location() + (old(self).input()[j].bytes().len() as usize)
                <= usize::MAX),
        ensures
            final(self).input() == old(self).input(),
            final(self).position() == old(self).position(),
            final(self).operators() == old(self).operators(),
            final(self).output() == old(self).output(),
            r matches Ok(found) ==> (next_solid(
                old(self).input(),
                old(self).position(),
                old(self).input().len() as int,
            ) matches Some(i) && found == old(self).input()[i] && predicate.ensures((&found,), true)),
            r matches Err(e) ==> unexpected_at(old(self).input(), old(self).position(), e) && (next_solid(
                old(self).input(),
                old(self).position(),
                old(self).input().len() as int,
            ) matches Some(i) ==> predicate.ensures((&old(self).input()[i],), false)),
            next_solid(old(self).input(), old(self).position(), old(self).input().len() as int) is None
                ==> r is Err,
    {
        proof {
            lemma_next_solid(self.input(), self.position(), self.input().len() as int);
            lemma_next_solid(self.input(), self.position() - 1, self.input().len() as int);
        }
        match self.peek_token() {
            Some(token) => {
                if predicate(&token) {
                    Ok(token)
                } else {
                    let start = token.loc();
                    let length = token.as_str().len();

                    Err(UnexpectedToken {
                        found: Some(token.as_str().to_owned()),
                        unexpected_span: LabeledSpan::new(None, start, length),
                    })
                }
            },
            None => {
                // Look one token back, for the end of the last token
                self.index -= 1;
                let last_token = self.peek_token();
                self.index += 1;

                match last_token {
                    Some(token) => {
                        let start = token.loc();
                        let length = token.as_str().len();

                        Err(UnexpectedToken {
                            found: None,
                            unexpected_span: LabeledSpan::new(None, start + length, 0),
                        })
                    },
                    None => Err(UnexpectedToken {
                        found: None,
                        unexpected_span: LabeledSpan::new(None, 0, 0),
                    }),
                }
            },
        }
    }

    /// Peeks at the next token and passes it into `predicate`.
    ///
    /// When `predicate` returns `true`, this function returns `Ok` containing
    /// the peeked token. Otherwise it returns a report whose message
    /// describes the unexpected token, with one label, the text that `msg`
    /// gives for the error, over the place the error marks.
    fn expect_with_msg<P, M>(&mut self, predicate: P, msg: M) -> (r: Result<Token<'t>, Report>) where
        P: FnOnce(&Token<'t>) -> bool,
        M: FnOnce(&UnexpectedToken) -> String,

        requires
            forall|t: Token<'t>| #[trigger] predicate.requires((&t,)),
            forall|e: UnexpectedToken| #[trigger] msg.requires((&e,)),
            next_solid(old(self).input(), old(self).position(), old(self).input().len() as int) is None
                ==> old(self).position() > 0 && (next_solid(
                old(self).input(),
                old(self).position() - 1,
                old(self).input().len() as int,
            ) matches Some(j) ==> old(self).input()[j].location() + (old(self).input()[j].bytes().len() as usize)
                <= usize::MAX),
        ensures
            final(self).input() == old(self).input(),
            final(self).position() == old(self).position(),
            final(self).operators() == old(self).operators(),
            final(self).output() == old(self).output(),
            r matches Ok(found) ==> (next_solid(
                old(self).input(),
                old(self).position(),
                old(self).input().len() as int,
            ) matches Some(i) && found == old(self).input()[i] && predicate.ensures((&found,), true)),
            r matches Err(report) ==> (next_solid(
                old(self).input(),
                old(self).position(),
                old(self).input().len() as int,
            ) matches Some(i) ==> predicate.ensures((&old(self).input()[i],), false)) && exists|
                e: UnexpectedToken,
                m: String,
            |
                {
                    &&& unexpected_at(old(self).input(), old(self).position(), e)
                    &&& #[trigger] msg.ensures((&e,), m)
                    &&& report.message@ == e.describe()
                    &&& report.labels@.len() == 1
                    &&& report.labels@[0].label == Some(m)
                    &&& report.labels@[0].offset == e.unexpected_span.offset
                    &&& report.labels@[0].len == e.unexpected_span.len
                },
            next_solid(old(self).input(), old(self).position(), old(self).input().len() as int) is None
                ==> r is Err,
    {
        let result = self.expect(predicate);

        match result {
            Ok(token) => Ok(token),
            Err(err) => {
                let text = msg(&err);
                let description = err.description();
                let labelled_span = LabeledSpan::new(
                    Some(text),
                    err.unexpected_span.offset,
                    err.unexpected_span.len,
                );
                let mut labels = Vec::new();
                labels.push(labelled_span);
                Err(Report { message: description, labels })
            },
        }
    }

    /// Pops and writes the whole stack.
    fn write_stack(&mut self)
        ensures
            final(self).input() == old(self).input(),
            final(self).position() == old(self).position(),
            final(self).operators() == Seq::<Token<'t>>::empty(),
            final(self).output() == old(self).output() + old(self).operators().reverse(),
    {
        loop
            invariant
                self.input() == old(self).input(),
                self.position() == old(self).position(),
                self.output() + self.operators().reverse() == old(self).output() + old(
                    self,
                ).operators().reverse(),
            ensures
                self.input() == old(self).input(),
                self.position() == old(self).position(),
                self.operators().len() == 0,
                self.output() == old(self).output() + old(self).operators().reverse(),
            decreases self.operators().len(),
        {
            let ghost ops = self.operators();
            let ghost out = self.output();
            match self.pop() {
                Some(popped) => {
                    self.write(popped);
                    assert(ops.reverse() =~= seq![popped] + ops.drop_last().reverse());
                    assert(out + ops.reverse() =~= out.push(popped) + ops.drop_last().reverse());
                },
                None => {
                    assert(out + ops.reverse() =~= out);
                    break;
                },
            }
        }
    }

    /// Pops and writes the stack down to the nearest open bracket, which is dropped.
    fn write_until_open(&mut self)
        ensures
            final(self).input() == old(self).input(),
            final(self).position() == old(self).position(),
            (final(self).operators(), final(self).output()) == pop_to_open(
                old(self).operators(),
                old(self).output(),
            ),
    {
        loop
            invariant_except_break
                pop_to_open(self.operators(), self.output()) == pop_to_open(
                    old(self).operators(),
                    old(self).output(),
                ),
            invariant
                self.input() == old(self).input(),
                self.position() == old(self).position(),
            ensures
                self.input() == old(self).input(),
                self.position() == old(self).position(),
                (self.operators(), self.output()) == pop_to_open(
                    old(self).operators(),
                    old(self).output(),
                ),
            decreases self.operators().len(),
        {
            match self.pop() {
                Some(popped) => {
                    match popped {
                        Token::OpenBracket(_) => {
                            break;
                        },
                        _ => {
                            self.write(popped);
                        },
                    }
                },
                None => {
                    break;
                },
            }
        }
    }

    /// Pops and writes operators while the one on top of the stack binds
    /// tighter than an incoming operator of left precedence `lp`.
    fn write_operators(&mut self, lp: u8)
        ensures
            final(self).input() == old(self).input(),
            final(self).position() == old(self).position(),
            (final(self).operators(), final(self).output()) == pop_operators(
                old(self).operators(),
                old(self).output(),
                lp,
            ),
    {
        loop
            invariant_except_break
                pop_operators(self.operators(), self.output(), lp) == pop_operators(
                    old(self).operators(),
                    old(self).output(),
                    lp,
                ),
            invariant
                self.input() == old(self).input(),
                self.position() == old(self).position(),
            ensures
                self.input() == old(self).input(),
                self.position() == old(self).position(),
                (self.operators(), self.output()) == pop_operators(
                    old(self).operators(),
                    old(self).output(),
                    lp,
                ),
            decreases self.operators().len(),
        {
            let top_rp = match self.last() {
                Some(top) => {
                    let (_top_lp, rp) = top.precedence();
                    rp
                },
                None => {
                    break;
                },
            };
            if lp < top_rp {
                match self.pop() {
                    Some(popped) => {
                        self.write(popped);
                    },
                    None => {
                        break;
                    },
                }
            } else {
                break;
            }
        }
    }

    /// Parses an expression from the current position into postfix order.
    pub fn parse(self) -> (r: Result<Vec<Token<'t>>, Report>)
        ensures
            r is Err <==> next_solid(self.input(), self.position(), self.input().len() as int) is None,
            r matches Err(e) ==> e.message@ == "Expected token"@ && e.labels@.len() == 0,
            r matches Ok(v) ==> v@ == expr_scan(
                self.input(),
                self.position(),
                start_state(self.operators(), self.output()),
            ).1.parsed,
    {
        let mut parser = self;
        let token = parser.peek_token();
        match token {
            None => {
                return Err(Report { message: String::from_str("Expected token"), labels: Vec::new() });
            },
            Some(_) => {
                let _ = expression(&mut parser);
            },
        }
        Ok(parser.parsed)
    }
}

/// A pop right after a push gives back the pushed token and leaves the
/// parser as it was before the push: the same input, position, operator
/// stack and output.
pub proof fn law_pop_undoes_push<'t>(
    before: Parser<'t>,
    t: Token<'t>,
    between: Parser<'t>,
    r: Option<Token<'t>>,
    after: Parser<'t>,
)
    requires
        before.pushed(t, between),
        between.popped(r, after),
    ensures
        r == Some(t),
        after.input() == before.input(),
        after.position() == before.position(),
        after.operators() == before.operators(),
        after.output() == before.output(),
{
    assert(before.operators().push(t).drop_last() =~= before.operators());
}

/// Turns the expression at the parser's position into postfix order: operands
/// are written as they come, operators wait on the stack for those that bind
/// tighter, and a `;` flushes the stack and ends the expression.
fn expression<'p, 't>(parser: &'p mut Parser<'t>) -> (r: Result<(), Report>)
    ensures
        r is Ok,
        final(parser).input() == old(parser).input(),
        ({
            let (pos, st) = expr_scan(
                old(parser).input(),
                old(parser).position(),
                start_state(old(parser).operators(), old(parser).output()),
            );
            &&& final(parser).position() == pos
            &&& final(parser).operators() == st.stack
            &&& final(parser).output() == st.parsed
        }),
{
    let ghost input = parser.input();
    let ghost goal = expr_scan(
        old(parser).input(),
        old(parser).position(),
        start_state(old(parser).operators(), old(parser).output()),
    );
    // Right precedence of the operator just to the left of our current position
    let mut last_rp: u8 = 0;
    loop
        invariant_except_break
            expr_scan(
                input,
                parser.position(),
                ExprState { stack: parser.operators(), parsed: parser.output(), last_rp, done: false },
            ) == goal,
        invariant
            parser.input() == input,
        ensures
            parser.input() == input,
            parser.position() == goal.0,
            parser.operators() == goal.1.stack,
            parser.output() == goal.1.parsed,
        decreases input.len() - parser.position(),
    {
        let ghost s = ExprState {
            stack: parser.operators(),
            parsed: parser.output(),
            last_rp,
            done: false,
        };
        proof {
            lemma_scan_next(input, parser.position(), s);
            lemma_next_solid(input, parser.position(), input.len() as int);
        }
        let next = parser.next_token();
        if next.is_none() {
            break;
        }
        let token = next.unwrap();
        let ghost s2 = expr_step(s, token);

        match token {
            // Write idents/literals immediately
            Token::Identifier(_) | Token::NumericLiteral(_) => {
                parser.write(token);
            },
            // Handle end of expression
            Token::SemiColon(_) => {
                parser.write_stack();
                parser.write(token);
                assert(parser.output() =~= s2.parsed);
                break;
            },
            // An open bracket is written, and pushed to the stack so that it
            // bounds the expression it starts
            Token::OpenBracket(_) => {
                let (_, rp) = token.precedence();
                parser.write(token);
                parser.push(token);
                last_rp = rp;
            },
            // A close bracket pops and writes the stack down to its open
            // bracket, then is written itself
            Token::CloseBracket(_) => {
                parser.write_until_open();
                if let Some(top) = parser.last() {
                    let (_, rp) = top.precedence();
                    last_rp = rp;
                } else {
                    last_rp = 0;
                }
                parser.write(token);
            },
            _ => {
                let (lp, rp) = token.precedence();
                if lp < last_rp {
                    // The incoming operator binds less tightly than the one
                    // on the stack: pop and write operators until this is
                    // no longer the case
                    parser.write_operators(lp);
                }
                parser.push(token);
                last_rp = rp;
            },
        }
        assert(parser.operators() == s2.stack && parser.output() == s2.parsed && last_rp == s2.last_rp);
    }
    Ok(())
}

} // verus!
