use vstd::prelude::*;

use crate::parse::parser::{
    expr_scan, expr_step, is_operand, left_precedence, lemma_solid_single, pop_operators,
    pop_to_open, right_precedence, solid, start_state, ExprState,
};
use crate::token::Token;

verus! {

/// An expression over operands, `+`, `-`, `*` and round brackets, as a tree
/// whose nodes hold the tokens they are written with.
pub enum Infix<'t> {
    Operand(Token<'t>),
    Binary(Box<Infix<'t>>, Token<'t>, Box<Infix<'t>>),
    Bracketed(Token<'t>, Box<Infix<'t>>, Token<'t>),
}

/// `+`, `-` and `*`.
pub open spec fn is_arith(t: Token) -> bool {
    t is Plus || t is Minus || t is Times
}

/// The operators: the tokens that the precedence table gives a precedence,
/// `+`, `-`, `=` and `{` binding at left precedence 3, `*` and `:` at 5.
pub open spec fn is_operator(t: Token) -> bool {
    left_precedence(t) > 0
}

/// The tokens an expression is written with, from left to right.
pub open spec fn render<'t>(e: Infix<'t>) -> Seq<Token<'t>>
    decreases e,
{
    match e {
        Infix::Operand(t) => seq![t],
        Infix::Binary(l, op, r) => render(*l) + seq![op] + render(*r),
        Infix::Bracketed(o, x, c) => seq![o] + render(*x) + seq![c],
    }
}

/// A factor: an operand, or an expression in round brackets.
pub open spec fn is_factor<'t>(e: Infix<'t>) -> bool
    decreases e, 0nat,
{
    match e {
        Infix::Operand(t) => is_operand(t),
        Infix::Bracketed(o, x, c) => o is OpenBracket && c is CloseBracket && is_expr(*x),
        Infix::Binary(..) => false,
    }
}

/// A term: factors joined by `*`, grouped from the left.
pub open spec fn is_term<'t>(e: Infix<'t>) -> bool
    decreases e, 1nat,
{
    match e {
        Infix::Binary(l, op, r) => op is Times && is_term(*l) && is_factor(*r),
        _ => is_factor(e),
    }
}

/// An expression: terms joined by `+` and `-`, grouped from the left, so
/// that `*` binds tighter than `+` and `-`, and operators of the same
/// precedence group from left to right. Every expression written with
/// operands, `+`, `-`, `*` and balanced round brackets is the rendering of
/// exactly one such tree.
pub open spec fn is_expr<'t>(e: Infix<'t>) -> bool
    decreases e, 2nat,
{
    match e {
        Infix::Binary(l, op, r) => if op is Times {
            is_term(e)
        } else {
            (op is Plus || op is Minus) && is_expr(*l) && is_term(*r)
        },
        _ => is_term(e),
    }
}

/// The result of the operation of `op` on `a` and `b`.
pub open spec fn apply(op: Token, a: int, b: int) -> int {
    if op is Plus {
        a + b
    } else if op is Minus {
        a - b
    } else {
        a * b
    }
}

/// The value of an expression, given the value of each operand.
pub open spec fn value<'t>(e: Infix<'t>, val: spec_fn(Token<'t>) -> int) -> int
    decreases e,
{
    match e {
        Infix::Operand(t) => val(t),
        Infix::Binary(l, op, r) => apply(op, value(*l, val), value(*r, val)),
        Infix::Bracketed(_, x, _) => value(*x, val),
    }
}

/// The postfix order of an expression: both operands, then the operator; a
/// bracketed expression keeps its brackets around it.
pub open spec fn postfix<'t>(e: Infix<'t>) -> Seq<Token<'t>>
    decreases e,
{
    match e {
        Infix::Operand(t) => seq![t],
        Infix::Binary(l, op, r) => postfix(*l) + postfix(*r) + seq![op],
        Infix::Bracketed(o, x, c) => seq![o] + postfix(*x) + seq![c],
    }
}

/// One step of evaluating tokens in postfix order on a stack of values: an
/// operand pushes its value; `+`, `-` and `*` replace the top two values by
/// the result of the operation, the lower value on the left; any other token
/// is passed over.
pub open spec fn rpn_step<'t>(vs: Seq<int>, t: Token<'t>, val: spec_fn(Token<'t>) -> int) -> Seq<int> {
    if is_operand(t) {
        vs.push(val(t))
    } else if is_arith(t) && vs.len() >= 2 {
        vs.drop_last().drop_last().push(apply(t, vs[vs.len() - 2], vs.last()))
    } else {
        vs
    }
}

/// The stack of values after evaluating `ts` in postfix order from `vs`.
pub open spec fn rpn<'t>(vs: Seq<int>, ts: Seq<Token<'t>>, val: spec_fn(Token<'t>) -> int) -> Seq<int>
    decreases ts.len(),
{
    if ts.len() == 0 {
        vs
    } else {
        rpn_step(rpn(vs, ts.drop_last(), val), ts.last(), val)
    }
}

/// Every operator of the expression is `+`, `-` or `*`.
pub open spec fn arith_tree<'t>(e: Infix<'t>) -> bool
    decreases e,
{
    match e {
        Infix::Operand(_) => true,
        Infix::Binary(l, op, r) => is_arith(op) && arith_tree(*l) && arith_tree(*r),
        Infix::Bracketed(_, x, _) => arith_tree(*x),
    }
}

/// The operators of an expression still on the stack once it has been
/// read: the operators down its right side.
spec fn pending<'t>(e: Infix<'t>) -> Seq<Token<'t>>
    decreases e,
{
    match e {
        Infix::Binary(_, op, r) => seq![op] + pending(*r),
        _ => seq![],
    }
}

/// What has been written once an expression has been read.
spec fn written<'t>(e: Infix<'t>) -> Seq<Token<'t>>
    decreases e,
{
    match e {
        Infix::Operand(t) => seq![t],
        Infix::Binary(l, _, r) => postfix(*l) + written(*r),
        Infix::Bracketed(o, x, c) => seq![o] + postfix(*x) + seq![c],
    }
}

/// The expression can be read above a stack whose top has right precedence
/// at most `r`: no operator of it pops that top, and each of its operators
/// pops the pending operators of its left side.
spec fn fits<'t>(e: Infix<'t>, r: u8) -> bool
    decreases e,
{
    match e {
        Infix::Operand(t) => is_operand(t),
        Infix::Bracketed(o, x, c) => o is OpenBracket && c is CloseBracket && fits(*x, 0),
        Infix::Binary(l, op, rr) => {
            &&& is_operator(op)
            &&& r <= left_precedence(op)
            &&& fits(*l, r)
            &&& forall|i: int|
                0 <= i < pending(*l).len() ==> left_precedence(op) < right_precedence(
                    #[trigger] pending(*l)[i],
                )
            &&& fits(*rr, right_precedence(op))
        },
    }
}

/// The last operator's right precedence is that of the top of the stack.
spec fn tracks<'t>(s: ExprState<'t>) -> bool {
    s.last_rp == if s.stack.len() > 0 {
        right_precedence(s.stack.last())
    } else {
        0
    }
}

/// Reading `ts` one token after another, none of them a space, a newline
/// or a `;`.
spec fn read<'t>(s: ExprState<'t>, ts: Seq<Token<'t>>) -> ExprState<'t>
    decreases ts.len(),
{
    if ts.len() == 0 {
        s
    } else {
        read(expr_step(s, ts[0]), ts.drop_first())
    }
}

/// No token of `ts` is a space, a newline or a `;`.
spec fn plain<'t>(ts: Seq<Token<'t>>) -> bool {
    forall|i: int| 0 <= i < ts.len() ==> !(#[trigger] ts[i]).is_whitespace() && !(ts[i] is SemiColon)
}

proof fn lemma_pending_operators<'t>(e: Infix<'t>, r: u8)
    requires
        fits(e, r),
    ensures
        forall|i: int| 0 <= i < pending(e).len() ==> is_operator(#[trigger] pending(e)[i]),
    decreases e,
{
    match e {
        Infix::Binary(l, op, rr) => {
            lemma_pending_operators(*rr, right_precedence(op));
            assert forall|i: int| 0 <= i < pending(e).len() implies is_operator(#[trigger] pending(e)[i]) by {
                if i > 0 {
                    assert(pending(e)[i] == pending(*rr)[i - 1]);
                }
            }
        },
        _ => {},
    }
}

proof fn lemma_render_plain<'t>(e: Infix<'t>, r: u8)
    requires
        fits(e, r),
    ensures
        plain(render(e)),
    decreases e,
{
    match e {
        Infix::Operand(t) => {},
        Infix::Binary(l, op, rr) => {
            lemma_render_plain(*l, r);
            lemma_render_plain(*rr, right_precedence(op));
            let a = render(*l);
            let b = render(*rr);
            assert forall|i: int| 0 <= i < render(e).len() implies !(#[trigger] render(e)[i]).is_whitespace()
                && !(render(e)[i] is SemiColon) by {
                if i < a.len() {
                    assert(render(e)[i] == a[i]);
                } else if i > a.len() {
                    assert(render(e)[i] == b[i - a.len() - 1]);
                }
            }
        },
        Infix::Bracketed(o, x, c) => {
            lemma_render_plain(*x, 0);
            let a = render(*x);
            assert forall|i: int| 0 <= i < render(e).len() implies !(#[trigger] render(e)[i]).is_whitespace()
                && !(render(e)[i] is SemiColon) by {
                if 0 < i <= a.len() {
                    assert(render(e)[i] == a[i - 1]);
                }
            }
        },
    }
}

proof fn lemma_postfix_split<'t>(e: Infix<'t>)
    ensures
        postfix(e) == written(e) + pending(e).reverse(),
    decreases e,
{
    match e {
        Infix::Binary(l, op, rr) => {
            lemma_postfix_split(*rr);
            let p = pending(*rr);
            assert((seq![op] + p).reverse() =~= p.reverse() + seq![op]);
            assert(postfix(e) =~= written(e) + pending(e).reverse());
        },
        _ => {
            assert(postfix(e) =~= written(e) + pending(e).reverse());
        },
    }
}

/// Operators above the stack `s` that all bind tighter than `lp` are popped
/// and written, top first, and the popping stops at `s`.
proof fn lemma_pop_pending<'t>(s: Seq<Token<'t>>, p: Seq<Token<'t>>, out: Seq<Token<'t>>, lp: u8)
    requires
        forall|i: int| 0 <= i < p.len() ==> lp < right_precedence(#[trigger] p[i]),
        s.len() > 0 ==> right_precedence(s.last()) <= lp,
    ensures
        pop_operators(s + p, out, lp) == (s, out + p.reverse()),
    decreases p.len(),
{
    if p.len() == 0 {
        assert(s + p =~= s);
        assert(out + p.reverse() =~= out);
    } else {
        assert((s + p).last() == p.last());
        assert((s + p).drop_last() =~= s + p.drop_last());
        lemma_pop_pending(s, p.drop_last(), out.push(p.last()), lp);
        assert(out.push(p.last()) + p.drop_last().reverse() =~= out + p.reverse());
    }
}

/// A close bracket pops and writes the operators above its open bracket,
/// top first, and drops the open bracket.
proof fn lemma_pop_bracket<'t>(s: Seq<Token<'t>>, o: Token<'t>, p: Seq<Token<'t>>, out: Seq<Token<'t>>)
    requires
        o is OpenBracket,
        forall|i: int| 0 <= i < p.len() ==> is_operator(#[trigger] p[i]),
    ensures
        pop_to_open(s.push(o) + p, out) == (s, out + p.reverse()),
    decreases p.len(),
{
    if p.len() == 0 {
        assert(s.push(o) + p =~= s.push(o));
        assert(s.push(o).drop_last() =~= s);
        assert(out + p.reverse() =~= out);
    } else {
        assert((s.push(o) + p).last() == p.last());
        assert(is_operator(p[p.len() - 1]));
        assert((s.push(o) + p).drop_last() =~= s.push(o) + p.drop_last());
        lemma_pop_bracket(s, o, p.drop_last(), out.push(p.last()));
        assert(out.push(p.last()) + p.drop_last().reverse() =~= out + p.reverse());
    }
}

proof fn lemma_read_add<'t>(s: ExprState<'t>, a: Seq<Token<'t>>, b: Seq<Token<'t>>)
    ensures
        read(s, a + b) == read(read(s, a), b),
    decreases a.len(),
{
    if a.len() == 0 {
        assert(a + b =~= b);
    } else {
        assert((a + b)[0] == a[0]);
        assert((a + b).drop_first() =~= a.drop_first() + b);
        lemma_read_add(expr_step(s, a[0]), a.drop_first(), b);
    }
}

proof fn lemma_read_one<'t>(s: ExprState<'t>, t: Token<'t>)
    ensures
        read(s, seq![t]) == expr_step(s, t),
{
    let e = Seq::<Token<'t>>::empty();
    assert(seq![t].drop_first() =~= e);
    assert(seq![t][0] == t);
    assert(read(expr_step(s, t), e) == expr_step(s, t));
}

/// Reading an expression leaves its pending operators on the stack, above
/// the stack it was read on, and writes the rest of it.
proof fn lemma_read_infix<'t>(e: Infix<'t>, s: ExprState<'t>, r: u8)
    requires
        fits(e, r),
        tracks(s),
        s.last_rp <= r,
        !s.done,
    ensures
        read(s, render(e)) == (ExprState {
            stack: s.stack + pending(e),
            parsed: s.parsed + written(e),
            last_rp: if pending(e).len() > 0 {
                right_precedence(pending(e).last())
            } else {
                s.last_rp
            },
            done: false,
        }),
    decreases e,
{
    match e {
        Infix::Operand(t) => {
            lemma_read_one(s, t);
            assert(s.stack + pending(e) =~= s.stack);
            assert(s.parsed + written(e) =~= s.parsed.push(t));
        },
        Infix::Binary(l, op, rr) => {
            let lp = left_precedence(op);
            lemma_read_add(s, render(*l) + seq![op], render(*rr));
            lemma_read_add(s, render(*l), seq![op]);
            lemma_read_infix(*l, s, r);
            let s1 = read(s, render(*l));
            lemma_read_one(s1, op);
            lemma_pending_operators(*l, r);
            lemma_postfix_split(*l);
            let pl = pending(*l);
            if pl.len() > 0 {
                assert((s.stack + pl).last() == pl.last());
                assert(lp < right_precedence(pl[pl.len() - 1]));
            } else {
                assert(s.stack + pl =~= s.stack);
            }
            lemma_pop_pending(s.stack, pl, s.parsed + written(*l), lp);
            assert(s.parsed + written(*l) + pl.reverse() =~= s.parsed + postfix(*l));
            let s2 = ExprState {
                stack: s.stack.push(op),
                parsed: s.parsed + postfix(*l),
                last_rp: right_precedence(op),
                done: false,
            };
            assert(expr_step(s1, op) == s2);
            lemma_read_infix(*rr, s2, right_precedence(op));
            assert(s.stack.push(op) + pending(*rr) =~= s.stack + pending(e));
            assert(s.parsed + postfix(*l) + written(*rr) =~= s.parsed + written(e));
            assert(render(e) =~= render(*l) + seq![op] + render(*rr));
            let got = read(s, render(e));
            assert(got == read(s2, render(*rr)));
            assert(got.parsed =~= s.parsed + written(e));
            if pending(*rr).len() > 0 {
                assert(pending(e).last() == pending(*rr).last());
            }
        },
        Infix::Bracketed(o, x, c) => {
            lemma_read_add(s, seq![o] + render(*x), seq![c]);
            lemma_read_add(s, seq![o], render(*x));
            lemma_read_one(s, o);
            let s1 = expr_step(s, o);
            assert(s1.last_rp == 0);
            lemma_read_infix(*x, s1, 0);
            let s2 = read(s1, render(*x));
            lemma_read_one(s2, c);
            lemma_pending_operators(*x, 0);
            lemma_postfix_split(*x);
            lemma_pop_bracket(s.stack, o, pending(*x), s.parsed.push(o) + written(*x));
            assert(render(e) =~= seq![o] + render(*x) + seq![c]);
            let got = read(s, render(e));
            assert(got == expr_step(s2, c));
            assert(s.parsed + written(e) =~= s.parsed.push(o) + postfix(*x) + seq![c]);
            assert(got.parsed =~= (s.parsed.push(o) + written(*x) + pending(*x).reverse()).push(c));
            assert(got.parsed =~= s.parsed + written(e));
            assert(s.stack + pending(e) =~= s.stack);
        },
    }
}

/// While no space, newline or `;` comes, reading goes token by token.
proof fn lemma_scan_read<'t>(tokens: Seq<Token<'t>>, from: int, k: int, s: ExprState<'t>)
    requires
        0 <= from,
        0 <= k,
        from + k <= tokens.len(),
        plain(tokens.subrange(from, from + k)),
        !s.done,
    ensures
        expr_scan(tokens, from, s) == expr_scan(
            tokens,
            from + k,
            read(s, tokens.subrange(from, from + k)),
        ),
    decreases k,
{
    let sub = tokens.subrange(from, from + k);
    if k == 0 {
        assert(sub.len() == 0);
    } else {
        let t = tokens[from];
        assert(sub[0] == t);
        assert(!t.is_whitespace() && !(t is SemiColon));
        let s2 = expr_step(s, t);
        assert(!s2.done);
        let rest = tokens.subrange(from + 1, from + k);
        assert(sub.drop_first() =~= rest);
        assert forall|i: int| 0 <= i < rest.len() implies !(#[trigger] rest[i]).is_whitespace()
            && !(rest[i] is SemiColon) by {
            assert(rest[i] == sub[i + 1]);
        }
        lemma_scan_read(tokens, from + 1, k - 1, s2);
    }
}

proof fn lemma_rpn_add<'t>(vs: Seq<int>, a: Seq<Token<'t>>, b: Seq<Token<'t>>, val: spec_fn(Token<'t>) -> int)
    ensures
        rpn(vs, a + b, val) == rpn(rpn(vs, a, val), b, val),
    decreases b.len(),
{
    if b.len() == 0 {
        assert(a + b =~= a);
    } else {
        assert((a + b).drop_last() =~= a + b.drop_last());
        assert((a + b).last() == b.last());
        lemma_rpn_add(vs, a, b.drop_last(), val);
    }
}

proof fn lemma_rpn_one<'t>(vs: Seq<int>, t: Token<'t>, val: spec_fn(Token<'t>) -> int)
    ensures
        rpn(vs, seq![t], val) == rpn_step(vs, t, val),
{
    let e = Seq::<Token<'t>>::empty();
    assert(seq![t].drop_last() =~= e);
    assert(seq![t].last() == t);
    assert(rpn(vs, e, val) == vs);
}

/// Evaluating the postfix order of an expression pushes its value.
proof fn lemma_rpn_postfix<'t>(e: Infix<'t>, r: u8, vs: Seq<int>, val: spec_fn(Token<'t>) -> int)
    requires
        fits(e, r),
        arith_tree(e),
    ensures
        rpn(vs, postfix(e), val) == vs.push(value(e, val)),
    decreases e,
{
    match e {
        Infix::Operand(t) => {
            lemma_rpn_one(vs, t, val);
        },
        Infix::Binary(l, op, rr) => {
            lemma_rpn_add(vs, postfix(*l) + postfix(*rr), seq![op], val);
            lemma_rpn_add(vs, postfix(*l), postfix(*rr), val);
            lemma_rpn_postfix(*l, r, vs, val);
            lemma_rpn_postfix(*rr, right_precedence(op), vs.push(value(*l, val)), val);
            let v2 = vs.push(value(*l, val)).push(value(*rr, val));
            lemma_rpn_one(v2, op, val);
            assert(v2.drop_last().drop_last() =~= vs);
        },
        Infix::Bracketed(o, x, c) => {
            lemma_rpn_add(vs, seq![o] + postfix(*x), seq![c], val);
            lemma_rpn_add(vs, seq![o], postfix(*x), val);
            lemma_rpn_one(vs, o, val);
            lemma_rpn_postfix(*x, 0, vs, val);
            lemma_rpn_one(vs.push(value(*x, val)), c, val);
        },
    }
}

/// The grammar's trees can be read from an empty stack: a factor above any
/// stack, a term (whose pending operators are all `*`) above a top of right
/// precedence up to that of `*`'s left side, an expression above one up to
/// that of `+` and `-`.
proof fn lemma_grammar_fits<'t>(e: Infix<'t>)
    ensures
        is_factor(e) ==> pending(e).len() == 0 && forall|r: u8| #[trigger] fits(e, r),
        is_term(e) ==> (forall|i: int| 0 <= i < pending(e).len() ==> #[trigger] pending(e)[i] is Times)
            && forall|r: u8| r <= 5 ==> #[trigger] fits(e, r),
        is_expr(e) ==> forall|r: u8| r <= 3 ==> #[trigger] fits(e, r),
        is_expr(e) || is_term(e) || is_factor(e) ==> arith_tree(e),
    decreases e,
{
    reveal_with_fuel(is_expr, 3);
    match e {
        Infix::Operand(t) => {
            assert(is_expr(e) == is_term(e));
            assert(is_term(e) == is_factor(e));
            assert(pending(e).len() == 0);
        },
        Infix::Bracketed(o, x, c) => {
            lemma_grammar_fits(*x);
            assert(is_expr(e) == is_term(e));
            assert(is_term(e) == is_factor(e));
            assert(pending(e).len() == 0);
            assert(is_factor(e) ==> fits(*x, 0));
        },
        Infix::Binary(l, op, rr) => {
            lemma_grammar_fits(*l);
            lemma_grammar_fits(*rr);
            if op is Times && is_term(*l) && is_factor(*rr) {
                assert forall|i: int| 0 <= i < pending(e).len() implies #[trigger] pending(e)[i] is Times by {
                    if i > 0 {
                        assert(pending(e)[i] == pending(*rr)[i - 1]);
                    }
                }
                assert forall|r: u8| r <= 5 implies #[trigger] fits(e, r) by {
                    assert(fits(*l, r));
                    assert(fits(*rr, right_precedence(op)));
                    assert forall|i: int| 0 <= i < pending(*l).len() implies left_precedence(op)
                        < right_precedence(#[trigger] pending(*l)[i]) by {
                        assert(pending(*l)[i] is Times);
                    }
                }
            }
            if (op is Plus || op is Minus) && is_expr(*l) && is_term(*rr) {
                assert forall|r: u8| r <= 3 implies #[trigger] fits(e, r) by {
                    assert(fits(*l, r));
                    lemma_pending_operators(*l, r);
                    assert(fits(*rr, right_precedence(op)));
                    assert forall|i: int| 0 <= i < pending(*l).len() implies left_precedence(op)
                        < right_precedence(#[trigger] pending(*l)[i]) by {
                        assert(is_operator(pending(*l)[i]));
                    }
                }
            }
        },
    }
}

/// Reading from position `k` is reading the tokens from `k` on.
proof fn lemma_scan_suffix<'t>(ts: Seq<Token<'t>>, k: int, s: ExprState<'t>)
    requires
        0 <= k <= ts.len(),
    ensures
        expr_scan(ts, k, s).1 == expr_scan(ts.subrange(k, ts.len() as int), 0, s).1,
        expr_scan(ts, k, s).0 == k + expr_scan(ts.subrange(k, ts.len() as int), 0, s).0,
    decreases ts.len() - k,
{
    let sub = ts.subrange(k, ts.len() as int);
    if k < ts.len() {
        let t = ts[k];
        assert(sub[0] == t);
        let s2 = if t.is_whitespace() {
            s
        } else {
            expr_step(s, t)
        };
        if t.is_whitespace() || !s2.done {
            lemma_scan_suffix(ts, k + 1, s2);
            lemma_scan_suffix(sub, 1, s2);
            assert(sub.subrange(1, sub.len() as int) =~= ts.subrange(k + 1, ts.len() as int));
        }
    }
}

/// Spaces and newlines are passed over: reading tokens is reading those of
/// them that are neither.
proof fn lemma_scan_solid<'t>(ts: Seq<Token<'t>>, s: ExprState<'t>)
    ensures
        expr_scan(ts, 0, s).1 == expr_scan(solid(ts), 0, s).1,
    decreases ts.len(),
{
    if ts.len() > 0 {
        let t = ts[0];
        let rest = ts.subrange(1, ts.len() as int);
        assert(ts =~= seq![t] + rest);
        Seq::filter_distributes_over_add(seq![t], rest, |t: Token<'t>| !t.is_whitespace());
        lemma_solid_single(t);
        if t.is_whitespace() {
            assert(solid(ts) =~= solid(rest));
            lemma_scan_suffix(ts, 1, s);
            lemma_scan_solid(rest, s);
        } else {
            let st = seq![t] + solid(rest);
            assert(solid(ts) =~= st);
            let s2 = expr_step(s, t);
            assert(st[0] == t);
            if !s2.done {
                lemma_scan_suffix(ts, 1, s2);
                lemma_scan_solid(rest, s2);
                lemma_scan_suffix(st, 1, s2);
                assert(st.subrange(1, st.len() as int) =~= solid(rest));
            }
        }
    }
}

/// Reading tokens that, but for spaces and newlines, are an expression that
/// fits an empty stack, then a `;`, writes the expression in postfix order,
/// then the `;`.
proof fn lemma_scan_expression<'t>(tokens: Seq<Token<'t>>, e: Infix<'t>, semi: Token<'t>)
    requires
        fits(e, 0),
        semi is SemiColon,
        solid(tokens) == render(e).push(semi),
    ensures
        expr_scan(tokens, 0, start_state(seq![], seq![])).1.parsed == postfix(e).push(semi),
{
    let s0 = start_state(Seq::<Token<'t>>::empty(), Seq::<Token<'t>>::empty());
    let ts = render(e).push(semi);
    let n = render(e).len() as int;
    lemma_scan_solid(tokens, s0);
    lemma_render_plain(e, 0);
    assert(ts.subrange(0, n) =~= render(e));
    lemma_scan_read(ts, 0, n, s0);
    lemma_read_infix(e, s0, 0);
    let sn = read(s0, render(e));
    assert(sn.stack =~= pending(e));
    assert(sn.parsed =~= written(e));
    assert(ts[n] == semi);
    let s_end = expr_step(sn, semi);
    assert(expr_scan(ts, n, sn) == (n + 1, s_end));
    lemma_postfix_split(e);
    assert(s_end.parsed =~= postfix(e).push(semi));
}

/// A factor over all operators: an operand, or an expression in round
/// brackets.
pub open spec fn is_op_factor<'t>(e: Infix<'t>) -> bool
    decreases e, 0nat,
{
    match e {
        Infix::Operand(t) => is_operand(t),
        Infix::Bracketed(o, x, c) => o is OpenBracket && c is CloseBracket && is_op_expr(*x),
        Infix::Binary(..) => false,
    }
}

/// A term over all operators: factors joined by operators of left
/// precedence 5 (`*`, `:`), grouped from the left.
pub open spec fn is_op_term<'t>(e: Infix<'t>) -> bool
    decreases e, 1nat,
{
    match e {
        Infix::Binary(l, op, r) => left_precedence(op) == 5 && is_op_term(*l) && is_op_factor(*r),
        _ => is_op_factor(e),
    }
}

/// An expression over all operators: terms joined by operators of left
/// precedence 3 (`+`, `-`, `=`, `{`), grouped from the left; so operators of
/// left precedence 5 bind tighter, and operators of the same precedence
/// group from left to right.
pub open spec fn is_op_expr<'t>(e: Infix<'t>) -> bool
    decreases e, 2nat,
{
    match e {
        Infix::Binary(l, op, r) => if left_precedence(op) == 5 {
            is_op_term(e)
        } else {
            left_precedence(op) == 3 && is_op_expr(*l) && is_op_term(*r)
        },
        _ => is_op_term(e),
    }
}

/// The trees of the grammar over all operators can be read from an empty
/// stack.
proof fn lemma_op_grammar_fits<'t>(e: Infix<'t>)
    ensures
        is_op_factor(e) ==> pending(e).len() == 0 && forall|r: u8| #[trigger] fits(e, r),
        is_op_term(e) ==> (forall|i: int|
            0 <= i < pending(e).len() ==> left_precedence(#[trigger] pending(e)[i]) == 5) && forall|
            r: u8,
        | r <= 5 ==> #[trigger] fits(e, r),
        is_op_expr(e) ==> forall|r: u8| r <= 3 ==> #[trigger] fits(e, r),
    decreases e,
{
    reveal_with_fuel(is_op_expr, 3);
    match e {
        Infix::Operand(t) => {
            assert(is_op_expr(e) == is_op_term(e));
            assert(is_op_term(e) == is_op_factor(e));
            assert(pending(e).len() == 0);
        },
        Infix::Bracketed(o, x, c) => {
            lemma_op_grammar_fits(*x);
            assert(is_op_expr(e) == is_op_term(e));
            assert(is_op_term(e) == is_op_factor(e));
            assert(pending(e).len() == 0);
            assert(is_op_factor(e) ==> fits(*x, 0));
        },
        Infix::Binary(l, op, rr) => {
            lemma_op_grammar_fits(*l);
            lemma_op_grammar_fits(*rr);
            if left_precedence(op) == 5 && is_op_term(*l) && is_op_factor(*rr) {
                assert forall|i: int| 0 <= i < pending(e).len() implies left_precedence(
                    #[trigger] pending(e)[i],
                ) == 5 by {
                    if i > 0 {
                        assert(pending(e)[i] == pending(*rr)[i - 1]);
                    }
                }
                assert forall|r: u8| r <= 5 implies #[trigger] fits(e, r) by {
                    assert(fits(*l, r));
                    assert(fits(*rr, right_precedence(op)));
                    assert forall|i: int| 0 <= i < pending(*l).len() implies left_precedence(op)
                        < right_precedence(#[trigger] pending(*l)[i]) by {
                        assert(left_precedence(pending(*l)[i]) == 5);
                    }
                }
            }
            if left_precedence(op) == 3 && is_op_expr(*l) && is_op_term(*rr) {
                assert forall|r: u8| r <= 3 implies #[trigger] fits(e, r) by {
                    assert(fits(*l, r));
                    lemma_pending_operators(*l, r);
                    assert(fits(*rr, right_precedence(op)));
                    assert forall|i: int| 0 <= i < pending(*l).len() implies left_precedence(op)
                        < right_precedence(#[trigger] pending(*l)[i]) by {
                        assert(is_operator(pending(*l)[i]));
                    }
                }
            }
        },
    }
}

/// Every operator is written after both its operands: reading tokens that,
/// but for spaces and newlines, are an expression over operands, all the
/// operators of the precedence table and balanced round brackets, then a
/// `;`, from an empty stack and output, writes the expression in postfix
/// order (each operator after its two operands), then the `;`. Operators of
/// left precedence 5 bind tighter than those of left precedence 3, and
/// operators of the same precedence group from left to right.
pub proof fn law_postfix_order<'t>(tokens: Seq<Token<'t>>, e: Infix<'t>, semi: Token<'t>)
    requires
        is_op_expr(e),
        semi is SemiColon,
        solid(tokens) == render(e).push(semi),
    ensures
        expr_scan(tokens, 0, start_state(seq![], seq![])).1.parsed == postfix(e).push(semi),
{
    lemma_op_grammar_fits(e);
    assert(fits(e, 0));
    lemma_scan_expression(tokens, e, semi);
}

/// An operator waits for its right operand: for any operator of the
/// precedence table, reading operand, operator, operand, `;` writes the two
/// operands, then the operator, then the `;`.
pub proof fn law_operator_follows_operands<'t>(x: Token<'t>, op: Token<'t>, y: Token<'t>, semi: Token<'t>)
    requires
        is_operand(x),
        is_operand(y),
        is_operator(op),
        semi is SemiColon,
    ensures
        expr_scan(seq![x, op, y, semi], 0, start_state(seq![], seq![])).1.parsed == seq![
            x,
            y,
            op,
            semi,
        ],
{
    let lx = Infix::Operand(x);
    let ly = Infix::Operand(y);
    let e = Infix::Binary(Box::new(lx), op, Box::new(ly));
    let ts = seq![x, op, y, semi];
    reveal_with_fuel(is_op_expr, 4);
    assert(is_op_factor(lx));
    assert(is_op_term(lx));
    assert(is_op_expr(lx));
    assert(is_op_factor(ly));
    assert(is_op_term(ly));
    assert(left_precedence(op) == 3 || left_precedence(op) == 5);
    if left_precedence(op) == 5 {
        assert(is_op_term(e));
    }
    assert(is_op_expr(e));
    assert(render(lx) == seq![x] && render(ly) == seq![y]);
    assert(postfix(lx) == seq![x] && postfix(ly) == seq![y]);
    assert(render(e).push(semi) =~= ts);
    assert(postfix(e).push(semi) =~= seq![x, y, op, semi]);
    lemma_solid_plain(ts);
    law_postfix_order(ts, e, semi);
}

/// Tokens none of which is a space or a newline are their own solid tokens.
proof fn lemma_solid_plain<'t>(ts: Seq<Token<'t>>)
    requires
        forall|i: int| 0 <= i < ts.len() ==> !(#[trigger] ts[i]).is_whitespace(),
    ensures
        solid(ts) == ts,
    decreases ts.len(),
{
    if ts.len() == 0 {
        assert(solid(ts) =~= ts) by {
            reveal(Seq::filter);
        }
    } else {
        lemma_solid_plain(ts.drop_last());
        ts.drop_last().lemma_filter_push(ts.last(), |t: Token<'t>| !t.is_whitespace());
        assert(ts.drop_last().push(ts.last()) =~= ts);
    }
}

/// The postfix output evaluates like the infix input: reading tokens that,
/// but for spaces and newlines, are an expression of the grammar (operands,
/// `+`, `-`, `*`, balanced round brackets) followed by a `;`, from an empty
/// stack and output, writes the expression in postfix order followed by the
/// `;`; and evaluating that output, for any values of the operands, gives
/// the value of the expression, with `*` binding tighter than `+` and `-`
/// and operators of the same precedence grouping from left to right.
pub proof fn law_postfix_evaluates_like_infix<'t>(
    tokens: Seq<Token<'t>>,
    e: Infix<'t>,
    semi: Token<'t>,
    val: spec_fn(Token<'t>) -> int,
)
    requires
        is_expr(e),
        semi is SemiColon,
        solid(tokens) == render(e).push(semi),
    ensures
        expr_scan(tokens, 0, start_state(seq![], seq![])).1.parsed == postfix(e).push(semi),
        rpn(seq![], expr_scan(tokens, 0, start_state(seq![], seq![])).1.parsed, val) == seq![
            value(e, val),
        ],
{
    lemma_grammar_fits(e);
    assert(fits(e, 0));
    lemma_scan_expression(tokens, e, semi);
    lemma_rpn_add(Seq::<int>::empty(), postfix(e), seq![semi], val);
    assert(postfix(e) + seq![semi] =~= postfix(e).push(semi));
    lemma_rpn_postfix(e, 0, Seq::<int>::empty(), val);
    lemma_rpn_one(seq![value(e, val)], semi, val);
    assert(Seq::<int>::empty().push(value(e, val)) =~= seq![value(e, val)]);
}

} // verus!
