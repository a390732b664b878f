//! The round-trip law: converting a well-formed infix expression to
//! postfix and running the stack machine yields exactly what a
//! reference recursive evaluator computes, for every substitution of
//! the variable.
//!
//! Well-formed expressions are modelled by the [`Expr`] tree; its
//! token rendering ties the tree to the token sequences the engine
//! consumes.

use vstd::prelude::*;

verus! {

use crate::parser::TokenV;
use crate::parser::ErrV;
use crate::parser::apply_op;
use crate::parser::spec_is_operator;
use crate::parser::spec_prec;
use crate::parser::spec_is_left_assoc;
use crate::parser::should_pop;
use crate::parser::is_opener;
use crate::parser::pop_ops;
use crate::parser::pop_group;
use crate::parser::drain;
use crate::parser::sy_run;
use crate::parser::to_postfix_spec;
use crate::parser::machine_step;
use crate::parser::run_machine;
use crate::parser::eval_postfix_spec;
use crate::parser::subst_spec;

/// A well-formed arithmetic expression: an integer literal, the
/// variable, or a binary operator applied to two subexpressions.
pub enum Expr {
    Lit(i64),
    Var,
    Bin(TokenV, Box<Expr>, Box<Expr>),
}

/// Every operator node carries one of the six binary operators.
pub open spec fn wf_expr(e: Expr) -> bool
    decreases e,
{
    match e {
        Expr::Lit(_) => true,
        Expr::Var => true,
        Expr::Bin(op, l, r) => spec_is_operator(op) && wf_expr(*l) && wf_expr(*r),
    }
}

/// An expression with no variable left in it.
pub open spec fn var_free(e: Expr) -> bool
    decreases e,
{
    match e {
        Expr::Lit(_) => true,
        Expr::Var => false,
        Expr::Bin(op, l, r) => var_free(*l) && var_free(*r),
    }
}

/// Replace the variable by the literal `x` throughout.
pub open spec fn subst_expr(e: Expr, x: i64) -> Expr
    decreases e,
{
    match e {
        Expr::Lit(v) => Expr::Lit(v),
        Expr::Var => Expr::Lit(x),
        Expr::Bin(op, l, r) => Expr::Bin(
            op,
            Box::new(subst_expr(*l, x)),
            Box::new(subst_expr(*r, x)),
        ),
    }
}

/// The reference evaluator: evaluate the left subtree, then the
/// right, then apply the operator, stopping at the first error.
pub open spec fn eval_expr(e: Expr) -> Result<i64, ErrV>
    decreases e,
{
    match e {
        Expr::Lit(v) => Ok(v),
        Expr::Var => Err(ErrV::MalformedExpression),
        Expr::Bin(op, l, r) => match eval_expr(*l) {
            Ok(lv) => match eval_expr(*r) {
                Ok(rv) => apply_op(op, lv, rv),
                Err(er) => Err(er),
            },
            Err(el) => Err(el),
        },
    }
}

/// The infix token rendering of an expression, with every operator
/// application parenthesized.
pub open spec fn infix_tokens(e: Expr) -> Seq<TokenV>
    decreases e,
{
    match e {
        Expr::Lit(v) => seq![TokenV::Int(v)],
        Expr::Var => seq![TokenV::VarX],
        Expr::Bin(op, l, r) => seq![TokenV::LeftParen] + infix_tokens(*l) + seq![op]
            + infix_tokens(*r) + seq![TokenV::RightParen],
    }
}

/// The postfix (RPN) token rendering of an expression.
pub open spec fn rpn(e: Expr) -> Seq<TokenV>
    decreases e,
{
    match e {
        Expr::Lit(v) => seq![TokenV::Int(v)],
        Expr::Var => seq![TokenV::VarX],
        Expr::Bin(op, l, r) => rpn(*l) + rpn(*r) + seq![op],
    }
}

/// Shunting-yard over the parenthesized rendering of `e` appends
/// exactly `rpn(e)` to the output and leaves the operator stack as
/// it was, whatever follows and whatever is already on the stack.
proof fn lemma_sy_expr(e: Expr, rest: Seq<TokenV>, st: Seq<TokenV>, out: Seq<TokenV>)
    requires
        wf_expr(e),
    ensures
        sy_run(infix_tokens(e) + rest, st, out) == sy_run(rest, st, out + rpn(e)),
    decreases e,
{
    match e {
        Expr::Lit(v) => {
            let ts = infix_tokens(e) + rest;
            assert(ts[0] == TokenV::Int(v));
            assert(ts.drop_first() =~= rest);
            assert(out.push(TokenV::Int(v)) =~= out + rpn(e));
        },
        Expr::Var => {
            let ts = infix_tokens(e) + rest;
            assert(ts[0] == TokenV::VarX);
            assert(ts.drop_first() =~= rest);
            assert(out.push(TokenV::VarX) =~= out + rpn(e));
        },
        Expr::Bin(op, l, r) => {
            let a = infix_tokens(*l);
            let b = infix_tokens(*r);
            let ts = infix_tokens(e) + rest;
            let rest_l = seq![op] + b + seq![TokenV::RightParen] + rest;
            let rest_r = seq![TokenV::RightParen] + rest;

            // step 1: the left parenthesis is pushed
            assert(ts[0] == TokenV::LeftParen);
            assert(ts.drop_first() =~= a + rest_l);
            assert(sy_run(ts, st, out) == sy_run(a + rest_l, st.push(TokenV::LeftParen), out));

            // step 2: the left subtree appends rpn(l)
            lemma_sy_expr(*l, rest_l, st.push(TokenV::LeftParen), out);

            // step 3: the operator pops nothing (a left paren is below)
            //         and is pushed
            let st1 = st.push(TokenV::LeftParen);
            let out1 = out + rpn(*l);
            assert(rest_l[0] == op);
            assert(rest_l.drop_first() =~= b + rest_r);
            assert(!should_pop(op, st1.last()));
            assert(pop_ops(op, st1, out1) == (st1, out1));
            assert(sy_run(rest_l, st1, out1) == sy_run(b + rest_r, st1.push(op), out1));

            // step 4: the right subtree appends rpn(r)
            lemma_sy_expr(*r, rest_r, st1.push(op), out1);

            // step 5: the right parenthesis pops the operator, then
            //         discards the left paren
            let st2 = st1.push(op);
            let out2 = out1 + rpn(*r);
            assert(rest_r[0] == TokenV::RightParen);
            assert(rest_r.drop_first() =~= rest);
            assert(!is_opener(st2.last()));
            assert(st2.drop_last() =~= st1);
            assert(pop_group(st2, out2) == pop_group(st1, out2.push(op)));
            assert(is_opener(st1.last()));
            assert(st1.drop_last() =~= st);
            assert(pop_group(st1, out2.push(op)) == (st, out2.push(op)));
            assert(sy_run(rest_r, st2, out2) == sy_run(rest, st, out2.push(op)));

            assert(out2.push(op) =~= out + rpn(e));
        },
    }
}

/// Running the stack machine over `rpn(e)` pushes the value of `e`
/// (whatever stack and continuation surround it), or stops with
/// exactly the first error of the reference evaluation.
proof fn lemma_machine_expr(e: Expr, rest: Seq<TokenV>, st: Seq<i64>)
    requires
        wf_expr(e),
        var_free(e),
    ensures
        (match eval_expr(e) {
            Ok(v) => run_machine(rpn(e) + rest, st) == run_machine(rest, st.push(v)),
            Err(er) => run_machine(rpn(e) + rest, st) == Err::<Seq<i64>, ErrV>(er),
        }),
    decreases e,
{
    match e {
        Expr::Lit(v) => {
            let ts = rpn(e) + rest;
            assert(ts[0] == TokenV::Int(v));
            assert(ts.drop_first() =~= rest);
        },
        Expr::Var => {},
        Expr::Bin(op, l, r) => {
            let a = rpn(*l);
            let b = rpn(*r);
            assert(rpn(e) + rest =~= a + (b + (seq![op] + rest)));

            lemma_machine_expr(*l, b + (seq![op] + rest), st);
            match eval_expr(*l) {
                Ok(lv) => {
                    lemma_machine_expr(*r, seq![op] + rest, st.push(lv));
                    match eval_expr(*r) {
                        Ok(rv) => {
                            let ts = seq![op] + rest;
                            let st2 = st.push(lv).push(rv);
                            assert(ts[0] == op);
                            assert(ts.drop_first() =~= rest);
                            assert(st2.len() >= 2);
                            assert(st2.last() == rv);
                            assert(st2[st2.len() - 2] == lv);
                            assert(st2.drop_last().drop_last() =~= st);
                            match apply_op(op, lv, rv) {
                                Ok(v) => {
                                    assert(machine_step(op, st2) == Ok::<Seq<i64>, ErrV>(
                                        st.push(v),
                                    ));
                                },
                                Err(_) => {},
                            }
                        },
                        Err(_) => {},
                    }
                },
                Err(_) => {},
            }
        },
    }
}

/// Round trip for a variable-free well-formed expression: lexing is
/// bypassed (the tokens are the rendering), conversion and stack
/// evaluation agree with the reference recursive evaluation.
pub proof fn lemma_round_trip(e: Expr)
    requires
        wf_expr(e),
        var_free(e),
    ensures
        eval_postfix_spec(to_postfix_spec(infix_tokens(e))) == eval_expr(e),
{
    lemma_sy_expr(e, Seq::empty(), Seq::empty(), Seq::empty());
    assert(infix_tokens(e) + Seq::<TokenV>::empty() =~= infix_tokens(e));
    assert(Seq::<TokenV>::empty() + rpn(e) =~= rpn(e));
    assert(to_postfix_spec(infix_tokens(e)) == drain(Seq::empty(), rpn(e)));

    lemma_machine_expr(e, Seq::empty(), Seq::empty());
    assert(rpn(e) + Seq::<TokenV>::empty() =~= rpn(e));
    match eval_expr(e) {
        Ok(v) => {
            assert(run_machine(rpn(e), Seq::empty()) == Ok::<Seq<i64>, ErrV>(
                Seq::empty().push(v),
            ));
            assert(Seq::empty().push(v).len() == 1);
            assert(Seq::empty().push(v)[0] == v);
        },
        Err(_) => {},
    }
}

/// Substituting the variable in the rendering is rendering the
/// substituted expression.
proof fn lemma_subst_render(e: Expr, x: i64)
    requires
        wf_expr(e),
    ensures
        subst_spec(infix_tokens(e), x) == infix_tokens(subst_expr(e, x)),
        wf_expr(subst_expr(e, x)),
        var_free(subst_expr(e, x)),
    decreases e,
{
    match e {
        Expr::Lit(_) => {
            assert(subst_spec(infix_tokens(e), x) =~= infix_tokens(subst_expr(e, x)));
        },
        Expr::Var => {
            assert(subst_spec(infix_tokens(e), x) =~= infix_tokens(subst_expr(e, x)));
        },
        Expr::Bin(op, l, r) => {
            lemma_subst_render(*l, x);
            lemma_subst_render(*r, x);
            assert(subst_spec(infix_tokens(e), x) =~= infix_tokens(subst_expr(e, x)));
        },
    }
}

/// The round-trip law with the variable: for every well-formed
/// expression and every integer assignment to the variable,
/// substituting, converting to postfix and running the stack machine
/// yields the reference recursive evaluation of the substituted tree.
pub proof fn lemma_round_trip_at(e: Expr, x: i64)
    requires
        wf_expr(e),
    ensures
        eval_postfix_spec(to_postfix_spec(subst_spec(infix_tokens(e), x))) == eval_expr(
            subst_expr(e, x),
        ),
{
    lemma_subst_render(e, x);
    lemma_round_trip(subst_expr(e, x));
}

// ------------------------------------------------------------------
// The law over the minimally parenthesized rendering
// ------------------------------------------------------------------

/// The infix rendering with parentheses only where precedence or
/// associativity requires them.
///
/// `ctx` is the lowest precedence allowed to stand unparenthesized
/// here: a left operand must bind at least as tightly as its
/// operator, a right operand strictly tighter (and the other way
/// round for the right-associative power), so `2+3*4`, `2-3-4` and
/// `2^3^2` render without parentheses while `(2+3)*4` keeps them.
pub open spec fn render(e: Expr, ctx: int) -> Seq<TokenV>
    decreases e,
{
    match e {
        Expr::Lit(v) => seq![TokenV::Int(v)],
        Expr::Var => seq![TokenV::VarX],
        Expr::Bin(op, l, r) => {
            let p = spec_prec(op);
            let lctx = if spec_is_left_assoc(op) {
                p
            } else {
                p + 1
            };
            let rctx = if spec_is_left_assoc(op) {
                p + 1
            } else {
                p
            };
            let core = render(*l, lctx) + seq![op] + render(*r, rctx);
            if p < ctx {
                seq![TokenV::LeftParen] + core + seq![TokenV::RightParen]
            } else {
                core
            }
        },
    }
}

/// The operators of `e` still pending on the stack right after its
/// unparenthesized rendering has been read: its right spine,
/// outermost first.
spec fn spine(e: Expr, ctx: int) -> Seq<TokenV>
    decreases e,
{
    match e {
        Expr::Lit(_) => Seq::empty(),
        Expr::Var => Seq::empty(),
        Expr::Bin(op, l, r) => {
            let p = spec_prec(op);
            let rctx = if spec_is_left_assoc(op) {
                p + 1
            } else {
                p
            };
            if p < ctx {
                Seq::empty()
            } else {
                seq![op] + spine(*r, rctx)
            }
        },
    }
}

/// The output already produced while [`spine`] is still pending.
spec fn done(e: Expr, ctx: int) -> Seq<TokenV>
    decreases e,
{
    match e {
        Expr::Lit(v) => seq![TokenV::Int(v)],
        Expr::Var => seq![TokenV::VarX],
        Expr::Bin(op, l, r) => {
            let p = spec_prec(op);
            let rctx = if spec_is_left_assoc(op) {
                p + 1
            } else {
                p
            };
            if p < ctx {
                rpn(e)
            } else {
                rpn(*l) + done(*r, rctx)
            }
        },
    }
}

/// What may lie on the stack below the rendering of a subexpression
/// with context `ctx`: nothing that an arriving operator of
/// precedence at least `ctx` would pop.
spec fn guard_ok(st: Seq<TokenV>, ctx: int) -> bool {
    st.len() > 0 ==> (spec_prec(st.last()) < ctx || (spec_prec(st.last()) == ctx
        && !spec_is_left_assoc(st.last())))
}

/// Associativity is a function of the precedence level: the two
/// additive and the three multiplicative operators are
/// left-associative, power alone is right-associative.
proof fn lemma_assoc_per_level(t: TokenV, u: TokenV)
    requires
        spec_is_operator(t),
        spec_is_operator(u),
        spec_prec(t) == spec_prec(u),
    ensures
        spec_is_left_assoc(t) == spec_is_left_assoc(u),
{
}

/// The pending spine consists of operators of precedence at least
/// `ctx`, and together with the output it makes up `rpn(e)`.
proof fn lemma_done_spine(e: Expr, ctx: int)
    requires
        wf_expr(e),
    ensures
        forall|i: int|
            0 <= i < spine(e, ctx).len() ==> spec_is_operator(#[trigger] spine(e, ctx)[i])
                && spec_prec(spine(e, ctx)[i]) >= ctx,
        done(e, ctx) + spine(e, ctx).reverse() == rpn(e),
    decreases e,
{
    match e {
        Expr::Lit(_) => {
            assert(done(e, ctx) + spine(e, ctx).reverse() =~= rpn(e));
        },
        Expr::Var => {
            assert(done(e, ctx) + spine(e, ctx).reverse() =~= rpn(e));
        },
        Expr::Bin(op, l, r) => {
            let p = spec_prec(op);
            let rctx = if spec_is_left_assoc(op) {
                p + 1
            } else {
                p
            };
            if p < ctx {
                assert(done(e, ctx) + spine(e, ctx).reverse() =~= rpn(e));
            } else {
                lemma_done_spine(*r, rctx);
                assert(forall|i: int|
                    0 <= i < spine(e, ctx).len() ==> spec_is_operator(
                        #[trigger] spine(e, ctx)[i],
                    ) && spec_prec(spine(e, ctx)[i]) >= ctx);
                assert(spine(e, ctx).reverse() =~= spine(*r, rctx).reverse() + seq![op]);
                assert(rpn(*l) + done(*r, rctx) + (spine(*r, rctx).reverse() + seq![op]) =~= rpn(
                    *l,
                ) + (done(*r, rctx) + spine(*r, rctx).reverse()) + seq![op]);
                assert(done(e, ctx) + spine(e, ctx).reverse() =~= rpn(e));
            }
        },
    }
}

/// An operator that pops every element of `sp` and nothing of `st`
/// moves exactly `sp`, reversed, to the output.
proof fn lemma_pop_ops_all(op: TokenV, st: Seq<TokenV>, sp: Seq<TokenV>, out: Seq<TokenV>)
    requires
        forall|i: int| 0 <= i < sp.len() ==> should_pop(op, #[trigger] sp[i]),
        st.len() > 0 ==> !should_pop(op, st.last()),
    ensures
        pop_ops(op, st + sp, out) == (st, out + sp.reverse()),
    decreases sp.len(),
{
    if sp.len() == 0 {
        assert(st + sp =~= st);
        assert(out + sp.reverse() =~= out);
    } else {
        assert((st + sp).last() == sp.last());
        assert((st + sp).drop_last() =~= st + sp.drop_last());
        lemma_pop_ops_all(op, st, sp.drop_last(), out.push(sp.last()));
        assert(out.push(sp.last()) + sp.drop_last().reverse() =~= out + sp.reverse());
    }
}

/// A right parenthesis over a stack of operators above an opener
/// moves the operators, reversed, to the output and discards the
/// opener.
proof fn lemma_pop_group_ops(st: Seq<TokenV>, sp: Seq<TokenV>, out: Seq<TokenV>)
    requires
        forall|i: int| 0 <= i < sp.len() ==> spec_is_operator(#[trigger] sp[i]),
        st.len() > 0,
        is_opener(st.last()),
    ensures
        pop_group(st + sp, out) == (st.drop_last(), out + sp.reverse()),
    decreases sp.len(),
{
    if sp.len() == 0 {
        assert(st + sp =~= st);
        assert(out + sp.reverse() =~= out);
    } else {
        assert((st + sp).last() == sp.last());
        assert(!is_opener(sp.last()));
        assert((st + sp).drop_last() =~= st + sp.drop_last());
        lemma_pop_group_ops(st, sp.drop_last(), out.push(sp.last()));
        assert(out.push(sp.last()) + sp.drop_last().reverse() =~= out + sp.reverse());
    }
}

/// Draining the stack appends it, reversed, to the output.
proof fn lemma_drain_reverse(st: Seq<TokenV>, out: Seq<TokenV>)
    ensures
        drain(st, out) == out + st.reverse(),
    decreases st.len(),
{
    if st.len() == 0 {
        assert(out + st.reverse() =~= out);
    } else {
        lemma_drain_reverse(st.drop_last(), out.push(st.last()));
        assert(out.push(st.last()) + st.drop_last().reverse() =~= out + st.reverse());
    }
}

/// Every pending operator of a left subtree rendered with the
/// context its operator demands is popped by that operator.
proof fn lemma_spine_pops(op: TokenV, sub: Expr, lctx: int)
    requires
        spec_is_operator(op),
        wf_expr(sub),
        lctx == if spec_is_left_assoc(op) {
            spec_prec(op)
        } else {
            spec_prec(op) + 1
        },
    ensures
        forall|i: int|
            0 <= i < spine(sub, lctx).len() ==> should_pop(op, #[trigger] spine(sub, lctx)[i]),
{
    lemma_done_spine(sub, lctx);
    if spec_is_left_assoc(op) {
        assert forall|i: int| 0 <= i < spine(sub, lctx).len() implies should_pop(
            op,
            #[trigger] spine(sub, lctx)[i],
        ) by {
            assert(spec_prec(spine(sub, lctx)[i]) >= lctx);
        }
    } else {
        if spine(sub, lctx).len() > 0 {
            assert(spec_prec(spine(sub, lctx)[0]) >= spec_prec(op) + 1);
            assert(spec_is_operator(spine(sub, lctx)[0]));
            assert(false);
        }
    }
}

/// Shunting-yard over the minimally parenthesized rendering: reading
/// `render(e, ctx)` from a compatible stack appends `done(e, ctx)`
/// to the output and leaves `spine(e, ctx)` freshly pending on the
/// stack.
proof fn lemma_render_run(e: Expr, ctx: int, rest: Seq<TokenV>, st: Seq<TokenV>, out: Seq<TokenV>)
    requires
        wf_expr(e),
        1 <= ctx <= 4,
        guard_ok(st, ctx),
    ensures
        sy_run(render(e, ctx) + rest, st, out) == sy_run(
            rest,
            st + spine(e, ctx),
            out + done(e, ctx),
        ),
    decreases e, 1int,
{
    match e {
        Expr::Lit(v) => {
            let ts = render(e, ctx) + rest;
            assert(ts[0] == TokenV::Int(v));
            assert(ts.drop_first() =~= rest);
            assert(st + spine(e, ctx) =~= st);
            assert(out.push(TokenV::Int(v)) =~= out + done(e, ctx));
        },
        Expr::Var => {
            let ts = render(e, ctx) + rest;
            assert(ts[0] == TokenV::VarX);
            assert(ts.drop_first() =~= rest);
            assert(st + spine(e, ctx) =~= st);
            assert(out.push(TokenV::VarX) =~= out + done(e, ctx));
        },
        Expr::Bin(op, l, r) => {
            if spec_prec(op) < ctx {
                lemma_render_run_paren(e, ctx, rest, st, out);
            } else {
                lemma_render_run_core(e, ctx, rest, st, out);
            }
        },
    }
}

/// The parenthesized case of [`lemma_render_run`].
#[verifier::rlimit(100)]
proof fn lemma_render_run_paren(
    e: Expr,
    ctx: int,
    rest: Seq<TokenV>,
    st: Seq<TokenV>,
    out: Seq<TokenV>,
)
    requires
        wf_expr(e),
        1 <= ctx <= 4,
        guard_ok(st, ctx),
        e is Bin,
        spec_prec(e->Bin_0) < ctx,
    ensures
        sy_run(render(e, ctx) + rest, st, out) == sy_run(
            rest,
            st + spine(e, ctx),
            out + done(e, ctx),
        ),
    decreases e, 0int,
{
    let (op, l, r) = (e->Bin_0, e->Bin_1, e->Bin_2);
    let p = spec_prec(op);
    let lctx = if spec_is_left_assoc(op) {
        p
    } else {
        p + 1
    };
    let rctx = if spec_is_left_assoc(op) {
        p + 1
    } else {
        p
    };
    lemma_done_spine(*l, lctx);
    lemma_done_spine(*r, rctx);

    let ts = render(e, ctx) + rest;
    let rest_l = seq![op] + render(*r, rctx) + (seq![TokenV::RightParen] + rest);
    let rest_r = seq![TokenV::RightParen] + rest;

    assert(ts[0] == TokenV::LeftParen);
    assert(ts.drop_first() =~= render(*l, lctx) + rest_l);
    let st1 = st.push(TokenV::LeftParen);
    assert(sy_run(ts, st, out) == sy_run(render(*l, lctx) + rest_l, st1, out));

    assert(guard_ok(st1, lctx));
    lemma_render_run(*l, lctx, rest_l, st1, out);

    // the operator pops the left spine and stops at the paren
    let stl = st1 + spine(*l, lctx);
    let outl = out + done(*l, lctx);
    assert(rest_l[0] == op);
    assert(rest_l.drop_first() =~= render(*r, rctx) + rest_r);
    lemma_spine_pops(op, *l, lctx);
    assert(!should_pop(op, st1.last()));
    lemma_pop_ops_all(op, st1, spine(*l, lctx), outl);
    assert(outl + spine(*l, lctx).reverse() =~= out + rpn(*l));
    assert(sy_run(rest_l, stl, outl) == sy_run(
        render(*r, rctx) + rest_r,
        st1.push(op),
        out + rpn(*l),
    ));

    assert(guard_ok(st1.push(op), rctx));
    lemma_render_run(*r, rctx, rest_r, st1.push(op), out + rpn(*l));

    // the right parenthesis pops the pending operators and discards
    // the paren
    let str0 = st1.push(op) + spine(*r, rctx);
    let outr = out + rpn(*l) + done(*r, rctx);
    assert(rest_r[0] == TokenV::RightParen);
    assert(rest_r.drop_first() =~= rest);
    assert(str0 =~= st1 + (seq![op] + spine(*r, rctx)));
    assert(forall|i: int|
        0 <= i < (seq![op] + spine(*r, rctx)).len() ==> spec_is_operator(
            #[trigger] (seq![op] + spine(*r, rctx))[i],
        ));
    lemma_pop_group_ops(st1, seq![op] + spine(*r, rctx), outr);
    assert(st1.drop_last() =~= st);
    assert((seq![op] + spine(*r, rctx)).reverse() =~= spine(*r, rctx).reverse() + seq![op]);
    assert(outr + (spine(*r, rctx).reverse() + seq![op]) =~= out + (rpn(*l) + (done(*r, rctx)
        + spine(*r, rctx).reverse()) + seq![op]));
    assert(rpn(*l) + (done(*r, rctx) + spine(*r, rctx).reverse()) + seq![op] =~= rpn(e));
    assert(st + spine(e, ctx) =~= st);
    assert(out + (rpn(*l) + (done(*r, rctx) + spine(*r, rctx).reverse()) + seq![op]) =~= out
        + done(e, ctx));
}

/// The unparenthesized case of [`lemma_render_run`].
#[verifier::rlimit(100)]
proof fn lemma_render_run_core(
    e: Expr,
    ctx: int,
    rest: Seq<TokenV>,
    st: Seq<TokenV>,
    out: Seq<TokenV>,
)
    requires
        wf_expr(e),
        1 <= ctx <= 4,
        guard_ok(st, ctx),
        e is Bin,
        spec_prec(e->Bin_0) >= ctx,
    ensures
        sy_run(render(e, ctx) + rest, st, out) == sy_run(
            rest,
            st + spine(e, ctx),
            out + done(e, ctx),
        ),
    decreases e, 0int,
{
    let (op, l, r) = (e->Bin_0, e->Bin_1, e->Bin_2);
    let p = spec_prec(op);
    let lctx = if spec_is_left_assoc(op) {
        p
    } else {
        p + 1
    };
    let rctx = if spec_is_left_assoc(op) {
        p + 1
    } else {
        p
    };
    lemma_done_spine(*l, lctx);
    lemma_done_spine(*r, rctx);

    let ts = render(e, ctx) + rest;
    let rest_l = seq![op] + render(*r, rctx) + rest;
    assert(ts =~= render(*l, lctx) + rest_l);

    assert(guard_ok(st, lctx));
    lemma_render_run(*l, lctx, rest_l, st, out);

    let stl = st + spine(*l, lctx);
    let outl = out + done(*l, lctx);
    assert(rest_l[0] == op);
    assert(rest_l.drop_first() =~= render(*r, rctx) + rest);
    lemma_spine_pops(op, *l, lctx);
    assert(st.len() > 0 ==> !should_pop(op, st.last())) by {
        if st.len() > 0 {
            if spec_prec(st.last()) == ctx && !spec_is_left_assoc(st.last()) {
                if p == spec_prec(st.last()) {
                    if spec_is_operator(st.last()) {
                        lemma_assoc_per_level(op, st.last());
                    }
                }
            }
        }
    }
    lemma_pop_ops_all(op, st, spine(*l, lctx), outl);
    assert(outl + spine(*l, lctx).reverse() =~= out + rpn(*l));
    assert(sy_run(rest_l, stl, outl) == sy_run(render(*r, rctx) + rest, st.push(op), out + rpn(
        *l,
    )));

    assert(guard_ok(st.push(op), rctx));
    lemma_render_run(*r, rctx, rest, st.push(op), out + rpn(*l));

    assert(st.push(op) + spine(*r, rctx) =~= st + spine(e, ctx));
    assert(out + rpn(*l) + done(*r, rctx) =~= out + done(e, ctx));
}

/// Conversion is exact on minimally parenthesized renderings: the
/// shunting-yard output for `render(e, 1)` is precisely `rpn(e)`.
pub proof fn lemma_to_postfix_render(e: Expr)
    requires
        wf_expr(e),
    ensures
        to_postfix_spec(render(e, 1)) == rpn(e),
{
    lemma_render_run(e, 1, Seq::empty(), Seq::empty(), Seq::empty());
    assert(render(e, 1) + Seq::<TokenV>::empty() =~= render(e, 1));
    lemma_done_spine(e, 1);
    lemma_drain_reverse(Seq::empty() + spine(e, 1), Seq::empty() + done(e, 1));
    assert(Seq::empty() + spine(e, 1) =~= spine(e, 1));
    assert(Seq::empty() + done(e, 1) =~= done(e, 1));
}

/// Substitution commutes with the minimally parenthesized rendering.
proof fn lemma_subst_render_min(e: Expr, ctx: int, x: i64)
    requires
        wf_expr(e),
    ensures
        subst_spec(render(e, ctx), x) == render(subst_expr(e, x), ctx),
        wf_expr(subst_expr(e, x)),
        var_free(subst_expr(e, x)),
    decreases e,
{
    match e {
        Expr::Lit(_) => {
            assert(subst_spec(render(e, ctx), x) =~= render(subst_expr(e, x), ctx));
        },
        Expr::Var => {
            assert(subst_spec(render(e, ctx), x) =~= render(subst_expr(e, x), ctx));
        },
        Expr::Bin(op, l, r) => {
            let p = spec_prec(op);
            let lctx = if spec_is_left_assoc(op) {
                p
            } else {
                p + 1
            };
            let rctx = if spec_is_left_assoc(op) {
                p + 1
            } else {
                p
            };
            lemma_subst_render_min(*l, lctx, x);
            lemma_subst_render_min(*r, rctx, x);
            assert(subst_spec(render(e, ctx), x) =~= render(subst_expr(e, x), ctx));
        },
    }
}

/// The round-trip law: for every well-formed arithmetic expression
/// (no function calls) and every integer assignment to the variable,
/// substituting into the minimally parenthesized rendering,
/// converting to postfix and running the stack machine yields
/// exactly what the reference recursive evaluator computes on the
/// substituted tree — value and error alike.
pub proof fn lemma_round_trip_render_at(e: Expr, x: i64)
    requires
        wf_expr(e),
    ensures
        eval_postfix_spec(to_postfix_spec(subst_spec(render(e, 1), x))) == eval_expr(
            subst_expr(e, x),
        ),
{
    lemma_subst_render_min(e, 1, x);
    lemma_to_postfix_render(subst_expr(e, x));

    let se = subst_expr(e, x);
    lemma_machine_expr(se, Seq::empty(), Seq::empty());
    assert(rpn(se) + Seq::<TokenV>::empty() =~= rpn(se));
    match eval_expr(se) {
        Ok(v) => {
            assert(run_machine(rpn(se), Seq::empty()) == Ok::<Seq<i64>, ErrV>(
                Seq::empty().push(v),
            ));
            assert(Seq::empty().push(v).len() == 1);
            assert(Seq::empty().push(v)[0] == v);
        },
        Err(_) => {},
    }
}

} // verus!
