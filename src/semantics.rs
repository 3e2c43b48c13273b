//! What compiled arithmetic does when it runs: the usual evaluation of an
//! expression of literals and `+ - * / %`, and proofs that the parser and the
//! stack machine together compute it.

use crate::lexer::Lexeme;
use crate::parser::{climb, lex_at, op_instr, parse_expr, parse_stmt, prec_of, ParseError};
use crate::token::Token;
use crate::vm::{apply, lemma_run_concat, lemma_run_shift, run_from, Instr, RuntimeError};
use vstd::prelude::*;

verus! {

pub open spec fn is_arith(op: Instr) -> bool {
    op is Add || op is Sub || op is Mul || op is Div || op is Mod
}

pub open spec fn is_additive(op: Instr) -> bool {
    op is Add || op is Sub
}

/// `op` applied to two partial values; undefined where either one is.
pub open spec fn combine(op: Instr, a: Option<i64>, b: Option<i64>) -> Option<i64> {
    match (a, b) {
        (Some(x), Some(y)) => apply(op, x, y),
        _ => None,
    }
}

/// The value of `nums[a] ops[a] nums[a + 1] ... ops[b - 1] nums[b]`, the
/// operators taken from the left.
pub open spec fn eval_prod(nums: Seq<i64>, ops: Seq<Instr>, a: int, b: int) -> Option<i64>
    decreases b - a,
{
    if b <= a {
        Some(nums[a])
    } else {
        combine(ops[b - 1], eval_prod(nums, ops, a, b - 1), Some(nums[b]))
    }
}

/// The position of the last additive operator among `ops[0..b]`, or -1.
pub open spec fn last_additive(ops: Seq<Instr>, b: int) -> int
    decreases b,
{
    if b <= 0 {
        -1
    } else if is_additive(ops[b - 1]) {
        b - 1
    } else {
        last_additive(ops, b - 1)
    }
}

/// The value of `nums[0] ops[0] nums[1] ... ops[b - 1] nums[b]` by the usual
/// rules: `*`, `/` and `%` bind tighter than `+` and `-`, and operators that
/// bind alike group to the left. `None` where a division by zero or a value
/// outside `i64` occurs.
pub open spec fn eval_sum(nums: Seq<i64>, ops: Seq<Instr>, b: int) -> Option<i64>
    decreases b,
{
    let p = last_additive(ops, b);
    if p < 0 || p >= b {
        eval_prod(nums, ops, 0, b)
    } else {
        combine(ops[p], eval_sum(nums, ops, p), eval_prod(nums, ops, p + 1, b))
    }
}

/// Whether the tokens of `ts` from `i` on are `nums[0] ops[0] nums[1] ...
/// nums[n]`, number literals and arithmetic operators, followed by a token
/// that is no binary operator.
pub open spec fn arith_layout(ts: Seq<Lexeme>, i: int, nums: Seq<i64>, ops: Seq<Instr>) -> bool {
    &&& 0 <= i
    &&& nums.len() == ops.len() + 1
    &&& i + 2 * ops.len() + 1 < ts.len()
    &&& forall|m: int| 0 <= m < nums.len() ==> ts[i + 2 * m] == Lexeme::Number(nums[m] as int)
    &&& forall|m: int|
        0 <= m < ops.len() ==> is_arith(ops[m]) && op_instr(ts[i + 2 * m + 1]) == Some(ops[m])
    &&& prec_of(ts[i + 2 * ops.len() + 1]) == 0
}

/// Whether running `code` from any stack pushes the value `v` and prints
/// nothing, or faults where `v` is undefined; `code` holds no `Lev`.
pub open spec fn evaluates(code: Seq<Instr>, v: Option<i64>) -> bool {
    &&& forall|i: int| 0 <= i < code.len() ==> code[i] != Instr::Lev
    &&& forall|stack: Seq<i64>, out: Seq<i64>|
        #[trigger] run_from(code, 0, stack, out) matches (s, o, r) && match v {
            Some(x) => s == stack.push(x) && o == out && r is Ok,
            None => r is Err,
        }
}

/// Postfix code of the product `nums[a] ... nums[b]`.
spec fn code_prod(nums: Seq<i64>, ops: Seq<Instr>, a: int, b: int) -> Seq<Instr>
    decreases b - a,
{
    if b <= a {
        seq![Instr::Imm(nums[a])]
    } else {
        code_prod(nums, ops, a, b - 1) + seq![Instr::Imm(nums[b]), ops[b - 1]]
    }
}

/// Postfix code of `nums[0] ... nums[b]` under the usual rules.
spec fn code_sum(nums: Seq<i64>, ops: Seq<Instr>, b: int) -> Seq<Instr>
    decreases b,
{
    let p = last_additive(ops, b);
    if p < 0 || p >= b {
        code_prod(nums, ops, 0, b)
    } else {
        code_sum(nums, ops, p) + code_prod(nums, ops, p + 1, b) + seq![ops[p]]
    }
}

/// Where the run of multiplicative operators from `ops[m]` on ends.
spec fn mul_end(ops: Seq<Instr>, m: int) -> int
    decreases ops.len() - m,
{
    if m >= ops.len() || is_additive(ops[m]) {
        m
    } else {
        mul_end(ops, m + 1)
    }
}

/// The code of the multiplicative operators from `ops[m]` on, each after its
/// right operand.
spec fn mul_code(nums: Seq<i64>, ops: Seq<Instr>, m: int) -> Seq<Instr>
    decreases ops.len() - m,
{
    if m >= ops.len() || is_additive(ops[m]) {
        seq![]
    } else {
        seq![Instr::Imm(nums[m + 1]), ops[m]] + mul_code(nums, ops, m + 1)
    }
}

proof fn lemma_evaluates_imm(n: i64)
    ensures
        evaluates(seq![Instr::Imm(n)], Some(n)),
{
    assert forall|stack: Seq<i64>, out: Seq<i64>|
        #[trigger] run_from(seq![Instr::Imm(n)], 0, stack, out) matches (s, o, r) && s == stack.push(n)
            && o == out && r is Ok by {
        assert(run_from(seq![Instr::Imm(n)], 1, stack.push(n), out) == (
            stack.push(n),
            out,
            Ok::<(), RuntimeError>(()),
        ));
    }
}

proof fn lemma_evaluates_combine(
    c1: Seq<Instr>,
    v1: Option<i64>,
    c2: Seq<Instr>,
    v2: Option<i64>,
    op: Instr,
)
    requires
        evaluates(c1, v1),
        evaluates(c2, v2),
        is_arith(op),
    ensures
        evaluates(c1 + c2 + seq![op], combine(op, v1, v2)),
{
    let code = c1 + c2 + seq![op];
    let tail = c2 + seq![op];
    assert(code =~= c1 + tail);
    assert forall|i: int| 0 <= i < code.len() implies code[i] != Instr::Lev by {
        if i < c1.len() {
            assert(code[i] == c1[i]);
        } else if i < c1.len() + c2.len() {
            assert(code[i] == c2[i - c1.len()]);
        }
    }
    assert forall|i: int| 0 <= i < c2.len() implies c2[i] != Instr::Lev by {}
    assert forall|stack: Seq<i64>, out: Seq<i64>|
        #[trigger] run_from(code, 0, stack, out) matches (s, o, r) && match combine(op, v1, v2) {
            Some(x) => s == stack.push(x) && o == out && r is Ok,
            None => r is Err,
        } by {
        lemma_run_concat(c1, tail, 0, stack, out);
        if let Some(a) = v1 {
            assert(run_from(c1, 0, stack, out).0 == stack.push(a));
            lemma_run_concat(c2, seq![op], 0, stack.push(a), out);
            if let Some(b) = v2 {
                let s2 = stack.push(a).push(b);
                assert(run_from(c2, 0, stack.push(a), out).0 == s2);
                assert(s2[s2.len() - 2] == a);
                assert(s2[s2.len() - 1] == b);
                if let Some(x) = apply(op, a, b) {
                    assert(s2.take(s2.len() - 2).push(x) =~= stack.push(x));
                    assert(run_from(seq![op], 1, stack.push(x), out) == (
                        stack.push(x),
                        out,
                        Ok::<(), RuntimeError>(()),
                    ));
                    assert(run_from(seq![op], 0, s2, out).0 == stack.push(x));
                    assert(run_from(tail, 0, stack.push(a), out).2 is Ok);
                } else {
                    assert(run_from(seq![op], 0, s2, out).2 is Err);
                    assert(run_from(tail, 0, stack.push(a), out).2 is Err);
                }
            } else {
                assert(run_from(c2, 0, stack.push(a), out).2 is Err);
            }
        } else {
            assert(run_from(c1, 0, stack, out).2 is Err);
        }
    }
}

proof fn lemma_evaluates_prod(nums: Seq<i64>, ops: Seq<Instr>, a: int, b: int)
    requires
        0 <= a <= b < nums.len(),
        nums.len() == ops.len() + 1,
        forall|m: int| 0 <= m < ops.len() ==> is_arith(#[trigger] ops[m]),
    ensures
        evaluates(code_prod(nums, ops, a, b), eval_prod(nums, ops, a, b)),
    decreases b - a,
{
    if b <= a {
        lemma_evaluates_imm(nums[a]);
    } else {
        lemma_evaluates_prod(nums, ops, a, b - 1);
        lemma_evaluates_imm(nums[b]);
        lemma_evaluates_combine(
            code_prod(nums, ops, a, b - 1),
            eval_prod(nums, ops, a, b - 1),
            seq![Instr::Imm(nums[b])],
            Some(nums[b]),
            ops[b - 1],
        );
        assert(code_prod(nums, ops, a, b - 1) + seq![Instr::Imm(nums[b])] + seq![ops[b - 1]]
            =~= code_prod(nums, ops, a, b));
    }
}

proof fn lemma_last_additive_bound(ops: Seq<Instr>, b: int)
    ensures
        -1 <= last_additive(ops, b) < b || (b <= 0 && last_additive(ops, b) == -1),
        0 <= last_additive(ops, b) ==> is_additive(ops[last_additive(ops, b)]),
    decreases b,
{
    if b > 0 && !is_additive(ops[b - 1]) {
        lemma_last_additive_bound(ops, b - 1);
    }
}

proof fn lemma_evaluates_sum(nums: Seq<i64>, ops: Seq<Instr>, b: int)
    requires
        0 <= b < nums.len(),
        nums.len() == ops.len() + 1,
        forall|m: int| 0 <= m < ops.len() ==> is_arith(#[trigger] ops[m]),
    ensures
        evaluates(code_sum(nums, ops, b), eval_sum(nums, ops, b)),
    decreases b,
{
    let p = last_additive(ops, b);
    lemma_last_additive_bound(ops, b);
    if p < 0 || p >= b {
        lemma_evaluates_prod(nums, ops, 0, b);
    } else {
        lemma_evaluates_sum(nums, ops, p);
        lemma_evaluates_prod(nums, ops, p + 1, b);
        lemma_evaluates_combine(
            code_sum(nums, ops, p),
            eval_sum(nums, ops, p),
            code_prod(nums, ops, p + 1, b),
            eval_prod(nums, ops, p + 1, b),
            ops[p],
        );
    }
}

proof fn lemma_op_prec(l: Lexeme, op: Instr)
    requires
        op_instr(l) == Some(op),
    ensures
        prec_of(l) == if is_additive(op) {
            10nat
        } else {
            11nat
        },
{
}

proof fn lemma_no_additive(ops: Seq<Instr>, e: int)
    requires
        e <= ops.len(),
        forall|k: int| 0 <= k < e ==> !is_additive(#[trigger] ops[k]),
    ensures
        last_additive(ops, e) == -1,
    decreases e,
{
    if e > 0 {
        lemma_no_additive(ops, e - 1);
    }
}

proof fn lemma_last_additive_at(ops: Seq<Instr>, p: int, e: int)
    requires
        0 <= p < e <= ops.len(),
        is_additive(ops[p]),
        forall|k: int| p < k < e ==> !is_additive(#[trigger] ops[k]),
    ensures
        last_additive(ops, e) == p,
    decreases e,
{
    if e - 1 > p {
        lemma_last_additive_at(ops, p, e - 1);
    }
}

/// The multiplicative operators from `ops[m]` on, appended to a product,
/// extend it to the end of their run.
proof fn lemma_mul_run(nums: Seq<i64>, ops: Seq<Instr>, a: int, m: int)
    requires
        0 <= a <= m <= ops.len(),
        nums.len() == ops.len() + 1,
        forall|k: int| a <= k < m ==> !is_additive(#[trigger] ops[k]),
    ensures
        m <= mul_end(ops, m) <= ops.len(),
        forall|k: int| a <= k < mul_end(ops, m) ==> !is_additive(#[trigger] ops[k]),
        mul_end(ops, m) < ops.len() ==> is_additive(ops[mul_end(ops, m)]),
        code_prod(nums, ops, a, m) + mul_code(nums, ops, m) == code_prod(
            nums,
            ops,
            a,
            mul_end(ops, m),
        ),
    decreases ops.len() - m,
{
    if m >= ops.len() || is_additive(ops[m]) {
        assert(code_prod(nums, ops, a, m) + mul_code(nums, ops, m) =~= code_prod(nums, ops, a, m));
    } else {
        lemma_mul_run(nums, ops, a, m + 1);
        assert(code_prod(nums, ops, a, m + 1) == code_prod(nums, ops, a, m) + seq![
            Instr::Imm(nums[m + 1]),
            ops[m],
        ]);
        assert(code_prod(nums, ops, a, m) + mul_code(nums, ops, m) =~= code_prod(nums, ops, a, m + 1)
            + mul_code(nums, ops, m + 1));
    }
}

/// A climb above every operator's precedence takes nothing.
proof fn lemma_climb_top(ts: Seq<Lexeme>, i: int, nums: Seq<i64>, ops: Seq<Instr>, m: int)
    requires
        arith_layout(ts, i, nums, ops),
        0 <= m <= ops.len(),
    ensures
        climb(ts, i + 2 * m + 1, 12) == Ok::<(Seq<Instr>, int), ParseError>(
            (seq![], i + 2 * m + 1),
        ),
        parse_expr(ts, i + 2 * m, 12) == Ok::<(Seq<Instr>, int), ParseError>(
            (seq![Instr::Imm(nums[m])], i + 2 * m + 1),
        ),
{
    if m < ops.len() {
        lemma_op_prec(ts[i + 2 * m + 1], ops[m]);
    }
    assert(ts[i + 2 * m] == Lexeme::Number(nums[m] as int));
    assert(seq![Instr::Imm(nums[m])] + seq![] =~= seq![Instr::Imm(nums[m])]);
}

/// A climb at the multiplicative level takes the run of multiplicative
/// operators.
proof fn lemma_climb_mul(ts: Seq<Lexeme>, i: int, nums: Seq<i64>, ops: Seq<Instr>, m: int)
    requires
        arith_layout(ts, i, nums, ops),
        0 <= m <= ops.len(),
    ensures
        climb(ts, i + 2 * m + 1, 11) == Ok::<(Seq<Instr>, int), ParseError>(
            (mul_code(nums, ops, m), i + 2 * mul_end(ops, m) + 1),
        ),
        parse_expr(ts, i + 2 * m, 11) == Ok::<(Seq<Instr>, int), ParseError>(
            (seq![Instr::Imm(nums[m])] + mul_code(nums, ops, m), i + 2 * mul_end(ops, m) + 1),
        ),
    decreases ops.len() - m,
{
    let j = i + 2 * m + 1;
    assert(ts[i + 2 * m] == Lexeme::Number(nums[m] as int));
    if m < ops.len() {
        lemma_op_prec(ts[j], ops[m]);
        if !is_additive(ops[m]) {
            lemma_climb_top(ts, i, nums, ops, m + 1);
            lemma_climb_mul(ts, i, nums, ops, m + 1);
            assert(j + 1 == i + 2 * (m + 1));
            assert(seq![Instr::Imm(nums[m + 1])].push(ops[m]) + mul_code(nums, ops, m + 1)
                =~= mul_code(nums, ops, m));
        }
    }
}

/// The climb of the outermost level, at a point where the code so far is
/// that of the expression up to `nums[m]`, emits the rest of the code of
/// the whole expression.
proof fn lemma_climb_sum(
    ts: Seq<Lexeme>,
    i: int,
    nums: Seq<i64>,
    ops: Seq<Instr>,
    m: int,
    min: nat,
)
    requires
        arith_layout(ts, i, nums, ops),
        1 <= min <= 10,
        0 <= m <= ops.len(),
        (forall|k: int| 0 <= k < m ==> !is_additive(#[trigger] ops[k])) || m == ops.len()
            || is_additive(ops[m]),
    ensures
        climb(ts, i + 2 * m + 1, min) matches Ok((x, k)) && k == i + 2 * ops.len() + 1
            && code_sum(nums, ops, m) + x == code_sum(nums, ops, ops.len() as int),
    decreases ops.len() - m,
{
    let n = ops.len() as int;
    let j = i + 2 * m + 1;
    if m == n {
        assert(code_sum(nums, ops, m) + seq![] =~= code_sum(nums, ops, m));
    } else {
        lemma_op_prec(ts[j], ops[m]);
        assert(j + 1 == i + 2 * (m + 1));
        if !is_additive(ops[m]) {
            lemma_climb_top(ts, i, nums, ops, m + 1);
            lemma_climb_sum(ts, i, nums, ops, m + 1, min);
            lemma_no_additive(ops, m);
            lemma_no_additive(ops, m + 1);
            if let Ok((x, k)) = climb(ts, i + 2 * (m + 1) + 1, min) {
                assert(code_sum(nums, ops, m) + (seq![Instr::Imm(nums[m + 1])].push(ops[m]) + x)
                    =~= code_sum(nums, ops, m + 1) + x);
            }
        } else {
            lemma_climb_mul(ts, i, nums, ops, m + 1);
            lemma_mul_run(nums, ops, m + 1, m + 1);
            let e = mul_end(ops, m + 1);
            lemma_climb_sum(ts, i, nums, ops, e, min);
            lemma_last_additive_at(ops, m, e);
            lemma_last_additive_bound(ops, e);
            assert(code_prod(nums, ops, m + 1, m + 1) == seq![Instr::Imm(nums[m + 1])]);
            if let Ok((x, k)) = climb(ts, i + 2 * e + 1, min) {
                assert(code_sum(nums, ops, m) + ((seq![Instr::Imm(nums[m + 1])] + mul_code(
                    nums,
                    ops,
                    m + 1,
                )).push(ops[m]) + x) =~= code_sum(nums, ops, e) + x);
            }
        }
    }
}

/// An expression of number literals and the operators `+ - * / %` compiles
/// to code that, run from any stack, prints nothing and pushes the value of
/// the expression under the usual rules of precedence and grouping; where
/// that value is undefined (a division by zero, or a value outside `i64`
/// on the way), the code faults.
pub proof fn lemma_arith_correct(ts: Seq<Lexeme>, i: int, nums: Seq<i64>, ops: Seq<Instr>)
    requires
        arith_layout(ts, i, nums, ops),
    ensures
        parse_expr(ts, i, 1) matches Ok((code, k)) && k == i + 2 * ops.len() + 1 && evaluates(
            code,
            eval_sum(nums, ops, ops.len() as int),
        ),
{
    assert(ts[i] == Lexeme::Number(nums[0] as int));
    lemma_climb_sum(ts, i, nums, ops, 0, 1);
    lemma_no_additive(ops, 0);
    lemma_evaluates_sum(nums, ops, ops.len() as int);
}

proof fn lemma_prod_zero(nums: Seq<i64>, ops: Seq<Instr>, a: int, b: int, m: int)
    requires
        0 <= a <= m < b < nums.len(),
        ops[m] is Div || ops[m] is Mod,
        nums[m + 1] == 0,
    ensures
        eval_prod(nums, ops, a, b) is None,
    decreases b - a,
{
    if b > m + 1 {
        lemma_prod_zero(nums, ops, a, b - 1, m);
    }
}

proof fn lemma_sum_zero(nums: Seq<i64>, ops: Seq<Instr>, b: int, m: int)
    requires
        0 <= m < b < nums.len(),
        ops[m] is Div || ops[m] is Mod,
        nums[m + 1] == 0,
    ensures
        eval_sum(nums, ops, b) is None,
    decreases b,
{
    let p = last_additive(ops, b);
    lemma_last_additive_bound(ops, b);
    if p < 0 || p >= b {
        lemma_prod_zero(nums, ops, 0, b, m);
    } else if m > p {
        lemma_prod_zero(nums, ops, p + 1, b, m);
    } else {
        lemma_sum_zero(nums, ops, p, m);
    }
}

/// Dividing, or taking a remainder, by a literal zero anywhere in such an
/// expression makes its code fault, from any stack.
pub proof fn lemma_division_by_zero(
    ts: Seq<Lexeme>,
    i: int,
    nums: Seq<i64>,
    ops: Seq<Instr>,
    m: int,
)
    requires
        arith_layout(ts, i, nums, ops),
        0 <= m < ops.len(),
        ops[m] is Div || ops[m] is Mod,
        nums[m + 1] == 0,
    ensures
        parse_expr(ts, i, 1) matches Ok((code, _)) && forall|stack: Seq<i64>, out: Seq<i64>|
            (#[trigger] run_from(code, 0, stack, out)).2 is Err,
{
    lemma_arith_correct(ts, i, nums, ops);
    lemma_sum_zero(nums, ops, ops.len() as int, m);
}

/// `printf ( e1 ) ; return e2 ;` compiles to the code of `e1`, `Prtf`, the
/// code of `e2`, `Lev`. Run on an empty machine, whatever code comes after
/// it, that prints the value of `e1` alone and halts at `Lev` with the value
/// of `e2` on the stack.
pub proof fn lemma_printf_then_return(
    ts: Seq<Lexeme>,
    c1: Seq<Instr>,
    k1: int,
    v1: i64,
    c2: Seq<Instr>,
    k2: int,
    v2: i64,
    rest: Seq<Instr>,
)
    requires
        lex_at(ts, 0) == Lexeme::Fixed(Token::Printf),
        lex_at(ts, 1) == Lexeme::Fixed(Token::LParen),
        parse_expr(ts, 2, 1) == Ok::<(Seq<Instr>, int), ParseError>((c1, k1)),
        lex_at(ts, k1) == Lexeme::Fixed(Token::RParen),
        lex_at(ts, k1 + 1) == Lexeme::Fixed(Token::Semicolon),
        lex_at(ts, k1 + 2) == Lexeme::Fixed(Token::Return),
        parse_expr(ts, k1 + 3, 1) == Ok::<(Seq<Instr>, int), ParseError>((c2, k2)),
        lex_at(ts, k2) == Lexeme::Fixed(Token::Semicolon),
        evaluates(c1, Some(v1)),
        evaluates(c2, Some(v2)),
    ensures
        parse_stmt(ts, 0) == Ok::<(Seq<Instr>, int), ParseError>((c1.push(Instr::Prtf), k1 + 2)),
        parse_stmt(ts, k1 + 2) == Ok::<(Seq<Instr>, int), ParseError>(
            (c2.push(Instr::Lev), k2 + 1),
        ),
        run_from(c1.push(Instr::Prtf) + c2.push(Instr::Lev) + rest, 0, seq![], seq![]) matches (
            s,
            o,
            r,
        ) && s == seq![v2] && o == seq![v1] && r is Ok,
{
    let empty = Seq::<i64>::empty();
    let p = seq![Instr::Prtf];
    let first = c1 + (p + c2);
    let second = seq![Instr::Lev] + rest;
    assert(c1.push(Instr::Prtf) + c2.push(Instr::Lev) + rest =~= first + second);
    assert forall|i: int| 0 <= i < first.len() implies first[i] != Instr::Lev by {
        if i < c1.len() {
            assert(first[i] == c1[i]);
        } else if i > c1.len() {
            assert(first[i] == c2[i - c1.len() - 1]);
        }
    }
    assert(run_from(c1, 0, empty, empty).0 == empty.push(v1));
    lemma_run_concat(c1, p + c2, 0, empty, empty);
    assert(empty.push(v1).drop_last() =~= empty);
    assert(run_from(c2, 0, empty, empty.push(v1)).0 == empty.push(v2));
    lemma_run_shift(p, c2, 0, empty, empty.push(v1));
    assert(run_from(p + c2, 0, empty.push(v1), empty) == run_from(p + c2, 1, empty, empty.push(v1)));
    lemma_run_concat(first, second, 0, empty, empty);
    assert(empty.push(v1) =~= seq![v1]);
    assert(empty.push(v2) =~= seq![v2]);
}

} // verus!
