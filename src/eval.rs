use crate::lexer::{digit_run_end, digits_value, is_digit, is_space, next_token, skip_space, Tok, LexError};
use crate::parser::{arity_ok, parse, parse_bp, parse_rest, LeafVal, Node, NodeVal, ParseError, Term};
use vstd::arithmetic::power::pow;
use vstd::prelude::*;

verus! {

/// Why an expression tree has no value.
#[derive(Debug, Clone, Copy, PartialEq, Eq, Structural)]
pub enum EvalError {
    /// A symbol has no value: there are no variables.
    Symbol,
    /// An operator applied to a number of operands it does not take.
    Arity,
    DivisionByZero,
    NegativeExponent,
    NegativeFactorial,
    /// A result, or a partial sum or product, outside the range of `i32`.
    Overflow,
}

pub open spec fn in_i32(x: int) -> bool {
    i32::MIN <= x <= i32::MAX
}

/// The sum of `a`, added from the left, if no partial sum leaves the range of `i32`.
pub open spec fn checked_sum(a: Seq<i32>) -> Option<i32>
    decreases a.len(),
{
    if a.len() == 0 {
        Some(0)
    } else {
        match checked_sum(a.drop_last()) {
            Some(p) => if in_i32(p + a.last()) {
                Some((p + a.last()) as i32)
            } else {
                None
            },
            None => None,
        }
    }
}

/// The product of `a`, multiplied from the left, if no partial product leaves the range
/// of `i32`.
pub open spec fn checked_product(a: Seq<i32>) -> Option<i32>
    decreases a.len(),
{
    if a.len() == 0 {
        Some(1)
    } else {
        match checked_product(a.drop_last()) {
            Some(p) => if in_i32(p * a.last()) {
                Some((p * a.last()) as i32)
            } else {
                None
            },
            None => None,
        }
    }
}

pub open spec fn factorial(n: nat) -> nat
    decreases n,
{
    if n == 0 {
        1
    } else {
        n * factorial((n - 1) as nat)
    }
}

/// Division that rounds toward zero.
pub open spec fn trunc_div(x: int, d: int) -> int
    recommends
        d != 0,
{
    let q = (if x < 0 {
        -x
    } else {
        x
    }) / (if d < 0 {
        -d
    } else {
        d
    });
    if (x < 0) == (d < 0) {
        q
    } else {
        -q
    }
}

/// `v` as an `i32` result, or `Overflow` where it does not fit.
pub open spec fn fitting(v: int) -> Result<i32, EvalError> {
    if in_i32(v) {
        Ok(v as i32)
    } else {
        Err(EvalError::Overflow)
    }
}

/// An operator applied to the values of its operands.
pub open spec fn apply_op(o: NodeVal, a: Seq<i32>) -> Result<i32, EvalError> {
    match o {
        NodeVal::Add => match checked_sum(a) {
            Some(v) => Ok(v),
            None => Err(EvalError::Overflow),
        },
        NodeVal::Mul => match checked_product(a) {
            Some(v) => Ok(v),
            None => Err(EvalError::Overflow),
        },
        NodeVal::Sub => if a.len() == 1 {
            fitting(-a[0])
        } else if a.len() == 2 {
            fitting(a[0] - a[1])
        } else {
            Err(EvalError::Arity)
        },
        NodeVal::Div => if a.len() != 2 {
            Err(EvalError::Arity)
        } else if a[1] == 0 {
            Err(EvalError::DivisionByZero)
        } else {
            fitting(trunc_div(a[0] as int, a[1] as int))
        },
        NodeVal::Exp => if a.len() != 2 {
            Err(EvalError::Arity)
        } else if a[1] < 0 {
            Err(EvalError::NegativeExponent)
        } else {
            fitting(pow(a[0] as int, a[1] as nat))
        },
        NodeVal::Fac => if a.len() != 1 {
            Err(EvalError::Arity)
        } else if a[0] < 0 {
            Err(EvalError::NegativeFactorial)
        } else {
            fitting(factorial(a[0] as nat) as int)
        },
    }
}

proof fn lemma_sum_stays_none(a: Seq<i32>, j: int, k: int)
    requires
        0 <= j <= k <= a.len(),
        checked_sum(a.subrange(0, j)) is None,
    ensures
        checked_sum(a.subrange(0, k)) is None,
    decreases k - j,
{
    if j < k {
        assert(a.subrange(0, j + 1).drop_last() == a.subrange(0, j));
        lemma_sum_stays_none(a, j + 1, k);
    }
}

proof fn lemma_product_stays_none(a: Seq<i32>, j: int, k: int)
    requires
        0 <= j <= k <= a.len(),
        checked_product(a.subrange(0, j)) is None,
    ensures
        checked_product(a.subrange(0, k)) is None,
    decreases k - j,
{
    if j < k {
        assert(a.subrange(0, j + 1).drop_last() == a.subrange(0, j));
        lemma_product_stays_none(a, j + 1, k);
    }
}

proof fn lemma_pow_unit(b: int, e: nat)
    requires
        -1 <= b <= 1,
    ensures
        -1 <= pow(b, e) <= 1,
    decreases e,
{
    reveal(pow);
    if e > 0 {
        lemma_pow_unit(b, (e - 1) as nat);
        let p = pow(b, (e - 1) as nat);
        assert(-1 <= b * p <= 1) by (nonlinear_arith)
            requires
                -1 <= b <= 1,
                -1 <= p <= 1,
        ;
    }
}

/// Once a power leaves the range of `i32`, higher powers stay outside it.
proof fn lemma_pow_stays_out(b: int, k: nat, e: nat)
    requires
        k <= e,
        !in_i32(pow(b, k)),
    ensures
        !in_i32(pow(b, e)),
    decreases e - k,
{
    reveal(pow);
    if k < e {
        let x = pow(b, k);
        if -1 <= b <= 1 {
            lemma_pow_unit(b, k);
        }
        assert(!in_i32(b * x)) by (nonlinear_arith)
            requires
                !(-1 <= b <= 1),
                !in_i32(x),
        ;
        lemma_pow_stays_out(b, k + 1, e);
    }
}

/// Factorial as an `i32`, or `None` where it does not fit.
fn fac(n: i32) -> (r: Option<i32>)
    requires
        n >= 0,
    ensures
        r == (if factorial(n as nat) <= i32::MAX {
            Some(factorial(n as nat) as i32)
        } else {
            None::<i32>
        }),
    decreases n,
{
    if n <= 1 {
        assert(factorial(0) == 1);
        assert(factorial(1) == 1 * factorial(0));
        assert(factorial(n as nat) == 1);
        Some(1)
    } else {
        let f = fac(n - 1);
        let ghost pf = factorial((n - 1) as nat);
        assert(factorial(n as nat) == n * pf);
        assert(n * pf == pf * n) by (nonlinear_arith);
        assert(n * pf >= pf) by (nonlinear_arith)
            requires
                n >= 1,
                pf >= 0,
        ;
        match f {
            Some(f) => f.checked_mul(n),
            None => None,
        }
    }
}

impl NodeVal {
    /// Applies the operator to the values of its operands.
    pub fn apply(&self, args: &[i32]) -> (r: Result<i32, EvalError>)
        ensures
            r == apply_op(*self, args@),
    {
        match self {
            NodeVal::Add => {
                let mut acc: i32 = 0;
                let mut i: usize = 0;
                while i < args.len()
                    invariant
                        *self == NodeVal::Add,
                        i <= args@.len(),
                        checked_sum(args@.subrange(0, i as int)) == Some(acc),
                    decreases args@.len() - i,
                {
                    assert(args@.subrange(0, i + 1).drop_last() == args@.subrange(0, i as int));
                    match acc.checked_add(args[i]) {
                        Some(x) => acc = x,
                        None => {
                            proof {
                                lemma_sum_stays_none(args@, i + 1, args@.len() as int);
                                assert(args@.subrange(0, args@.len() as int) == args@);
                            }
                            return Err(EvalError::Overflow);
                        },
                    }
                    i += 1;
                }
                assert(args@.subrange(0, i as int) == args@);
                Ok(acc)
            },
            NodeVal::Mul => {
                let mut acc: i32 = 1;
                let mut i: usize = 0;
                while i < args.len()
                    invariant
                        *self == NodeVal::Mul,
                        i <= args@.len(),
                        checked_product(args@.subrange(0, i as int)) == Some(acc),
                    decreases args@.len() - i,
                {
                    assert(args@.subrange(0, i + 1).drop_last() == args@.subrange(0, i as int));
                    match acc.checked_mul(args[i]) {
                        Some(x) => acc = x,
                        None => {
                            proof {
                                lemma_product_stays_none(args@, i + 1, args@.len() as int);
                                assert(args@.subrange(0, args@.len() as int) == args@);
                            }
                            return Err(EvalError::Overflow);
                        },
                    }
                    i += 1;
                }
                assert(args@.subrange(0, i as int) == args@);
                Ok(acc)
            },
            NodeVal::Sub => {
                if args.len() == 1 {
                    match 0i32.checked_sub(args[0]) {
                        Some(x) => Ok(x),
                        None => Err(EvalError::Overflow),
                    }
                } else if args.len() == 2 {
                    match args[0].checked_sub(args[1]) {
                        Some(x) => Ok(x),
                        None => Err(EvalError::Overflow),
                    }
                } else {
                    Err(EvalError::Arity)
                }
            },
            NodeVal::Div => {
                if args.len() != 2 {
                    Err(EvalError::Arity)
                } else if args[1] == 0 {
                    Err(EvalError::DivisionByZero)
                } else {
                    match args[0].checked_div(args[1]) {
                        Some(x) => Ok(x),
                        None => Err(EvalError::Overflow),
                    }
                }
            },
            NodeVal::Exp => {
                if args.len() != 2 {
                    return Err(EvalError::Arity);
                }
                let b = args[0];
                let e = args[1];
                if e < 0 {
                    return Err(EvalError::NegativeExponent);
                }
                let mut acc: i32 = 1;
                let mut k: i32 = 0;
                proof {
                    reveal(pow);
                }
                while k < e
                    invariant
                        *self == NodeVal::Exp,
                        args@.len() == 2,
                        b == args@[0],
                        e == args@[1],
                        0 <= k <= e,
                        acc == pow(b as int, k as nat),
                    decreases e - k,
                {
                    proof {
                        reveal(pow);
                    }
                    match acc.checked_mul(b) {
                        Some(x) => acc = x,
                        None => {
                            proof {
                                assert(pow(b as int, (k + 1) as nat) == b * acc);
                                lemma_pow_stays_out(b as int, (k + 1) as nat, e as nat);
                            }
                            return Err(EvalError::Overflow);
                        },
                    }
                    k += 1;
                }
                Ok(acc)
            },
            NodeVal::Fac => {
                if args.len() != 1 {
                    Err(EvalError::Arity)
                } else if args[0] < 0 {
                    Err(EvalError::NegativeFactorial)
                } else {
                    match fac(args[0]) {
                        Some(x) => Ok(x),
                        None => Err(EvalError::Overflow),
                    }
                }
            },
        }
    }
}


/// The value of a tree: an operator applied to the values of its operands.
pub open spec fn eval_term(t: Term) -> Result<i32, EvalError>
    decreases t,
{
    match t {
        Term::Num(v) => Ok(v),
        Term::Name(_) => Err(EvalError::Symbol),
        Term::App(o, cs) => match eval_terms(cs) {
            Ok(vs) => apply_op(o, vs),
            Err(e) => Err(e),
        },
    }
}

/// The values of a list of trees, taken in order, or the first error among them.
pub open spec fn eval_terms(cs: Seq<Term>) -> Result<Seq<i32>, EvalError>
    decreases cs,
{
    if cs.len() == 0 {
        Ok(Seq::empty())
    } else {
        match eval_terms(cs.subrange(0, cs.len() - 1)) {
            Err(e) => Err(e),
            Ok(vs) => match eval_term(cs[cs.len() - 1]) {
                Ok(v) => Ok(vs.push(v)),
                Err(e) => Err(e),
            },
        }
    }
}

proof fn lemma_error_stays(cs: Seq<Term>, j: int, k: int, e: EvalError)
    requires
        0 <= j <= k <= cs.len(),
        eval_terms(cs.subrange(0, j)) == Err::<Seq<i32>, EvalError>(e),
    ensures
        eval_terms(cs.subrange(0, k)) == Err::<Seq<i32>, EvalError>(e),
    decreases k - j,
{
    if j < k {
        assert(cs.subrange(0, j + 1).subrange(0, j) == cs.subrange(0, j));
        lemma_error_stays(cs, j + 1, k, e);
    }
}

/// Evaluates an expression tree.
pub fn eval(ast: &Node) -> (r: Result<i32, EvalError>)
    ensures
        r == eval_term(ast@),
    decreases ast,
{
    match ast {
        Node::Node { v, children } => {
            let ghost cs = ast@->App_1;
            let mut args: Vec<i32> = Vec::new();
            let mut i: usize = 0;
            while i < children.len()
                invariant
                    ast@ == Term::App(*v, cs),
                    *ast == (Node::Node { v: *v, children: *children }),
                    cs.len() == children@.len(),
                    forall|j: int| 0 <= j < cs.len() ==> cs[j] == children@[j]@,
                    i <= children@.len(),
                    eval_terms(cs.subrange(0, i as int)) == Ok::<Seq<i32>, EvalError>(args@),
                decreases children@.len() - i,
            {
                assert(cs.subrange(0, i + 1).subrange(0, i as int) == cs.subrange(0, i as int));
                proof {
                    vstd::std_specs::vec::axiom_vec_index_decreases(*children, i as int);
                }
                match eval(&children[i]) {
                    Ok(x) => args.push(x),
                    Err(e) => {
                        proof {
                            lemma_error_stays(cs, i + 1, cs.len() as int, e);
                            assert(cs.subrange(0, cs.len() as int) == cs);
                        }
                        return Err(e);
                    },
                }
                i += 1;
            }
            assert(cs.subrange(0, i as int) == cs);
            v.apply(args.as_slice())
        },
        Node::Leaf(LeafVal::Int(v)) => Ok(*v),
        Node::Leaf(LeafVal::Sym(_)) => Err(EvalError::Symbol),
    }
}


proof fn lemma_skip_space_run(s: Seq<u8>, i: int, j: int)
    requires
        0 <= i <= j <= s.len(),
        forall|k: int| i <= k < j ==> is_space(#[trigger] s[k]),
        j == s.len() || !is_space(s[j]),
    ensures
        skip_space(s, i) == j,
    decreases j - i,
{
    if i < j {
        lemma_skip_space_run(s, i + 1, j);
    }
}

proof fn lemma_digit_run(s: Seq<u8>, i: int, j: int)
    requires
        0 <= i <= j <= s.len(),
        forall|k: int| i <= k < j ==> is_digit(#[trigger] s[k]),
        j == s.len() || !is_digit(s[j]),
    ensures
        digit_run_end(s, i) == j,
    decreases j - i,
{
    if i < j {
        lemma_digit_run(s, i + 1, j);
    }
}

/// An input that holds a single integer literal, with whitespace around it, parses to
/// that number alone, and evaluating the tree gives the number back.
pub proof fn lemma_literal_evaluates_to_itself(pre: Seq<u8>, digits: Seq<u8>, post: Seq<u8>)
    requires
        forall|k: int| 0 <= k < pre.len() ==> is_space(#[trigger] pre[k]),
        forall|k: int| 0 <= k < post.len() ==> is_space(#[trigger] post[k]),
        digits.len() > 0,
        forall|k: int| 0 <= k < digits.len() ==> is_digit(#[trigger] digits[k]),
        digits_value(digits) <= i32::MAX,
    ensures
        parse(pre + digits + post) == Ok::<Term, ParseError>(
            Term::Num(digits_value(digits) as i32),
        ),
        eval_term(Term::Num(digits_value(digits) as i32)) == Ok::<i32, EvalError>(
            digits_value(digits) as i32,
        ),
{
    let s = pre + digits + post;
    let a = pre.len() as int;
    let b = a + digits.len();
    assert(forall|k: int| 0 <= k < a ==> s[k] == pre[k]);
    assert(forall|k: int| a <= k < b ==> s[k] == digits[k - a]);
    assert(forall|k: int| b <= k < s.len() ==> s[k] == post[k - b]);
    lemma_skip_space_run(s, 0, a);
    lemma_digit_run(s, a, b);
    lemma_skip_space_run(s, b, s.len() as int);
    assert(s.subrange(a, b) == digits);
    let v = digits_value(digits) as i32;
    assert(s[a] == digits[0]);
    assert(is_digit(s[a]));
    assert(next_token(s, 0) == Ok::<(Tok, int), LexError>((Tok::Int(v), b)));
    assert(next_token(s, b) == Ok::<(Tok, int), LexError>((Tok::Eof, s.len() as int)));
    assert(parse_rest(s, Term::Num(v), b, 0) == Ok::<(Term, int), ParseError>((Term::Num(v), b)));
    assert(parse_bp(s, 0, 0) == Ok::<(Term, int), ParseError>((Term::Num(v), b)));
}


/// Evaluating a tree whose operator nodes all have the right arity never fails for want
/// of operands; with `lemma_parse_arity`, this holds of every tree that parsing gives.
pub proof fn lemma_no_arity_error(t: Term)
    requires
        arity_ok(t),
    ensures
        eval_term(t) != Err::<i32, EvalError>(EvalError::Arity),
    decreases t,
{
    if let Term::App(o, cs) = t {
        lemma_terms_arity(cs);
    }
}

proof fn lemma_terms_arity(cs: Seq<Term>)
    requires
        forall|i: int| 0 <= i < cs.len() ==> arity_ok(#[trigger] cs[i]),
    ensures
        eval_terms(cs) != Err::<Seq<i32>, EvalError>(EvalError::Arity),
        eval_terms(cs) matches Ok(vs) ==> vs.len() == cs.len(),
    decreases cs,
{
    if cs.len() > 0 {
        let init = cs.subrange(0, cs.len() - 1);
        assert(forall|i: int| 0 <= i < init.len() ==> init[i] == cs[i]);
        lemma_terms_arity(init);
        lemma_no_arity_error(cs[cs.len() - 1]);
    }
}

} // verus!
