use crate::lexer::{Lexer, LexError, Tok, Token, next_token, skip_space, lemma_token_end};
use vstd::prelude::*;

verus! {

/// An operator, once its place in the expression has told what a `+` or `-` means.
#[derive(Debug, Clone, Copy, PartialEq, Eq, Structural)]
pub enum NodeVal {
    Add,
    Sub,
    Mul,
    Div,
    Exp,
    Fac,
}

/// The value held by a leaf: a number or a symbol.
#[derive(Debug)]
pub enum LeafVal {
    Int(i32),
    Sym(String),
}

/// An expression tree.
#[derive(Debug)]
pub enum Node {
    Leaf(LeafVal),
    Node { v: NodeVal, children: Vec<Node> },
}

/// The mathematical model of an expression tree.
pub enum Term {
    Num(i32),
    Name(Seq<char>),
    App(NodeVal, Seq<Term>),
}

impl Node {
    pub open spec fn view(&self) -> Term
        decreases self,
    {
        match self {
            Node::Leaf(LeafVal::Int(v)) => Term::Num(*v),
            Node::Leaf(LeafVal::Sym(s)) => Term::Name(s@),
            Node::Node { v, children } => Term::App(
                *v,
                Seq::new(children.len() as nat, |i: int|
                    if 0 <= i < children.len() {
                        children@[i].view()
                    } else {
                        Term::Num(0)
                    }),
            ),
        }
    }
}


/// Why the input is no expression.
#[derive(Debug, Clone, Copy, PartialEq, Eq, Structural)]
pub enum ParseError {
    /// The input could not be cut into tokens.
    Lex(LexError),
    /// Where an operand should start, the token at byte `at` starts none.
    ExpectedLiteral { at: usize },
    /// After an operand, the token at byte `at` is an operand or `(`, not an operator.
    ExpectedOperator { at: usize },
    /// A `(` whose group is not closed: the token at byte `at` is not `)`.
    MissingRParen { at: usize },
}

/// The operator that a token stands for, if any.
pub open spec fn op_of(t: Tok) -> Option<NodeVal> {
    match t {
        Tok::Plus => Some(NodeVal::Add),
        Tok::Minus => Some(NodeVal::Sub),
        Tok::Star => Some(NodeVal::Mul),
        Tok::Slash => Some(NodeVal::Div),
        Tok::Caret => Some(NodeVal::Exp),
        Tok::Fac => Some(NodeVal::Fac),
        _ => None,
    }
}

/// Left and right binding power of an infix operator.
pub open spec fn infix_powers(o: NodeVal) -> (i32, i32)
    recommends
        o != NodeVal::Fac,
{
    match o {
        NodeVal::Add | NodeVal::Sub => (1, 2),
        NodeVal::Mul | NodeVal::Div => (3, 4),
        _ => (8, 7),
    }
}

/// Binding power of `+` and `-` used as prefix operators.
pub open spec fn prefix_power() -> i32 {
    5
}

/// Binding power of a postfix operator; only `!` is one.
pub open spec fn postfix_power(o: NodeVal) -> Option<i32> {
    match o {
        NodeVal::Fac => Some(6),
        _ => None,
    }
}

/// Parses an operand at `pos`, then the operators that bind at least as tightly as
/// `min` (see `parse_rest`). Gives the tree and where the next unread token starts.
pub open spec fn parse_bp(s: Seq<u8>, pos: int, min: int) -> Result<(Term, int), ParseError>
    decreases s.len() - pos, 1int,
{
    match next_token(s, pos) {
        Err(e) => Err(ParseError::Lex(e)),
        Ok((t, p)) => {
            // Tokens other than `Eof` take room: `lemma_token_end`.
            if !(pos < p <= s.len()) || !(t is Int || t is Sym || t is LParen || t is Minus
                || t is Plus) {
                Err(ParseError::ExpectedLiteral { at: skip_space(s, pos) as usize })
            } else {
                match t {
                    Tok::Int(v) => parse_rest(s, Term::Num(v), p, min),
                    Tok::Sym(n) => parse_rest(s, Term::Name(n), p, min),
                    Tok::LParen => match parse_bp(s, p, 0) {
                        Err(e) => Err(e),
                        Ok((inner, q)) => match next_token(s, q) {
                            Err(e) => Err(ParseError::Lex(e)),
                            Ok((Tok::RParen, r)) => if pos < r <= s.len() {
                                parse_rest(s, inner, r, min)
                            } else {
                                Err(ParseError::MissingRParen { at: skip_space(s, q) as usize })
                            },
                            Ok(_) => Err(
                                ParseError::MissingRParen { at: skip_space(s, q) as usize },
                            ),
                        },
                    },
                    _ => {
                        let o = if t is Minus {
                            NodeVal::Sub
                        } else {
                            NodeVal::Add
                        };
                        match parse_bp(s, p, prefix_power() as int) {
                            Err(e) => Err(e),
                            Ok((x, q)) => if pos < q <= s.len() {
                                parse_rest(s, Term::App(o, seq![x]), q, min)
                            } else {
                                Err(ParseError::ExpectedLiteral { at: skip_space(s, pos) as usize })
                            },
                        }
                    },
                }
            }
        },
    }
}

/// With `lhs` parsed up to `pos`, applies the operators that follow while they bind at
/// least as tightly as `min`: a postfix one to `lhs` itself, an infix one to `lhs` and
/// the operand parsed after it at the operator's right power. Stops before `)`, at the
/// end, and before an operator that binds more loosely.
pub open spec fn parse_rest(s: Seq<u8>, lhs: Term, pos: int, min: int) -> Result<
    (Term, int),
    ParseError,
>
    decreases s.len() - pos, 0int,
{
    match next_token(s, pos) {
        Err(e) => Err(ParseError::Lex(e)),
        Ok((t, p)) => match op_of(t) {
            None => if t is Eof || t is RParen {
                Ok((lhs, pos))
            } else {
                Err(ParseError::ExpectedOperator { at: skip_space(s, pos) as usize })
            },
            Some(o) => if !(pos < p <= s.len()) {
                // Never taken: an operator takes room.
                Ok((lhs, pos))
            } else {
                match postfix_power(o) {
                    Some(lp) => if lp < min {
                        Ok((lhs, pos))
                    } else {
                        parse_rest(s, Term::App(o, seq![lhs]), p, min)
                    },
                    None => {
                        let (lp, rp) = infix_powers(o);
                        if lp < min {
                            Ok((lhs, pos))
                        } else {
                            match parse_bp(s, p, rp as int) {
                                Err(e) => Err(e),
                                Ok((rhs, q)) => if pos < q <= s.len() {
                                    parse_rest(s, Term::App(o, seq![lhs, rhs]), q, min)
                                } else {
                                    Ok((lhs, pos))
                                },
                            }
                        }
                    },
                }
            },
        },
    }
}

/// The tree of a whole input: the expression parsed from its start with every operator
/// admitted. What follows a `)` at the top level is left unread.
pub open spec fn parse(s: Seq<u8>) -> Result<Term, ParseError> {
    match parse_bp(s, 0, 0) {
        Ok((t, _)) => Ok(t),
        Err(e) => Err(e),
    }
}

/// Whether an operator takes `n` operands: `+` and `-` one or two, `!` one, the others two.
pub open spec fn arity_fits(o: NodeVal, n: int) -> bool {
    match o {
        NodeVal::Add | NodeVal::Sub => n == 1 || n == 2,
        NodeVal::Fac => n == 1,
        _ => n == 2,
    }
}

/// Every operator node of the tree has a number of operands that its operator takes.
pub open spec fn arity_ok(t: Term) -> bool
    decreases t,
{
    match t {
        Term::App(o, cs) => arity_fits(o, cs.len() as int) && forall|i: int|
            0 <= i < cs.len() ==> arity_ok(#[trigger] cs[i]),
        _ => true,
    }
}

proof fn lemma_bp_arity(s: Seq<u8>, pos: int, min: int)
    ensures
        parse_bp(s, pos, min) matches Ok((t, _)) ==> arity_ok(t),
    decreases s.len() - pos, 1int,
{
    if let Ok((t, p)) = next_token(s, pos) {
        if pos < p <= s.len() {
            match t {
                Tok::Int(v) => lemma_rest_arity(s, Term::Num(v), p, min),
                Tok::Sym(n) => lemma_rest_arity(s, Term::Name(n), p, min),
                Tok::LParen => {
                    lemma_bp_arity(s, p, 0);
                    if let Ok((inner, q)) = parse_bp(s, p, 0) {
                        if let Ok((Tok::RParen, r)) = next_token(s, q) {
                            if pos < r <= s.len() {
                                lemma_rest_arity(s, inner, r, min);
                            }
                        }
                    }
                },
                Tok::Minus | Tok::Plus => {
                    let o = if t is Minus {
                        NodeVal::Sub
                    } else {
                        NodeVal::Add
                    };
                    lemma_bp_arity(s, p, prefix_power() as int);
                    if let Ok((x, q)) = parse_bp(s, p, prefix_power() as int) {
                        if pos < q <= s.len() {
                            assert(arity_ok(Term::App(o, seq![x])));
                            lemma_rest_arity(s, Term::App(o, seq![x]), q, min);
                        }
                    }
                },
                _ => {},
            }
        }
    }
}

proof fn lemma_rest_arity(s: Seq<u8>, lhs: Term, pos: int, min: int)
    requires
        arity_ok(lhs),
    ensures
        parse_rest(s, lhs, pos, min) matches Ok((t, _)) ==> arity_ok(t),
    decreases s.len() - pos, 0int,
{
    if let Ok((t, p)) = next_token(s, pos) {
        if let Some(o) = op_of(t) {
            if pos < p <= s.len() {
                match postfix_power(o) {
                    Some(lp) => if lp >= min {
                        assert(arity_ok(Term::App(o, seq![lhs])));
                        lemma_rest_arity(s, Term::App(o, seq![lhs]), p, min);
                    },
                    None => {
                        let (lp, rp) = infix_powers(o);
                        if lp >= min {
                            lemma_bp_arity(s, p, rp as int);
                            if let Ok((rhs, q)) = parse_bp(s, p, rp as int) {
                                if pos < q <= s.len() {
                                    assert(arity_ok(Term::App(o, seq![lhs, rhs])));
                                    lemma_rest_arity(s, Term::App(o, seq![lhs, rhs]), q, min);
                                }
                            }
                        }
                    },
                }
            }
        }
    }
}

/// A tree that parsing gives holds only operator nodes of the right arity: one operand
/// for a prefix `+` or `-` and for `!`, two for an infix operator.
pub proof fn lemma_parse_arity(s: Seq<u8>)
    ensures
        parse(s) matches Ok(t) ==> arity_ok(t),
{
    lemma_bp_arity(s, 0, 0);
}

impl NodeVal {
    /// The operator that a token stands for, if any.
    pub fn from_token(t: &Token) -> (r: Option<NodeVal>)
        ensures
            r == op_of(t@),
    {
        match t {
            Token::Plus => Some(NodeVal::Add),
            Token::Minus => Some(NodeVal::Sub),
            Token::Star => Some(NodeVal::Mul),
            Token::Slash => Some(NodeVal::Div),
            Token::Caret => Some(NodeVal::Exp),
            Token::Fac => Some(NodeVal::Fac),
            _ => None,
        }
    }

    /// Left and right binding power as an infix operator.
    pub fn infix_prec(&self) -> (r: (i32, i32))
        requires
            *self != NodeVal::Fac,
        ensures
            r == infix_powers(*self),
    {
        match self {
            NodeVal::Add | NodeVal::Sub => (1, 2),
            NodeVal::Mul | NodeVal::Div => (3, 4),
            _ => (8, 7),
        }
    }

    /// Binding power as a prefix operator; only `+` and `-` are ones.
    pub fn prefix_prec(&self) -> (r: i32)
        requires
            *self == NodeVal::Add || *self == NodeVal::Sub,
        ensures
            r == prefix_power(),
    {
        5
    }

    /// Binding power as a postfix operator, if it is one.
    pub fn postfix_prec(&self) -> (r: Option<i32>)
        ensures
            r == postfix_power(*self),
    {
        match self {
            NodeVal::Fac => Some(6),
            _ => None,
        }
    }
}

/// The leaf that a number or symbol token stands for.
pub open spec fn leaf_of(t: Tok) -> Option<Term> {
    match t {
        Tok::Int(v) => Some(Term::Num(v)),
        Tok::Sym(n) => Some(Term::Name(n)),
        _ => None,
    }
}

impl LeafVal {
    /// The leaf value of a number or symbol token; `None` for any other token.
    pub fn from_token(t: Token) -> (r: Option<LeafVal>)
        ensures
            match r {
                Some(l) => leaf_of(t@) == Some(Node::Leaf(l)@),
                None => leaf_of(t@) is None,
            },
    {
        match t {
            Token::Int(v) => Some(LeafVal::Int(v)),
            Token::Sym(n) => Some(LeafVal::Sym(n)),
            _ => None,
        }
    }
}

impl Node {
    /// The node that applies `v` to one operand.
    pub fn unary(v: NodeVal, a: Node) -> (r: Node)
        ensures
            r@ == Term::App(v, seq![a@]),
    {
        let ghost av = a@;
        let r = Node::Node { v, children: vec![a] };
        assert(r@->App_1 =~= seq![av]);
        r
    }

    /// The node that applies `v` to two operands.
    pub fn binary(v: NodeVal, a: Node, b: Node) -> (r: Node)
        ensures
            r@ == Term::App(v, seq![a@, b@]),
    {
        let ghost av = a@;
        let ghost bv = b@;
        let r = Node::Node { v, children: vec![a, b] };
        assert(r@->App_1 =~= seq![av, bv]);
        r
    }
}


/// Parses an operand, then the operators that bind at least as tightly as `min_prec`,
/// reading from `tokens`. On success the first token not taken is still to be read.
fn expr_bp(tokens: &mut Lexer, min_prec: i32) -> (r: Result<Node, ParseError>)
    requires
        old(tokens).wf(),
        0 <= old(tokens).pos() <= old(tokens).input().len(),
    ensures
        final(tokens).wf(),
        final(tokens).input() == old(tokens).input(),
        old(tokens).pos() <= final(tokens).pos() <= final(tokens).input().len(),
        match r {
            Ok(n) => parse_bp(old(tokens).input(), old(tokens).pos(), min_prec as int) == Ok::<
                (Term, int),
                ParseError,
            >((n@, final(tokens).pos())),
            Err(e) => parse_bp(old(tokens).input(), old(tokens).pos(), min_prec as int) == Err::<
                (Term, int),
                ParseError,
            >(e),
        },
    decreases old(tokens).input().len() - old(tokens).pos(), 1int,
{
    let ghost s = tokens.input();
    let ghost pos0 = tokens.pos();
    proof {
        lemma_token_end(s, pos0);
    }
    let at = tokens.offset();
    let first = match tokens.next() {
        Ok(t) => t,
        Err(e) => return Err(ParseError::Lex(e)),
    };
    let mut lhs = match first {
        Token::LParen => {
            let inner = match expr_bp(tokens, 0) {
                Ok(n) => n,
                Err(e) => return Err(e),
            };
            proof {
                lemma_token_end(s, tokens.pos());
            }
            let close_at = tokens.offset();
            match tokens.next() {
                Err(e) => return Err(ParseError::Lex(e)),
                Ok(Token::RParen) => inner,
                Ok(_) => return Err(ParseError::MissingRParen { at: close_at }),
            }
        },
        Token::Minus => {
            let op = NodeVal::Sub;
            let rhs = match expr_bp(tokens, op.prefix_prec()) {
                Ok(n) => n,
                Err(e) => return Err(e),
            };
            Node::unary(op, rhs)
        },
        Token::Plus => {
            let op = NodeVal::Add;
            let rhs = match expr_bp(tokens, op.prefix_prec()) {
                Ok(n) => n,
                Err(e) => return Err(e),
            };
            Node::unary(op, rhs)
        },
        t => match LeafVal::from_token(t) {
            Some(l) => Node::Leaf(l),
            None => return Err(ParseError::ExpectedLiteral { at }),
        },
    };
    loop
        invariant
            tokens.wf(),
            tokens.input() == s,
            s == old(tokens).input(),
            pos0 == old(tokens).pos(),
            0 <= pos0 < tokens.pos() <= s.len(),
            parse_bp(s, pos0, min_prec as int) == parse_rest(
                s,
                lhs@,
                tokens.pos(),
                min_prec as int,
            ),
        decreases s.len() - tokens.pos(),
    {
        let ghost cur = tokens.pos();
        proof {
            lemma_token_end(s, cur);
        }
        let at = tokens.offset();
        let peeked = match tokens.peek() {
            Ok(t) => Ok((NodeVal::from_token(t), matches!(t, Token::Eof | Token::RParen))),
            Err(e) => Err(e),
        };
        let (op, stop) = match peeked {
            Ok(p) => p,
            Err(e) => return Err(ParseError::Lex(e)),
        };
        let op = match op {
            Some(op) => op,
            None => {
                if stop {
                    return Ok(lhs);
                }
                return Err(ParseError::ExpectedOperator { at });
            },
        };
        if let Some(lhs_prec) = op.postfix_prec() {
            if lhs_prec < min_prec {
                return Ok(lhs);
            }
            let _ = tokens.next();
            lhs = Node::unary(op, lhs);
        } else {
            let (lhs_prec, rhs_prec) = op.infix_prec();
            if lhs_prec < min_prec {
                return Ok(lhs);
            }
            let _ = tokens.next();
            let rhs = match expr_bp(tokens, rhs_prec) {
                Ok(n) => n,
                Err(e) => return Err(e),
            };
            lhs = Node::binary(op, lhs, rhs);
        }
    }
}

/// Parses a whole input into its expression tree.
pub fn expr(s: &[u8]) -> (r: Result<Node, ParseError>)
    ensures
        match r {
            Ok(n) => parse(s@) == Ok::<Term, ParseError>(n@),
            Err(e) => parse(s@) == Err::<Term, ParseError>(e),
        },
        r matches Ok(n) ==> arity_ok(n@),
{
    proof {
        lemma_parse_arity(s@);
    }
    let mut lexer = Lexer::new(s);
    expr_bp(&mut lexer, 0)
}

} // verus!
