use crate::lexer::push_char;
use crate::parser::{LeafVal, Node, NodeVal, Term};
use vstd::prelude::*;

verus! {

/// The character that writes an operator.
pub open spec fn op_symbol(o: NodeVal) -> char {
    match o {
        NodeVal::Add => '+',
        NodeVal::Sub => '-',
        NodeVal::Mul => '*',
        NodeVal::Div => '/',
        NodeVal::Exp => '^',
        NodeVal::Fac => '!',
    }
}

/// The decimal digits of `n`, without leading zeros.
pub open spec fn decimal(n: nat) -> Seq<char>
    decreases n,
{
    let d = ((n % 10) + 0x30) as u8 as char;
    if n < 10 {
        seq![d]
    } else {
        decimal(n / 10).push(d)
    }
}

/// An integer in decimal, with a `-` in front where it is negative.
pub open spec fn int_text(v: int) -> Seq<char> {
    if v < 0 {
        seq!['-'] + decimal((-v) as nat)
    } else {
        decimal(v as nat)
    }
}

/// A tree as an S-expression: a leaf as its number or name, an operator node as
/// `(op a b ...)`.
pub open spec fn render(t: Term) -> Seq<char>
    decreases t,
{
    match t {
        Term::Num(v) => int_text(v as int),
        Term::Name(n) => n,
        Term::App(o, cs) => seq!['(', op_symbol(o)] + render_operands(cs) + seq![')'],
    }
}

/// Each tree of the list rendered, with a space in front of each.
pub open spec fn render_operands(cs: Seq<Term>) -> Seq<char>
    decreases cs,
{
    if cs.len() == 0 {
        Seq::empty()
    } else {
        render_operands(cs.subrange(0, cs.len() - 1)) + seq![' '] + render(cs[cs.len() - 1])
    }
}

/// Appends the decimal digits of `n`.
fn push_decimal(out: &mut String, n: u32)
    ensures
        final(out)@ == old(out)@ + decimal(n as nat),
    decreases n,
{
    if n >= 10 {
        push_decimal(out, n / 10);
    }
    push_char(out, ((n % 10) as u8 + 0x30) as char);
}

impl NodeVal {
    /// The character that writes the operator, as a string.
    pub fn to_string(&self) -> (r: String)
        ensures
            r@ == seq![op_symbol(*self)],
    {
        let mut r = String::new();
        let c = match self {
            NodeVal::Add => '+',
            NodeVal::Sub => '-',
            NodeVal::Mul => '*',
            NodeVal::Div => '/',
            NodeVal::Exp => '^',
            NodeVal::Fac => '!',
        };
        push_char(&mut r, c);
        r
    }
}

impl LeafVal {
    /// A number in decimal, or a symbol's name.
    pub fn to_string(&self) -> (r: String)
        ensures
            r@ == render(Node::Leaf(*self)@),
    {
        match self {
            LeafVal::Int(v) => {
                let mut r = String::new();
                let m: u32 = if *v < 0 {
                    push_char(&mut r, '-');
                    (0 - (*v as i64)) as u32
                } else {
                    *v as u32
                };
                push_decimal(&mut r, m);
                r
            },
            LeafVal::Sym(s) => s.clone(),
        }
    }
}

impl Node {
    /// The tree as an S-expression, such as `(+ 1 (* 2 3))`.
    pub fn to_string(&self) -> (r: String)
        ensures
            r@ == render(self@),
        decreases self,
    {
        match self {
            Node::Leaf(l) => l.to_string(),
            Node::Node { v, children } => {
                let ghost cs = self@->App_1;
                let mut r = String::new();
                push_char(&mut r, '(');
                let o = v.to_string();
                r.append(o.as_str());
                let mut i: usize = 0;
                while i < children.len()
                    invariant
                        self@ == Term::App(*v, cs),
                        *self == (Node::Node { v: *v, children: *children }),
                        cs.len() == children@.len(),
                        forall|j: int| 0 <= j < cs.len() ==> cs[j] == children@[j]@,
                        i <= children@.len(),
                        r@ == seq!['(', op_symbol(*v)] + render_operands(
                            cs.subrange(0, i as int),
                        ),
                    decreases children@.len() - i,
                {
                    assert(cs.subrange(0, i + 1).subrange(0, i as int) == cs.subrange(
                        0,
                        i as int,
                    ));
                    proof {
                        vstd::std_specs::vec::axiom_vec_index_decreases(*children, i as int);
                    }
                    let c = children[i].to_string();
                    push_char(&mut r, ' ');
                    r.append(c.as_str());
                    i += 1;
                }
                assert(cs.subrange(0, i as int) == cs);
                push_char(&mut r, ')');
                r
            },
        }
    }
}

} // verus!
