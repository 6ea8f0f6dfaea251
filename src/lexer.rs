use vstd::prelude::*;

verus! {

/// A lexical token, as handed out by [`Lexer`].
#[derive(Debug, PartialEq, Eq)]
pub enum Token {
    Int(i32),
    Sym(String),
    Plus,
    Minus,
    Star,
    Slash,
    LParen,
    RParen,
    Caret,
    Fac,
    Eof,
}

/// The mathematical model of a token: a symbol is its sequence of characters.
pub enum Tok {
    Int(i32),
    Sym(Seq<char>),
    Plus,
    Minus,
    Star,
    Slash,
    LParen,
    RParen,
    Caret,
    Fac,
    Eof,
}

impl View for Token {
    type V = Tok;

    open spec fn view(&self) -> Tok {
        match self {
            Token::Int(v) => Tok::Int(*v),
            Token::Sym(s) => Tok::Sym(s@),
            Token::Plus => Tok::Plus,
            Token::Minus => Tok::Minus,
            Token::Star => Tok::Star,
            Token::Slash => Tok::Slash,
            Token::LParen => Tok::LParen,
            Token::RParen => Tok::RParen,
            Token::Caret => Tok::Caret,
            Token::Fac => Tok::Fac,
            Token::Eof => Tok::Eof,
        }
    }
}

/// Why the input could not be cut into tokens; `at` is a byte offset.
#[derive(Debug, Clone, Copy, PartialEq, Eq, Structural)]
pub enum LexError {
    /// A byte that starts no token.
    UnexpectedByte { at: usize },
    /// A run of digits whose value does not fit in an `i32`.
    NumberOverflow { at: usize },
}

pub open spec fn is_op_byte(c: u8) -> bool {
    c == 0x2b || c == 0x2d || c == 0x2a || c == 0x2f || c == 0x28 || c == 0x29 || c == 0x5e
        || c == 0x21
}

pub open spec fn is_digit(c: u8) -> bool {
    0x30 <= c <= 0x39
}

pub open spec fn is_alpha(c: u8) -> bool {
    (0x41 <= c <= 0x5a) || (0x61 <= c <= 0x7a)
}

pub open spec fn is_alnum(c: u8) -> bool {
    is_digit(c) || is_alpha(c)
}

/// ASCII whitespace as `u8::is_ascii_whitespace` has it: space, tab, LF, FF, CR.
pub open spec fn is_space(c: u8) -> bool {
    c == 0x20 || c == 0x09 || c == 0x0a || c == 0x0c || c == 0x0d
}


/// The first position at or after `i` that holds no whitespace.
pub open spec fn skip_space(s: Seq<u8>, i: int) -> int
    decreases s.len() - i,
{
    if 0 <= i < s.len() && is_space(s[i]) {
        skip_space(s, i + 1)
    } else {
        i
    }
}

/// The end of the run of digits that starts at `i`.
pub open spec fn digit_run_end(s: Seq<u8>, i: int) -> int
    decreases s.len() - i,
{
    if 0 <= i < s.len() && is_digit(s[i]) {
        digit_run_end(s, i + 1)
    } else {
        i
    }
}

/// The end of the run of letters and digits that starts at `i`.
pub open spec fn alnum_run_end(s: Seq<u8>, i: int) -> int
    decreases s.len() - i,
{
    if 0 <= i < s.len() && is_alnum(s[i]) {
        alnum_run_end(s, i + 1)
    } else {
        i
    }
}

/// The decimal value of a sequence of digits.
pub open spec fn digits_value(d: Seq<u8>) -> nat
    decreases d.len(),
{
    if d.len() == 0 {
        0
    } else {
        digits_value(d.drop_last()) * 10 + (d.last() - 0x30) as nat
    }
}

/// The characters of a run of ASCII bytes.
pub open spec fn ascii_chars(b: Seq<u8>) -> Seq<char> {
    b.map_values(|c: u8| c as char)
}

/// The token of a one-byte operator or parenthesis.
pub open spec fn op_token(c: u8) -> Tok {
    if c == 0x2b {
        Tok::Plus
    } else if c == 0x2d {
        Tok::Minus
    } else if c == 0x2a {
        Tok::Star
    } else if c == 0x2f {
        Tok::Slash
    } else if c == 0x28 {
        Tok::LParen
    } else if c == 0x29 {
        Tok::RParen
    } else if c == 0x5e {
        Tok::Caret
    } else {
        Tok::Fac
    }
}

/// The token that starts at or after position `pos` of `s`, with the position just past
/// it; at the end of the input, `Eof` (which takes no room and so comes again and again).
pub open spec fn next_token(s: Seq<u8>, pos: int) -> Result<(Tok, int), LexError> {
    let i = skip_space(s, pos);
    if i >= s.len() {
        Ok((Tok::Eof, i))
    } else if is_op_byte(s[i]) {
        Ok((op_token(s[i]), i + 1))
    } else if is_digit(s[i]) {
        let j = digit_run_end(s, i);
        let v = digits_value(s.subrange(i, j));
        if v <= i32::MAX {
            Ok((Tok::Int(v as i32), j))
        } else {
            Err(LexError::NumberOverflow { at: i as usize })
        }
    } else if is_alpha(s[i]) {
        let j = alnum_run_end(s, i);
        Ok((Tok::Sym(ascii_chars(s.subrange(i, j))), j))
    } else {
        Err(LexError::UnexpectedByte { at: i as usize })
    }
}

/// Relies on `String::push`: the character is appended at the end.
#[verifier::external_body]
pub(crate) fn push_char(s: &mut String, c: char)
    ensures
        final(s)@ == old(s)@.push(c),
{
    s.push(c);
}

impl Token {
    /// The token of a one-byte operator or parenthesis: `+ - * / ( ) ^ !`.
    fn from_op(c: u8) -> (r: Token)
        requires
            is_op_byte(c),
        ensures
            r@ == op_token(c),
    {
        if c == 0x2b {
            Token::Plus
        } else if c == 0x2d {
            Token::Minus
        } else if c == 0x2a {
            Token::Star
        } else if c == 0x2f {
            Token::Slash
        } else if c == 0x28 {
            Token::LParen
        } else if c == 0x29 {
            Token::RParen
        } else if c == 0x5e {
            Token::Caret
        } else {
            Token::Fac
        }
    }

    /// Reads the run of digits at `start` as an `i32`; gives the token and where it ends.
    fn from_int(s: &[u8], start: usize) -> (r: Result<(Token, usize), LexError>)
        requires
            start < s@.len(),
            is_digit(s@[start as int]),
        ensures
            ({
                let j = digit_run_end(s@, start as int);
                let v = digits_value(s@.subrange(start as int, j));
                match r {
                    Ok((t, e)) => v <= i32::MAX && t@ == Tok::Int(v as i32) && e == j,
                    Err(err) => v > i32::MAX && err == LexError::NumberOverflow { at: start },
                }
            }),
    {
        let mut j: usize = start;
        let mut v: i32 = 0;
        let mut overflow = false;
        while j < s.len() && 0x30 <= s[j] && s[j] <= 0x39
            invariant
                start <= j <= s@.len(),
                digit_run_end(s@, start as int) == digit_run_end(s@, j as int),
                !overflow ==> v == digits_value(s@.subrange(start as int, j as int)),
                overflow ==> digits_value(s@.subrange(start as int, j as int)) > i32::MAX,
            decreases s@.len() - j,
        {
            let ghost before = s@.subrange(start as int, j as int);
            assert(s@.subrange(start as int, j + 1).drop_last() == before);
            if !overflow {
                let d = (s[j] - 0x30) as i32;
                match v.checked_mul(10) {
                    Some(w) => match w.checked_add(d) {
                        Some(x) => v = x,
                        None => overflow = true,
                    },
                    None => overflow = true,
                }
            }
            j += 1;
        }
        if overflow {
            Err(LexError::NumberOverflow { at: start })
        } else {
            Ok((Token::Int(v), j))
        }
    }

    /// Reads the run of letters and digits at `start` as a symbol; gives the token and
    /// where it ends.
    fn from_symbol(s: &[u8], start: usize) -> (r: (Token, usize))
        requires
            start < s@.len(),
        ensures
            r.1 == alnum_run_end(s@, start as int),
            r.0@ == Tok::Sym(ascii_chars(s@.subrange(start as int, r.1 as int))),
    {
        let mut j: usize = start;
        let mut name = String::new();
        while j < s.len() && ((0x30 <= s[j] && s[j] <= 0x39) || (0x41 <= s[j] && s[j] <= 0x5a)
            || (0x61 <= s[j] && s[j] <= 0x7a))
            invariant
                start <= j <= s@.len(),
                alnum_run_end(s@, start as int) == alnum_run_end(s@, j as int),
                name@ == ascii_chars(s@.subrange(start as int, j as int)),
            decreases s@.len() - j,
        {
            push_char(&mut name, s[j] as char);
            assert(s@.subrange(start as int, j + 1) == s@.subrange(start as int, j as int).push(
                s@[j as int],
            ));
            j += 1;
            assert(name@ == ascii_chars(s@.subrange(start as int, j as int)));
        }
        (Token::Sym(name), j)
    }
}


/// A lazy token stream over a byte buffer, with room for one token of lookahead.
#[derive(Debug)]
pub struct Lexer<'a> {
    /// The next token, already read, with the position just past it.
    peeked: Option<(Token, usize)>,
    s: &'a [u8],
    /// The position of the next token that has not been handed out by `next`.
    i: usize,
}

impl<'a> Lexer<'a> {
    /// The bytes being read.
    pub closed spec fn input(&self) -> Seq<u8> {
        self.s@
    }

    /// How far `next` has read.
    pub closed spec fn pos(&self) -> int {
        self.i as int
    }

    pub closed spec fn wf(&self) -> bool {
        &&& self.i <= self.s@.len()
        &&& self.peeked matches Some((t, e)) ==> next_token(self.s@, self.i as int) == Ok::<
            (Tok, int),
            LexError,
        >((t@, e as int))
    }

    pub fn new(s: &'a [u8]) -> (r: Self)
        ensures
            r.wf(),
            r.input() == s@,
            r.pos() <= r.input().len(),
            r.pos() == 0,
    {
        Self { peeked: None, i: 0, s }
    }

    /// Hands out the next token and moves past it.
    pub fn next(&mut self) -> (r: Result<Token, LexError>)
        requires
            old(self).wf(),
        ensures
            final(self).wf(),
            final(self).input() == old(self).input(),
            old(self).pos() <= final(self).pos(),
            final(self).pos() <= final(self).input().len(),
            match r {
                Ok(t) => next_token(old(self).input(), old(self).pos()) == Ok::<
                    (Tok, int),
                    LexError,
                >((t@, final(self).pos())),
                Err(e) => next_token(old(self).input(), old(self).pos()) == Err::<
                    (Tok, int),
                    LexError,
                >(e) && final(self).pos() == old(self).pos(),
            },
    {
        if let Some((t, e)) = self.peeked.take() {
            proof {
                lemma_token_end(self.s@, self.i as int);
            }
            self.i = e;
            return Ok(t);
        }
        let s = self.s;
        let i = self.offset();
        proof {
            lemma_token_end(s@, self.i as int);
            lemma_skip_space(s@, i as int);
            lemma_run_ends(s@, i as int);
        }
        if i >= s.len() {
            self.i = i;
            return Ok(Token::Eof);
        }
        let c = s[i];
        if c == 0x2b || c == 0x2d || c == 0x2a || c == 0x2f || c == 0x28 || c == 0x29 || c
            == 0x5e || c == 0x21 {
            self.i = i + 1;
            Ok(Token::from_op(c))
        } else if 0x30 <= c && c <= 0x39 {
            match Token::from_int(s, i) {
                Ok((t, j)) => {
                    self.i = j;
                    Ok(t)
                },
                Err(e) => Err(e),
            }
        } else if (0x41 <= c && c <= 0x5a) || (0x61 <= c && c <= 0x7a) {
            let (t, j) = Token::from_symbol(s, i);
            self.i = j;
            Ok(t)
        } else {
            Err(LexError::UnexpectedByte { at: i })
        }
    }

    /// Where the next token starts: past the whitespace at the current position.
    pub fn offset(&self) -> (r: usize)
        requires
            self.wf(),
        ensures
            r == skip_space(self.input(), self.pos()),
    {
        let s = self.s;
        let mut i = self.i;
        while i < s.len() && (s[i] == 0x20 || s[i] == 0x09 || s[i] == 0x0a || s[i] == 0x0c
            || s[i] == 0x0d)
            invariant
                self.i <= i <= s@.len(),
                s@ == self.s@,
                skip_space(s@, self.i as int) == skip_space(s@, i as int),
            decreases s@.len() - i,
        {
            i += 1;
        }
        i
    }

    /// The next token, without moving past it.
    pub fn peek(&mut self) -> (r: Result<&Token, LexError>)
        requires
            old(self).wf(),
        ensures
            final(self).wf(),
            final(self).input() == old(self).input(),
            final(self).pos() == old(self).pos(),
            match r {
                Ok(t) => exists|e: int|
                    next_token(old(self).input(), old(self).pos()) == Ok::<(Tok, int), LexError>(
                        (t@, e),
                    ),
                Err(e) => next_token(old(self).input(), old(self).pos()) == Err::<
                    (Tok, int),
                    LexError,
                >(e),
            },
    {
        if self.peeked.is_none() {
            let i = self.i;
            let t = self.next()?;
            let e = self.i;
            self.i = i;
            self.peeked = Some((t, e));
        }
        match &self.peeked {
            Some((t, _)) => Ok(t),
            None => Err(LexError::UnexpectedByte { at: self.i }),
        }
    }
}

/// A token never ends before it starts, nor past the end of the input; only `Eof` takes
/// no room.
pub proof fn lemma_token_end(s: Seq<u8>, pos: int)
    requires
        0 <= pos <= s.len(),
    ensures
        next_token(s, pos) matches Ok((t, e)) ==> pos <= e <= s.len() && (t != Tok::Eof ==> pos
            < e),
{
    lemma_skip_space(s, pos);
    let i = skip_space(s, pos);
    if i < s.len() {
        lemma_run_ends(s, i);
    }
}

proof fn lemma_skip_space(s: Seq<u8>, i: int)
    requires
        0 <= i <= s.len(),
    ensures
        i <= skip_space(s, i) <= s.len(),
    decreases s.len() - i,
{
    if i < s.len() && is_space(s[i]) {
        lemma_skip_space(s, i + 1);
    }
}

proof fn lemma_run_ends(s: Seq<u8>, i: int)
    requires
        0 <= i <= s.len(),
    ensures
        i <= digit_run_end(s, i) <= s.len(),
        i <= alnum_run_end(s, i) <= s.len(),
        i < s.len() && is_digit(s[i]) ==> i < digit_run_end(s, i),
        i < s.len() && is_alnum(s[i]) ==> i < alnum_run_end(s, i),
    decreases s.len() - i,
{
    if i < s.len() {
        lemma_run_ends(s, i + 1);
    }
}

} // verus!
