//! Tokenizer and recursive-descent parser for the expression language:
//! whole and decimal number literals, the five infix operators,
//! parentheses, named constants written `:name`, and function words.

use vstd::prelude::*;

use crate::eval::{Number, Symbol};

use vstd::string::StringSliceAdditionalSpecFns;

verus! {

/// Everything the parser can report instead of a tree.
#[derive(Clone, Copy, Debug, PartialEq, Eq, Structural)]
pub enum ParseError {
    /// The input held a byte outside the language (or outside ASCII).
    BadToken,
    /// A token appeared where the grammar does not allow it.
    UnexpectedToken,
    /// The input ended while a subexpression was still open.
    UnexpectedEnd,
    /// A full expression was parsed but input remained.
    TrailingInput,
    /// A `:name` leaf named a constant the engine does not know.
    UnknownConstant,
}

/// One lexical token.
#[derive(Debug)]
pub(crate) enum Token {
    Error,
    INumber(i64),
    FNumber(String),
    Operator(u8),
    SymbolName(String),
    Word(String),
    Eof,
}

/// The unary operators of the tree.
#[derive(Debug)]
pub enum UnaryOp {
    Neg,
    Word(String),
}

impl UnaryOp {
    /// The binding strength of a unary operator.
    pub fn precedence(&self) -> (r: u8)
        ensures
            r == 2,
    {
        2
    }
}

/// The binary operators of the tree.
#[derive(Debug, PartialEq, Eq, Structural)]
pub enum BinaryOp {
    Plus,
    Minus,
    Mul,
    Div,
    Exp,
}

impl BinaryOp {
    /// What the precedence of each binary operator is.
    pub open spec fn spec_precedence(self) -> u8 {
        match self {
            BinaryOp::Plus => 1,
            BinaryOp::Minus => 1,
            BinaryOp::Mul => 3,
            BinaryOp::Div => 3,
            BinaryOp::Exp => 4,
        }
    }

    /// The binding strength of a binary operator.
    pub fn precedence(&self) -> (r: u8)
        ensures
            r == self.spec_precedence(),
    {
        match self {
            BinaryOp::Plus => 1,
            BinaryOp::Minus => 1,
            BinaryOp::Mul => 3,
            BinaryOp::Div => 3,
            BinaryOp::Exp => 4,
        }
    }
}

/// An expression tree: exact leaves, decimal-literal leaves kept as
/// text for the caller's approximate evaluation, unary nodes and binary
/// nodes.
#[derive(Debug)]
pub enum ExprTree {
    Val(Number),
    Approx(String),
    UNode(UnaryOp, Box<ExprTree>),
    BNode(BinaryOp, Box<ExprTree>, Box<ExprTree>),
}

/// What equality of unary operators means: negation matches negation,
/// and two words match when they spell the same name.
pub open spec fn spec_unary_op_eq(a: UnaryOp, b: UnaryOp) -> bool {
    match (a, b) {
        (UnaryOp::Neg, UnaryOp::Neg) => true,
        (UnaryOp::Word(x), UnaryOp::Word(y)) => x@ == y@,
        _ => false,
    }
}

/// Equality of unary operators.
pub fn unary_op_eq(a: &UnaryOp, b: &UnaryOp) -> (r: bool)
    ensures
        r == spec_unary_op_eq(*a, *b),
{
    match (a, b) {
        (UnaryOp::Neg, UnaryOp::Neg) => true,
        (UnaryOp::Word(x), UnaryOp::Word(y)) => x.eq(y),
        _ => false,
    }
}

impl PartialEq for UnaryOp {
    fn eq(&self, other: &Self) -> (r: bool) {
        unary_op_eq(self, other)
    }
}

impl vstd::std_specs::cmp::PartialEqSpecImpl for UnaryOp {
    open spec fn obeys_eq_spec() -> bool {
        true
    }

    open spec fn eq_spec(&self, other: &UnaryOp) -> bool {
        spec_unary_op_eq(*self, *other)
    }
}

/// What equality of expression trees means: the same shape, equal
/// exact leaves, decimal leaves that spell the same text, and matching
/// operators.
pub open spec fn spec_expr_tree_eq(a: ExprTree, b: ExprTree) -> bool
    decreases a,
{
    match (a, b) {
        (ExprTree::Val(x), ExprTree::Val(y)) => x == y,
        (ExprTree::Approx(x), ExprTree::Approx(y)) => x@ == y@,
        (ExprTree::UNode(xo, xt), ExprTree::UNode(yo, yt)) => spec_unary_op_eq(xo, yo)
            && spec_expr_tree_eq(*xt, *yt),
        (ExprTree::BNode(xo, xl, xr), ExprTree::BNode(yo, yl, yr)) => xo == yo
            && spec_expr_tree_eq(*xl, *yl) && spec_expr_tree_eq(*xr, *yr),
        _ => false,
    }
}

/// Equality of expression trees.
pub fn expr_tree_eq(a: &ExprTree, b: &ExprTree) -> (r: bool)
    ensures
        r == spec_expr_tree_eq(*a, *b),
    decreases a,
{
    match (a, b) {
        (ExprTree::Val(x), ExprTree::Val(y)) => crate::eval::num_eq(x, y),
        (ExprTree::Approx(x), ExprTree::Approx(y)) => x.eq(y),
        (ExprTree::UNode(xo, xt), ExprTree::UNode(yo, yt)) => unary_op_eq(xo, yo) && expr_tree_eq(
            xt,
            yt,
        ),
        (ExprTree::BNode(xo, xl, xr), ExprTree::BNode(yo, yl, yr)) => xo == yo && expr_tree_eq(
            xl,
            yl,
        ) && expr_tree_eq(xr, yr),
        _ => false,
    }
}

impl PartialEq for ExprTree {
    fn eq(&self, other: &Self) -> (r: bool) {
        expr_tree_eq(self, other)
    }
}

impl vstd::std_specs::cmp::PartialEqSpecImpl for ExprTree {
    open spec fn obeys_eq_spec() -> bool {
        true
    }

    open spec fn eq_spec(&self, other: &ExprTree) -> bool {
        spec_expr_tree_eq(*self, *other)
    }
}

impl ExprTree {
    /// Every exact leaf holds a well-formed value.
    pub open spec fn wf_tree(self) -> bool
        decreases self,
    {
        match self {
            ExprTree::Val(k) => k.wf(),
            ExprTree::Approx(_) => true,
            ExprTree::UNode(_, t) => (*t).wf_tree(),
            ExprTree::BNode(_, l, r) => (*l).wf_tree() && (*r).wf_tree(),
        }
    }

    /// Wraps a subtree under a unary operator.
    pub fn make_unary_node(op: UnaryOp, tree: ExprTree) -> (r: ExprTree)
        ensures
            r == ExprTree::UNode(op, Box::new(tree)),
    {
        ExprTree::UNode(op, Box::new(tree))
    }

    /// Joins two subtrees under a binary operator.
    pub fn make_binary_node(op: BinaryOp, lhs: ExprTree, rhs: ExprTree) -> (r: ExprTree)
        ensures
            r == ExprTree::BNode(op, Box::new(lhs), Box::new(rhs)),
    {
        ExprTree::BNode(op, Box::new(lhs), Box::new(rhs))
    }
}

/// Whether every character of the sequence is a decimal digit.
pub open spec fn all_digits(s: Seq<char>) -> bool {
    forall|i: int| 0 <= i < s.len() ==> 48 <= (#[trigger] s[i]) as int <= 57
}

/// The whole number a digit sequence spells, most significant first.
pub open spec fn digits_value(s: Seq<char>) -> int
    decreases s.len(),
{
    if s.len() == 0 {
        0
    } else {
        digits_value(s.drop_last()) * 10 + ((s.last() as int) - 48)
    }
}

/// The value of a digit sequence never shrinks as digits are appended,
/// and is never negative.
proof fn lemma_digits_value_mono(s: Seq<char>, p: int, q: int)
    requires
        all_digits(s),
        0 <= p <= q <= s.len(),
    ensures
        0 <= digits_value(s.subrange(0, p)),
        digits_value(s.subrange(0, p)) <= digits_value(s.subrange(0, q)),
    decreases q - p,
{
    if p == q {
        lemma_digits_value_nonneg(s, p);
    } else {
        lemma_digits_value_mono(s, p, q - 1);
        lemma_digits_value_nonneg(s, q - 1);
        assert(s.subrange(0, q).drop_last() =~= s.subrange(0, q - 1));
        assert(digits_value(s.subrange(0, q)) == digits_value(s.subrange(0, q - 1)) * 10 + ((
        s.subrange(0, q).last() as int) - 48));
        assert(digits_value(s.subrange(0, q - 1)) * 10 >= digits_value(s.subrange(0, q - 1)))
            by (nonlinear_arith)
            requires
                digits_value(s.subrange(0, q - 1)) >= 0,
        ;
    }
}

/// The value of a digit prefix is never negative.
proof fn lemma_digits_value_nonneg(s: Seq<char>, p: int)
    requires
        all_digits(s),
        0 <= p <= s.len(),
    ensures
        digits_value(s.subrange(0, p)) >= 0,
    decreases p,
{
    if p > 0 {
        lemma_digits_value_nonneg(s, p - 1);
        assert(s.subrange(0, p).drop_last() =~= s.subrange(0, p - 1));
        assert(digits_value(s.subrange(0, p - 1)) * 10 >= 0) by (nonlinear_arith)
            requires
                digits_value(s.subrange(0, p - 1)) >= 0,
        ;
    }
}

/// Resolves the name of a `:constant` leaf.
fn symbol_of_name(word: &String) -> (r: Option<Symbol>)
    ensures
        r matches Some(s) ==> true,
{
    let pi_a: String = "pi".to_owned();
    let pi_b: String = "Pi".to_owned();
    let e_a: String = "e".to_owned();
    let e_b: String = "E".to_owned();
    let phi_a: String = "phi".to_owned();
    let phi_b: String = "Phi".to_owned();
    let s2_a: String = "sqrt2".to_owned();
    let s2_b: String = "root2".to_owned();
    if word.eq(&pi_a) || word.eq(&pi_b) {
        Some(Symbol::Pi)
    } else if word.eq(&e_a) || word.eq(&e_b) {
        Some(Symbol::E)
    } else if word.eq(&phi_a) || word.eq(&phi_b) {
        Some(Symbol::Phi)
    } else if word.eq(&s2_a) || word.eq(&s2_b) {
        Some(Symbol::Sqrt2)
    } else {
        None
    }
}

/// Whether the byte at position j is an ASCII digit.
fn digit_at(s: &[u8], j: usize) -> (r: bool)
    requires
        j < s@.len(),
    ensures
        r == (48 <= s@[j as int] <= 57),
{
    let d = s[j];
    d >= 48 && d <= 57
}

/// Whether the byte at position j is an ASCII letter.
fn letter_at(s: &[u8], j: usize) -> (r: bool)
    requires
        j < s@.len(),
{
    let d = s[j];
    (d >= 65 && d <= 90) || (d >= 97 && d <= 122)
}

/// Whether the byte at position j is a letter or digit.
fn word_byte_at(s: &[u8], j: usize) -> (r: bool)
    requires
        j < s@.len(),
{
    let d = s[j];
    (d >= 65 && d <= 90) || (d >= 97 && d <= 122) || (d >= 48 && d <= 57)
}

/// Splits ASCII input into tokens, reversed so that the parser can pop
/// them from the back, with an end marker first.
fn tokenise(input: &str) -> (r: Vec<Token>)
    requires
        input.is_ascii(),
    ensures
        (input@.len() > 0 && all_digits(input@) && digits_value(input@) <= i64::MAX) ==> r@ =~= seq![
            Token::Eof,
            Token::INumber(digits_value(input@) as i64),
        ],
{
    let ghost lit = input@.len() > 0 && all_digits(input@) && digits_value(input@) <= i64::MAX;
    let bytes: &[u8] = input.as_bytes();
    proof {
        vstd::string::is_ascii_spec_bytes(input);
        assert(input.spec_bytes() =~= Seq::new(input@.len(), |i| input@.index(i) as u8));
        assert(bytes@.len() == input@.len());
    }
    let len: usize = bytes.len();
    let mut toks: Vec<Token> = Vec::new();
    let mut i: usize = 0;
    while i < len
        invariant
            input.is_ascii(),
            bytes@ == input.spec_bytes(),
            bytes@ =~= Seq::new(input@.len(), |t| input@.index(t) as u8),
            len == bytes@.len(),
            len == input@.len(),
            i <= len,
            lit == (input@.len() > 0 && all_digits(input@) && digits_value(input@) <= i64::MAX),
            lit ==> ((i == 0 && toks@ =~= Seq::<Token>::empty()) || (i == len && toks@ =~= seq![
                Token::INumber(digits_value(input@) as i64),
            ])),
        decreases len - i,
    {
        proof {
            if lit && i == 0 {
                assert(48 <= input@[0] as int <= 57);
                assert(bytes@[0] == input@[0] as u8);
            }
        }
        let c: u8 = bytes[i];
        if c == 32 || c == 9 || c == 10 || c == 12 || c == 13 {
            i = i + 1;
        } else if c >= 48 && c <= 57 || c == 46 {
            // a number literal: digits, optionally a dot and more digits
            let start: usize = i;
            let mut j: usize = if c == 46 {
                i
            } else {
                i + 1
            };
            while j < len && digit_at(bytes, j)
                invariant
                    input.is_ascii(),
                    bytes@ =~= Seq::new(input@.len(), |t| input@.index(t) as u8),
                    len == bytes@.len(),
                    len == input@.len(),
                    i <= j <= len,
                    c != 46 ==> j >= i + 1,
                decreases len - j,
            {
                j = j + 1;
            }
            proof {
                if lit && j < len {
                    assert(48 <= input@[j as int] as int <= 57);
                    assert(bytes@[j as int] == input@[j as int] as u8);
                    assert(false);
                }
            }
            let mut is_float: bool = false;
            if j < len && bytes[j] == 46 {
                // a dot: decimal literal only if digits follow
                let mut k2: usize = j + 1;
                while k2 < len && digit_at(bytes, k2)
                    invariant
                        input.is_ascii(),
                        len == bytes@.len(),
                        len == input@.len(),
                        j + 1 <= k2 <= len,
                    decreases len - k2,
                {
                    k2 = k2 + 1;
                }
                if k2 > j + 1 {
                    is_float = true;
                    j = k2;
                }
            }
            if j == start {
                // a lone dot
                toks.push(Token::Error);
                i = i + 1;
            } else if is_float {
                let lexeme = input.substring_ascii(start, j).to_owned();
                toks.push(Token::FNumber(lexeme));
                i = j;
            } else {
                // whole literal: accumulate with an overflow check
                let mut acc: i128 = 0;
                let mut p: usize = start;
                let mut bad: bool = false;
                while p < j
                    invariant
                        input.is_ascii(),
                        bytes@ =~= Seq::new(input@.len(), |t| input@.index(t) as u8),
                        len == bytes@.len(),
                        len == input@.len(),
                        start <= p <= j <= len,
                        0 <= acc <= i64::MAX,
                        lit == (input@.len() > 0 && all_digits(input@) && digits_value(input@)
                            <= i64::MAX),
                        lit ==> (start == 0 && j == len && !bad && acc == digits_value(
                            input@.subrange(0, p as int),
                        )),
                    decreases j - p,
                {
                    let d = bytes[p];
                    let dv: i128 = if d >= 48 && d <= 57 {
                        (d - 48) as i128
                    } else {
                        0
                    };
                    let next: i128 = acc * 10 + dv;
                    proof {
                        if lit {
                            assert(48 <= input@[p as int] as int <= 57);
                            assert(bytes@[p as int] == input@[p as int] as u8);
                            assert(dv == (input@[p as int] as int) - 48);
                            assert(input@.subrange(0, (p + 1) as int).drop_last()
                                =~= input@.subrange(0, p as int));
                            assert(input@.subrange(0, (p + 1) as int).last() == input@[p as int]);
                            assert(next == digits_value(input@.subrange(0, (p + 1) as int)));
                            lemma_digits_value_mono(input@, p as int + 1, len as int);
                            assert(input@.subrange(0, len as int) =~= input@);
                            assert(next <= i64::MAX);
                        }
                    }
                    if next > i64::MAX as i128 {
                        bad = true;
                        acc = 0;
                    } else {
                        acc = next;
                    }
                    p = p + 1;
                }
                proof {
                    if lit {
                        assert(input@.subrange(0, len as int) =~= input@);
                        assert(acc == digits_value(input@));
                    }
                }
                if bad {
                    toks.push(Token::Error);
                } else {
                    toks.push(Token::INumber(acc as i64));
                }
                i = j;
            }
        } else if c == 40 || c == 41 || c == 42 || c == 43 || c == 45 || c == 47 || c == 94 {
            toks.push(Token::Operator(c));
            i = i + 1;
        } else if c == 58 {
            // a named constant: a colon followed by letters
            let mut j: usize = i + 1;
            while j < len && word_byte_at(bytes, j)
                invariant
                    input.is_ascii(),
                    len == bytes@.len(),
                    len == input@.len(),
                    i + 1 <= j <= len,
                decreases len - j,
            {
                j = j + 1;
            }
            if j == i + 1 {
                toks.push(Token::Error);
                i = i + 1;
            } else {
                let name = input.substring_ascii(i + 1, j).to_owned();
                toks.push(Token::SymbolName(name));
                i = j;
            }
        } else if (c >= 65 && c <= 90) || (c >= 97 && c <= 122) {
            let start: usize = i;
            let mut j: usize = i + 1;
            while j < len && letter_at(bytes, j)
                invariant
                    input.is_ascii(),
                    len == bytes@.len(),
                    len == input@.len(),
                    start + 1 <= j <= len,
                decreases len - j,
            {
                j = j + 1;
            }
            let word = input.substring_ascii(start, j).to_owned();
            toks.push(Token::Word(word));
            i = j;
        } else {
            toks.push(Token::Error);
            i = i + 1;
        }
    }
    toks.push(Token::Eof);
    let ghost orig = toks@;
    proof {
        if lit {
            assert(orig =~= seq![Token::INumber(digits_value(input@) as i64), Token::Eof]);
        }
    }
    let mut rev: Vec<Token> = Vec::new();
    let mut k: usize = toks.len();
    while k > 0
        invariant
            k == toks@.len(),
            toks@ =~= orig.subrange(0, k as int),
            rev@.len() + k == orig.len(),
            forall|t: int| 0 <= t < rev@.len() ==> rev@[t] == orig[orig.len() - 1 - t],
        decreases k,
    {
        k = k - 1;
        match toks.pop() {
            Some(t) => {
                proof {
                    assert(t == orig[k as int]);
                }
                rev.push(t);
            },
            None => {
                proof {
                    assert(false);
                }
            },
        }
    }
    proof {
        if lit {
            assert(rev@.len() == 2);
            assert(rev@[0] == orig[1]);
            assert(rev@[1] == orig[0]);
            assert(rev@ =~= seq![Token::Eof, Token::INumber(digits_value(input@) as i64)]);
        }
    }
    rev
}

/// The parser state: the token under the cursor and the reversed rest.
struct Parser {
    current: Token,
    stack: Vec<Token>,
}

/// The number a whole-number token carries (zero for any other token).
pub(crate) open spec fn tok_int_value(t: Token) -> i64 {
    match t {
        Token::INumber(v) => v,
        _ => 0,
    }
}

/// The precedence a token carries when it is a binary operator.
pub(crate) open spec fn spec_binop_prec(t: Token) -> Option<u8> {
    match t {
        Token::Operator(c) => if c == 43 || c == 45 {
            Some(1u8)
        } else if c == 42 || c == 47 {
            Some(3u8)
        } else if c == 94 {
            Some(4u8)
        } else {
            None
        },
        _ => None,
    }
}

impl Parser {
    /// Starts on the first token.
    fn new(tok: Vec<Token>) -> (r: Parser)
        ensures
            tok@.len() > 0 ==> (r.current == tok@.last() && r.stack@ =~= tok@.drop_last()),
    {
        let mut tok = tok;
        match tok.pop() {
            Some(t) => Parser { current: t, stack: tok },
            None => Parser { current: Token::Eof, stack: tok },
        }
    }

    /// Advances the cursor.
    fn next(&mut self) -> (r: Result<(), ParseError>)
        ensures
            r is Ok ==> old(self).stack@.len() > 0,
            r is Ok ==> final(self).current == old(self).stack@.last(),
            r is Ok ==> final(self).stack@ =~= old(self).stack@.drop_last(),
            r is Err ==> *final(self) == *old(self) && old(self).stack@.len() == 0,
    {
        if self.stack.len() == 0 {
            return Err(ParseError::UnexpectedEnd);
        }
        match self.stack.pop() {
            Some(t) => {
                self.current = t;
                Ok(())
            },
            None => Err(ParseError::UnexpectedEnd),
        }
    }

    /// Takes the token under the cursor and advances.
    fn pop(&mut self) -> (r: Result<Token, ParseError>)
        ensures
            r is Ok ==> old(self).stack@.len() > 0,
            r matches Ok(t) ==> t == old(self).current,
            r is Ok ==> final(self).current == old(self).stack@.last(),
            r is Ok ==> final(self).stack@ =~= old(self).stack@.drop_last(),
            r is Err ==> *final(self) == *old(self) && old(self).stack@.len() == 0,
    {
        if self.stack.len() == 0 {
            return Err(ParseError::UnexpectedEnd);
        }
        match self.stack.pop() {
            Some(t) => {
                let mut out = t;
                core::mem::swap(&mut self.current, &mut out);
                Ok(out)
            },
            None => Err(ParseError::UnexpectedEnd),
        }
    }

    /// Whether the cursor sits on the given single-byte operator.
    fn at_operator(&self, c: u8) -> (r: bool)
        ensures
            r == (self.current matches Token::Operator(d) && d == c),
    {
        match &self.current {
            Token::Operator(d) => *d == c,
            _ => false,
        }
    }

    /// The precedence of the binary operator under the cursor, if one is
    /// there.
    fn binop_precedence(&self) -> (r: Option<u8>)
        ensures
            r == spec_binop_prec(self.current),
    {
        match &self.current {
            Token::Operator(c) => {
                if *c == 43 || *c == 45 {
                    Some(1)
                } else if *c == 42 || *c == 47 {
                    Some(3)
                } else if *c == 94 {
                    Some(4)
                } else {
                    None
                }
            },
            _ => None,
        }
    }
}

/// The binary operator a token denotes.
fn binary_op_of(tok: &Token) -> (r: Option<BinaryOp>) {
    match tok {
        Token::Operator(c) => {
            if *c == 43 {
                Some(BinaryOp::Plus)
            } else if *c == 45 {
                Some(BinaryOp::Minus)
            } else if *c == 42 {
                Some(BinaryOp::Mul)
            } else if *c == 47 {
                Some(BinaryOp::Div)
            } else if *c == 94 {
                Some(BinaryOp::Exp)
            } else {
                None
            }
        },
        _ => None,
    }
}

/// Builds the leaf a literal or constant token denotes.
fn make_leaf(tok: Token) -> (r: Result<ExprTree, ParseError>)
    ensures
        r matches Ok(t) ==> t.wf_tree(),
        tok matches Token::INumber(n) ==> r == Ok::<ExprTree, ParseError>(
            ExprTree::Val(Number::Int(n)),
        ),
{
    match tok {
        Token::INumber(n) => Ok(ExprTree::Val(Number::Int(n))),
        Token::FNumber(s) => Ok(ExprTree::Approx(s)),
        Token::SymbolName(name) => match symbol_of_name(&name) {
            Some(s) => Ok(ExprTree::Val(Number::Symbol(s))),
            None => Err(ParseError::UnknownConstant),
        },
        _ => Err(ParseError::UnexpectedToken),
    }
}

/// Parses a run of binary operators of at least the given precedence.
fn recognise(n: u8, p: &mut Parser) -> (r: Result<ExprTree, ParseError>)
    ensures
        final(p).stack@.len() <= old(p).stack@.len(),
        r matches Ok(t) ==> t.wf_tree() && final(p).stack@.len() < old(p).stack@.len(),
        old(p).current is INumber && old(p).stack@ =~= seq![Token::Eof] ==> r == Ok::<
            ExprTree,
            ParseError,
        >(ExprTree::Val(Number::Int(tok_int_value(old(p).current)))) && final(p).current
            == Token::Eof,
    decreases p.stack@.len(), 1int,
{
    let mut t: ExprTree = match parse_subexpression(p) {
        Ok(t) => t,
        Err(e) => {
            return Err(e);
        },
    };
    loop
        invariant
            p.stack@.len() < old(p).stack@.len(),
            t.wf_tree(),
            old(p).current is INumber && old(p).stack@ =~= seq![Token::Eof] ==> t
                == ExprTree::Val(Number::Int(tok_int_value(old(p).current))) && p.current
                == Token::Eof,
        decreases p.stack@.len(),
    {
        let prec = p.binop_precedence();
        let go: bool = match prec {
            Some(q) => q >= n,
            None => false,
        };
        if !go {
            break ;
        }
        let op_tok = match p.pop() {
            Ok(tk) => tk,
            Err(e) => {
                return Err(e);
            },
        };
        let op = match binary_op_of(&op_tok) {
            Some(o) => o,
            None => {
                return Err(ParseError::UnexpectedToken);
            },
        };
        let q: u8 = match op {
            BinaryOp::Exp => op.precedence(),
            _ => {
                let b = op.precedence();
                if b == 255 {
                    255
                } else {
                    b + 1
                }
            },
        };
        let t2 = match recognise(q, p) {
            Ok(v) => v,
            Err(e) => {
                return Err(e);
            },
        };
        t = ExprTree::make_binary_node(op, t, t2);
    }
    Ok(t)
}

/// Parses one operand: a leaf, a parenthesized expression, or a unary
/// operator applied to an operand.
fn parse_subexpression(p: &mut Parser) -> (r: Result<ExprTree, ParseError>)
    ensures
        final(p).stack@.len() <= old(p).stack@.len(),
        r matches Ok(t) ==> t.wf_tree() && final(p).stack@.len() < old(p).stack@.len(),
        old(p).current is INumber && old(p).stack@.len() > 0 ==> r == Ok::<
            ExprTree,
            ParseError,
        >(ExprTree::Val(Number::Int(tok_int_value(old(p).current)))),
        old(p).current is INumber && old(p).stack@.len() > 0 ==> final(p).current == old(
            p,
        ).stack@.last() && final(p).stack@ =~= old(p).stack@.drop_last(),
    decreases p.stack@.len(), 0int,
{
    let is_neg: bool = p.at_operator(45);
    let is_word: bool = match &p.current {
        Token::Word(_) => true,
        _ => false,
    };
    let is_open: bool = p.at_operator(40);
    if is_neg || is_word {
        let tok = match p.pop() {
            Ok(t) => t,
            Err(e) => {
                return Err(e);
            },
        };
        let op: UnaryOp = match tok {
            Token::Operator(_) => UnaryOp::Neg,
            Token::Word(w) => UnaryOp::Word(w),
            _ => {
                return Err(ParseError::UnexpectedToken);
            },
        };
        let sub = match recognise(2, p) {
            Ok(t) => t,
            Err(e) => {
                return Err(e);
            },
        };
        Ok(ExprTree::make_unary_node(op, sub))
    } else if is_open {
        match p.next() {
            Ok(_) => {},
            Err(e) => {
                return Err(e);
            },
        }
        let t = match recognise(0, p) {
            Ok(t) => t,
            Err(e) => {
                return Err(e);
            },
        };
        if p.at_operator(41) {
            let advanced = p.next();
            match advanced {
                Ok(_) => Ok(t),
                Err(_) => Ok(t),
            }
        } else {
            Err(ParseError::UnexpectedToken)
        }
    } else {
        let leaf_ok: bool = match &p.current {
            Token::INumber(_) => true,
            Token::FNumber(_) => true,
            Token::SymbolName(_) => true,
            _ => false,
        };
        if leaf_ok {
            let tok = match p.pop() {
                Ok(t) => t,
                Err(e) => {
                    return Err(e);
                },
            };
            make_leaf(tok)
        } else {
            Err(ParseError::UnexpectedToken)
        }
    }
}

/// Parses a whole input line into an expression tree.  The input must
/// be ASCII; every exact leaf of the result is well formed, and an
/// input that is one whole-number literal parses to exactly that
/// number's leaf.
pub fn parse_string(input: &str) -> (r: Result<ExprTree, ParseError>)
    ensures
        r matches Ok(t) ==> t.wf_tree(),
        (input@.len() > 0 && all_digits(input@) && digits_value(input@) <= i64::MAX) ==> r == Ok::<
            ExprTree,
            ParseError,
        >(ExprTree::Val(Number::Int(digits_value(input@) as i64))),
{
    proof {
        if input@.len() > 0 && all_digits(input@) {
            assert(vstd::utf8::is_ascii_chars(input@));
        }
    }
    if !input.is_ascii() {
        return Err(ParseError::BadToken);
    }
    let toks = tokenise(input);
    let mut parser = Parser::new(toks);
    let t = match recognise(0, &mut parser) {
        Ok(t) => t,
        Err(e) => {
            return Err(e);
        },
    };
    let done: bool = match &parser.current {
        Token::Eof => true,
        _ => false,
    };
    if done {
        Ok(t)
    } else {
        Err(ParseError::TrailingInput)
    }
}

} // verus!
