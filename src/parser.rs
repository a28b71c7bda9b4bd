//! Building an expression tree from postfix text.
use vstd::prelude::*;
use crate::expression::Expression;
use crate::lexer::{
    Lexer, Token, tokens, tokens_from, is_digit, lemma_next_token_advances,
    lemma_tokens_space_insert, lemma_next_token_numeral, symbol_token,
};
use crate::int32::{wrap_i32, truncated_quotient, lemma_wrap_in_range};
use crate::text::decimal_digits;
use crate::text::push_char;
use vstd::string::StringExecFns;

verus! {

/// Why a line is not a well-formed postfix expression.
#[derive(Debug, Clone, Copy, PartialEq, Eq, Structural)]
pub enum ParseError {
    /// A character that starts no token.
    UnexpectedCharacter(char),
    /// An operator found fewer than two operands, or the input did not
    /// reduce to exactly one expression.
    InvalidFormat,
}

/// Message for input that does not reduce to one expression.
pub const FORMAT_ERROR: &'static str = "Input has an invalid format.";

impl ParseError {
    /// The message that describes the error.
    pub open spec fn text(self) -> Seq<char> {
        match self {
            ParseError::UnexpectedCharacter(c) => "Unexpected character '"@ + seq![c]
                + "' found."@,
            ParseError::InvalidFormat => FORMAT_ERROR@,
        }
    }

    /// The message that describes the error, e.g.
    /// `Unexpected character '^' found.`
    pub fn message(&self) -> (r: String)
        ensures
            r@ == self.text(),
    {
        match self {
            ParseError::UnexpectedCharacter(c) => {
                let mut m = String::from_str("Unexpected character '");
                push_char(&mut m, *c);
                m.append("' found.");
                m
            },
            ParseError::InvalidFormat => String::from_str(FORMAT_ERROR),
        }
    }
}

pub open spec fn is_operator(t: Token) -> bool {
    t is Plus || t is Minus || t is Asterisk || t is Slash
}

/// The node that operator `op` makes of its two operands.
pub open spec fn combine(op: Token, left: Expression, right: Expression) -> Expression {
    match op {
        Token::Plus => Expression::Addition(Box::new(left), Box::new(right)),
        Token::Minus => Expression::Subtraction(Box::new(left), Box::new(right)),
        Token::Asterisk => Expression::Multiplication(Box::new(left), Box::new(right)),
        _ => Expression::Division(Box::new(left), Box::new(right)),
    }
}

/// Postfix reduction of `toks` against the operand stack `stack` (top last):
/// a number pushes a literal, an operator replaces the top two operands with
/// its node, a space does nothing, and the first unknown character fails.
/// At the end exactly one operand must remain.
pub open spec fn reduce(toks: Seq<Token>, stack: Seq<Expression>) -> Result<
    Expression,
    ParseError,
>
    decreases toks.len(),
{
    if toks.len() == 0 {
        if stack.len() == 1 {
            Ok(stack[0])
        } else {
            Err(ParseError::InvalidFormat)
        }
    } else {
        let rest = toks.drop_first();
        match toks[0] {
            Token::Unknown(c) => Err(ParseError::UnexpectedCharacter(c)),
            Token::Space => reduce(rest, stack),
            Token::Number(n) => reduce(rest, stack.push(Expression::Literal(n))),
            op => {
                let n = stack.len();
                if n < 2 {
                    Err(ParseError::InvalidFormat)
                } else {
                    reduce(rest, stack.subrange(0, n - 2).push(combine(op, stack[n - 2], stack[n - 1])))
                }
            },
        }
    }
}

/// What parsing the characters `s` yields.
pub open spec fn parse_result(s: Seq<char>) -> Result<Expression, ParseError> {
    reduce(tokens(s), seq![])
}

/// A space token anywhere in the token sequence has no effect on reduction.
pub proof fn lemma_reduce_ignores_space(toks: Seq<Token>, k: int, stack: Seq<Expression>)
    requires
        0 <= k <= toks.len(),
    ensures
        reduce(toks.insert(k, Token::Space), stack) == reduce(toks, stack),
    decreases k,
{
    let with = toks.insert(k, Token::Space);
    toks.insert_ensures(k, Token::Space);
    if k == 0 {
        assert(with.drop_first() =~= toks);
    } else {
        assert(with[0] == toks[0]);
        assert(with.drop_first() =~= toks.drop_first().insert(k - 1, Token::Space));
        let n = stack.len();
        match toks[0] {
            Token::Unknown(_) => {},
            Token::Space => lemma_reduce_ignores_space(toks.drop_first(), k - 1, stack),
            Token::Number(v) => lemma_reduce_ignores_space(
                toks.drop_first(),
                k - 1,
                stack.push(Expression::Literal(v)),
            ),
            op => {
                if n >= 2 {
                    lemma_reduce_ignores_space(
                        toks.drop_first(),
                        k - 1,
                        stack.subrange(0, n - 2).push(combine(op, stack[n - 2], stack[n - 1])),
                    );
                }
            },
        }
    }
}

/// Spaces only separate tokens: inserting a space at any place that is not
/// between two digits (so anywhere next to an existing space, or at either
/// end) leaves the result of parsing unchanged, error or tree.
pub proof fn lemma_space_insertion(s: Seq<char>, i: int)
    requires
        0 <= i <= s.len(),
        !(0 < i < s.len() && is_digit(s[i - 1]) && is_digit(s[i])),
    ensures
        parse_result(s.insert(i, ' ')) == parse_result(s),
{
    let k = lemma_tokens_space_insert(s, i, 0);
    lemma_reduce_ignores_space(tokens(s), k, seq![]);
}

/// The tokens other than spaces, in order.
pub open spec fn without_spaces(toks: Seq<Token>) -> Seq<Token>
    decreases toks.len(),
{
    if toks.len() == 0 {
        toks
    } else if toks[0] is Space {
        without_spaces(toks.drop_first())
    } else {
        seq![toks[0]] + without_spaces(toks.drop_first())
    }
}

/// Reduction skips every space token.
pub proof fn lemma_reduce_without_spaces(toks: Seq<Token>, stack: Seq<Expression>)
    ensures
        reduce(toks, stack) == reduce(without_spaces(toks), stack),
    decreases toks.len(),
{
    if toks.len() > 0 {
        let rest = toks.drop_first();
        let n = stack.len();
        match toks[0] {
            Token::Unknown(_) => {},
            Token::Space => lemma_reduce_without_spaces(rest, stack),
            Token::Number(v) => lemma_reduce_without_spaces(
                rest,
                stack.push(Expression::Literal(v)),
            ),
            op => {
                if n >= 2 {
                    lemma_reduce_without_spaces(
                        rest,
                        stack.subrange(0, n - 2).push(combine(op, stack[n - 2], stack[n - 1])),
                    );
                }
            },
        }
        if !(toks[0] is Space) {
            let ws = without_spaces(toks);
            assert(ws[0] == toks[0]);
            assert(ws.drop_first() =~= without_spaces(rest));
        }
    }
}

/// Spaces only separate tokens: two inputs whose tokens other than spaces
/// agree parse alike, however many spaces each has and wherever they stand.
pub proof fn lemma_spaces_only_separate(s: Seq<char>, t: Seq<char>)
    requires
        without_spaces(tokens(s)) == without_spaces(tokens(t)),
    ensures
        parse_result(s) == parse_result(t),
{
    lemma_reduce_without_spaces(tokens(s), seq![]);
    lemma_reduce_without_spaces(tokens(t), seq![]);
}

/// `s` with a run of `n` spaces inserted at index `i`.
pub open spec fn insert_spaces(s: Seq<char>, i: int, n: nat) -> Seq<char> {
    s.subrange(0, i) + Seq::new(n, |k: int| ' ') + s.subrange(i, s.len() as int)
}

/// Inserting any number of consecutive spaces at a place that is not
/// between two digits leaves the result of parsing unchanged.
pub proof fn lemma_space_run_insertion(s: Seq<char>, i: int, n: nat)
    requires
        0 <= i <= s.len(),
        !(0 < i < s.len() && is_digit(s[i - 1]) && is_digit(s[i])),
    ensures
        parse_result(insert_spaces(s, i, n)) == parse_result(s),
    decreases n,
{
    if n == 0 {
        assert(insert_spaces(s, i, 0) =~= s);
    } else {
        let shorter = insert_spaces(s, i, (n - 1) as nat);
        lemma_space_run_insertion(s, i, (n - 1) as nat);
        assert(insert_spaces(s, i, n) =~= shorter.insert(i, ' '));
        if n >= 2 {
            assert(shorter[i] == ' ');
        } else {
            assert(shorter =~= s);
        }
        lemma_space_insertion(shorter, i);
    }
}

/// The text `a b op`: two numerals and an operator, single spaces between.
pub open spec fn binary_postfix(a: nat, b: nat, op: char) -> Seq<char> {
    decimal_digits(a) + seq![' '] + decimal_digits(b) + seq![' ', op]
}

/// Parsing `s` succeeds and the tree it yields evaluates to `v`.
pub open spec fn evaluates_to(s: Seq<char>, v: int) -> bool {
    parse_result(s) matches Ok(e) && e.value() matches Some(x) && x == v
}

/// `a b op` parses into the node of `op` over the literals `a` and `b`.
proof fn lemma_binary_postfix_tree(a: nat, b: nat, op: char)
    requires
        a <= i32::MAX,
        b <= i32::MAX,
        op == '+' || op == '-' || op == '*' || op == '/',
    ensures
        parse_result(binary_postfix(a, b, op)) == Ok::<Expression, ParseError>(
            combine(
                symbol_token(op),
                Expression::Literal(a as i32),
                Expression::Literal(b as i32),
            ),
        ),
{
    let s = binary_postfix(a, b, op);
    let da = decimal_digits(a);
    let db = decimal_digits(b);
    let la = da.len() as int;
    let lb = db.len() as int;
    let end = la + lb + 3;
    lemma_wrap_in_range(a as int);
    lemma_wrap_in_range(b as int);
    assert(s.len() == end);
    assert(s.subrange(0, la) =~= da);
    assert(s[la] == ' ');
    lemma_next_token_numeral(s, 0, a);
    assert(s.subrange(la + 1, la + 1 + lb) =~= db);
    assert(s[la + 1 + lb] == ' ');
    lemma_next_token_numeral(s, la + 1, b);
    assert(s[la + lb + 2] == op);
    let na = Token::Number(a as i32);
    let nb = Token::Number(b as i32);
    let ot = symbol_token(op);
    assert(tokens_from(s, end) =~= Seq::<Token>::empty());
    assert(tokens_from(s, la + lb + 2) =~= seq![ot]);
    assert(tokens_from(s, la + lb + 1) =~= seq![Token::Space, ot]);
    assert(tokens_from(s, la + 1) =~= seq![nb, Token::Space, ot]);
    assert(tokens_from(s, la) =~= seq![Token::Space, nb, Token::Space, ot]);
    assert(tokens(s) =~= seq![na, Token::Space, nb, Token::Space, ot]);
    let la_e = Expression::Literal(a as i32);
    let lb_e = Expression::Literal(b as i32);
    let node = combine(ot, la_e, lb_e);
    let toks = tokens(s);
    assert(reduce(toks.subrange(5, 5), seq![node]) == Ok::<Expression, ParseError>(node));
    assert(seq![la_e, lb_e].subrange(0, 0).push(node) =~= seq![node]);
    assert(toks.subrange(4, 5).drop_first() =~= toks.subrange(5, 5));
    assert(reduce(toks.subrange(4, 5), seq![la_e, lb_e]) == Ok::<Expression, ParseError>(node));
    assert(toks.subrange(3, 5).drop_first() =~= toks.subrange(4, 5));
    assert(reduce(toks.subrange(3, 5), seq![la_e, lb_e]) == Ok::<Expression, ParseError>(node));
    assert(toks.subrange(2, 5).drop_first() =~= toks.subrange(3, 5));
    assert(seq![la_e].push(lb_e) =~= seq![la_e, lb_e]);
    assert(reduce(toks.subrange(2, 5), seq![la_e]) == Ok::<Expression, ParseError>(node));
    assert(toks.subrange(1, 5).drop_first() =~= toks.subrange(2, 5));
    assert(reduce(toks.subrange(1, 5), seq![la_e]) == Ok::<Expression, ParseError>(node));
    assert(toks.drop_first() =~= toks.subrange(1, 5));
    assert(Seq::<Expression>::empty().push(la_e) =~= seq![la_e]);
}

/// For nonnegative `a` and `b` within `i32`: parsing `a b +`, `a b -`,
/// `a b *` and, when `b` is not zero, `a b /` succeeds, and the tree
/// evaluates to the sum, difference, product and truncated quotient.
/// Sum and product are exact wherever they fit in `i32`; beyond that they
/// wrap.
pub proof fn lemma_binary_arithmetic(a: nat, b: nat)
    requires
        a <= i32::MAX,
        b <= i32::MAX,
    ensures
        evaluates_to(binary_postfix(a, b, '+'), wrap_i32((a + b) as int) as int),
        a + b <= i32::MAX ==> evaluates_to(binary_postfix(a, b, '+'), (a + b) as int),
        evaluates_to(binary_postfix(a, b, '-'), a - b),
        evaluates_to(binary_postfix(a, b, '*'), wrap_i32((a * b) as int) as int),
        a * b <= i32::MAX ==> evaluates_to(binary_postfix(a, b, '*'), (a * b) as int),
        b != 0 ==> evaluates_to(binary_postfix(a, b, '/'), (a / b) as int),
{
    let la_e = Expression::Literal(a as i32);
    let lb_e = Expression::Literal(b as i32);
    assert(la_e.value() == Some(a as i32));
    assert(lb_e.value() == Some(b as i32));
    lemma_binary_postfix_tree(a, b, '+');
    lemma_binary_postfix_tree(a, b, '-');
    lemma_binary_postfix_tree(a, b, '*');
    lemma_binary_postfix_tree(a, b, '/');
    lemma_wrap_in_range(a - b);
    if a + b <= i32::MAX {
        lemma_wrap_in_range((a + b) as int);
    }
    if a * b <= i32::MAX {
        lemma_wrap_in_range((a * b) as int);
    }
    if b != 0 {
        vstd::arithmetic::div_mod::lemma_div_nonincreasing(a as int, b as int);
        vstd::arithmetic::div_mod::lemma_div_pos_is_pos(a as int, b as int);
        assert(truncated_quotient(a as int, b as int) == a / b);
        lemma_wrap_in_range((a / b) as int);
    }
}

fn build(op: Token, left: Expression, right: Expression) -> (r: Expression)
    requires
        is_operator(op),
    ensures
        r == combine(op, left, right),
{
    match op {
        Token::Plus => Expression::Addition(Box::new(left), Box::new(right)),
        Token::Minus => Expression::Subtraction(Box::new(left), Box::new(right)),
        Token::Asterisk => Expression::Multiplication(Box::new(left), Box::new(right)),
        _ => Expression::Division(Box::new(left), Box::new(right)),
    }
}

/// Parses a postfix expression (surrounding whitespace already removed)
/// into its tree.
pub fn parse(input: Vec<char>) -> (r: Result<Expression, ParseError>)
    ensures
        r == parse_result(input@),
{
    let ghost s = input@;
    let mut lexer = Lexer::new(input);
    let mut stack: Vec<Expression> = Vec::new();
    loop
        invariant
            lexer.wf(),
            lexer.input() == s,
            s == input@,
            0 <= lexer.position() <= s.len(),
            reduce(tokens_from(s, lexer.position()), stack@) == parse_result(s),
        ensures
            lexer.position() == s.len(),
            reduce(tokens_from(s, lexer.position()), stack@) == parse_result(s),
        decreases s.len() - lexer.position(),
    {
        let ghost p = lexer.position();
        let token = match lexer.read_token() {
            Some(t) => t,
            None => {
                break;
            },
        };
        proof {
            lemma_next_token_advances(s, p);
            assert(tokens_from(s, p).len() > 0);
            assert(tokens_from(s, p)[0] == token);
            assert(tokens_from(s, p).drop_first() =~= tokens_from(s, lexer.position()));
        }
        let expression = match token {
            Token::Unknown(c) => {
                return Err(ParseError::UnexpectedCharacter(c));
            },
            Token::Space => {
                continue;
            },
            Token::Number(n) => Expression::Literal(n),
            _ => {
                let ghost before = stack@;
                let right = match stack.pop() {
                    Some(e) => e,
                    None => {
                        return Err(ParseError::InvalidFormat);
                    },
                };
                let left = match stack.pop() {
                    Some(e) => e,
                    None => {
                        return Err(ParseError::InvalidFormat);
                    },
                };
                assert(stack@ =~= before.subrange(0, before.len() - 2));
                build(token, left, right)
            },
        };
        stack.push(expression);
    }
    assert(tokens_from(s, lexer.position()) =~= Seq::<Token>::empty());
    if stack.len() == 1 {
        match stack.pop() {
            Some(e) => Ok(e),
            None => Err(ParseError::InvalidFormat),
        }
    } else {
        Err(ParseError::InvalidFormat)
    }
}

} // verus!
