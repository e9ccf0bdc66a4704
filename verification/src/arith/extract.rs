//! Reading an arithmetic expression off a prompt.
//!
//! An explicit expression is read symbol by symbol, so it is exact. A question
//! in words is rewritten by a model first; of what the model emits, only the
//! expression is read and never the sum.

use vstd::prelude::*;
use vstd::string::*;

use crate::arith::alu;
use crate::arith::alu::{BigInt, Expr, Op};
use crate::text;

verus! {

/// One token of the prompt. `Other` keeps unrelated numbers apart.
pub enum Tok {
    Num(Vec<char>),
    Op(Op),
    Other,
}

/// One token, as it is specified. A number is its digits without separators.
pub enum Token {
    Num(Seq<char>),
    Op(Op),
    Other,
}

impl View for Tok {
    type V = Token;

    open spec fn view(&self) -> Token {
        match self {
            Tok::Num(ds) => Token::Num(ds@),
            Tok::Op(op) => Token::Op(*op),
            Tok::Other => Token::Other,
        }
    }
}

/// The tokens of a sequence.
pub open spec fn tokens_of(toks: Seq<Tok>) -> Seq<Token> {
    Seq::new(toks.len(), |i: int| toks[i]@)
}

/// Whether there is a digit at place `i`.
pub open spec fn digit_at(cs: Seq<char>, i: int) -> bool {
    0 <= i < cs.len() && text::ascii_digit(cs[i])
}

/// Whether place `i` is outside the text or holds white space.
pub open spec fn blank_at(cs: Seq<char>, i: int) -> bool {
    !(0 <= i < cs.len()) || text::white_space(cs[i])
}

/// Whether place `i` belongs to a number that started earlier: a digit, or a
/// separator that a digit follows.
pub open spec fn in_number(cs: Seq<char>, i: int) -> bool {
    digit_at(cs, i) || (0 <= i < cs.len() && (cs[i] == ',' || cs[i] == '_') && digit_at(cs, i + 1))
}

/// Where the number that covers the places up to `i` ends.
pub open spec fn number_end(cs: Seq<char>, i: int) -> int
    decreases cs.len() - i,
{
    if in_number(cs, i) {
        number_end(cs, i + 1)
    } else {
        i
    }
}

/// The digits of a text, in order.
pub open spec fn digits_of(cs: Seq<char>) -> Seq<char> {
    cs.filter(|c: char| text::ascii_digit(c))
}

/// The token of a character that is neither a digit nor white space. A hyphen
/// and the letter x count as operators only with blanks on both sides.
pub open spec fn symbol_at(cs: Seq<char>, i: int) -> Token {
    let alone = blank_at(cs, i - 1) && blank_at(cs, i + 1);
    if cs[i] == '+' {
        Token::Op(Op::Add)
    } else if cs[i] == '*' || cs[i] == '\u{d7}' {
        Token::Op(Op::Mul)
    } else if cs[i] == '\u{2212}' || (cs[i] == '-' && alone) {
        Token::Op(Op::Sub)
    } else if (cs[i] == 'x' || cs[i] == 'X') && alone {
        Token::Op(Op::Mul)
    } else {
        Token::Other
    }
}

/// The tokens from place `i` on.
pub open spec fn tokens_from(cs: Seq<char>, i: int) -> Seq<Token>
    decreases cs.len() - i,
{
    if !(0 <= i < cs.len()) {
        Seq::empty()
    } else if digit_at(cs, i) {
        proof {
            lemma_number_end(cs, i);
        }
        let end = number_end(cs, i);
        seq![Token::Num(digits_of(cs.subrange(i, end)))] + tokens_from(cs, end)
    } else if text::white_space(cs[i]) {
        tokens_from(cs, i + 1)
    } else {
        seq![symbol_at(cs, i)] + tokens_from(cs, i + 1)
    }
}

/// The tokens of a text.
pub open spec fn tokens(cs: Seq<char>) -> Seq<Token> {
    tokens_from(cs, 0)
}

pub proof fn lemma_number_end(cs: Seq<char>, i: int)
    requires
        0 <= i <= cs.len(),
    ensures
        i <= number_end(cs, i) <= cs.len(),
        in_number(cs, i) ==> i < number_end(cs, i),
    decreases cs.len() - i,
{
    if in_number(cs, i) {
        lemma_number_end(cs, i + 1);
    }
}

/// Whether an operator and a number follow the number at place `i`.
pub open spec fn continues(toks: Seq<Token>, i: int) -> bool {
    &&& 0 <= i
    &&& i + 2 < toks.len()
    &&& toks[i] is Num
    &&& toks[i + 1] is Op
    &&& toks[i + 2] is Num
}

/// The number of operators in the chain `N op N op N ...` that starts at place
/// `i`.
pub open spec fn chain_ops(toks: Seq<Token>, i: int) -> nat
    decreases toks.len() - i,
{
    if continues(toks, i) {
        1 + chain_ops(toks, i + 2)
    } else {
        0
    }
}

/// Whether the longest chain starts at place `i`: no chain is longer, and all
/// chains before it are shorter.
pub open spec fn longest_at(toks: Seq<Token>, i: int) -> bool {
    &&& chain_ops(toks, i) > 0
    &&& forall|k: int| k < i ==> #[trigger] chain_ops(toks, k) < chain_ops(toks, i)
    &&& forall|k: int| k > i ==> #[trigger] chain_ops(toks, k) <= chain_ops(toks, i)
}

/// The operands of the chain at place `i`.
pub open spec fn chain_operands(toks: Seq<Token>, i: int) -> Seq<int> {
    Seq::new(chain_ops(toks, i) + 1, |k: int| alu::spelled(toks[i + 2 * k]->Num_0) as int)
}

/// The operators of the chain at place `i`.
pub open spec fn chain_operators(toks: Seq<Token>, i: int) -> Seq<Op> {
    Seq::new(chain_ops(toks, i), |k: int| toks[i + 2 * k + 1]->Op_0)
}

/// Whether an expression is what a text holds: its longest chain, or nothing
/// where it has no chain.
pub open spec fn expresses(cs: Seq<char>, e: Option<Expr>) -> bool {
    let toks = tokens(cs);
    match e {
        Some(e) => e.wf() && exists|i: int| #[trigger]
            longest_at(toks, i) && alu::values(e.operands@) == chain_operands(toks, i) && e.ops@
                == chain_operators(toks, i),
        None => forall|i: int| #[trigger] chain_ops(toks, i) == 0,
    }
}

proof fn lemma_filter_push(cs: Seq<char>, c: char)
    ensures
        digits_of(cs.push(c)) == if text::ascii_digit(c) {
            digits_of(cs).push(c)
        } else {
            digits_of(cs)
        },
{
    reveal(Seq::filter);
    assert(cs.push(c).drop_last() =~= cs);
}

/// Splits a text into tokens.
pub fn lex(chars: &Vec<char>) -> (toks: Vec<Tok>)
    ensures
        tokens_of(toks@) == tokens(chars@),
        forall|i: int|
            0 <= i < toks@.len() ==> (#[trigger] toks@[i] matches Tok::Num(ds)
                ==> alu::spells_number(ds@)),
{
    let ghost cs: Seq<char> = chars@;
    let mut toks: Vec<Tok> = Vec::new();
    let mut i: usize = 0;
    assert(tokens_of(toks@) + tokens_from(cs, 0) =~= tokens(cs));
    while i < chars.len()
        invariant
            chars@ == cs,
            i <= chars@.len(),
            tokens_of(toks@) + tokens_from(cs, i as int) == tokens(cs),
            forall|k: int|
                0 <= k < toks@.len() ==> (#[trigger] toks@[k] matches Tok::Num(ds)
                    ==> alu::spells_number(ds@)),
        decreases chars@.len() - i,
    {
        let c: char = chars[i];
        let ghost before: Seq<Tok> = toks@;
        let ghost start: int = i as int;
        if text::is_digit(c) {
            let (num, end): (Vec<char>, usize) = lex_number(chars, i);
            toks.push(Tok::Num(num));
            i = end;
        } else if text::is_white_space(c) {
            i += 1;
        } else {
            let tok: Tok = lex_symbol(chars, i);
            toks.push(tok);
            i += 1;
        }
        proof {
            if before.len() < toks@.len() {
                assert(tokens_of(toks@) =~= tokens_of(before).push(toks@.last()@));
                assert(tokens_of(toks@) + tokens_from(cs, i as int) =~= tokens_of(before) + (
                seq![toks@.last()@] + tokens_from(cs, i as int)));
            }
        }
    }
    assert(tokens_of(toks@) + tokens_from(cs, i as int) =~= tokens_of(toks@));
    toks
}

/// Reads the number at place `start`, and says where it ends.
fn lex_number(chars: &Vec<char>, start: usize) -> (r: (Vec<char>, usize))
    requires
        digit_at(chars@, start as int),
    ensures
        r.1 == number_end(chars@, start as int),
        start < r.1 <= chars@.len(),
        r.0@ == digits_of(chars@.subrange(start as int, r.1 as int)),
        alu::spells_number(r.0@),
{
    let mut num: Vec<char> = Vec::new();
    let mut i: usize = start;
    proof {
        reveal(Seq::filter);
        assert(chars@.subrange(start as int, start as int) =~= Seq::<char>::empty());
    }
    while i < chars.len() && (text::is_digit(chars[i]) || ((chars[i] == ',' || chars[i] == '_') && i
        + 1 < chars.len() && text::is_digit(chars[i + 1])))
        invariant
            start <= i <= chars@.len(),
            digit_at(chars@, start as int),
            number_end(chars@, start as int) == number_end(chars@, i as int),
            num@ == digits_of(chars@.subrange(start as int, i as int)),
            forall|k: int| 0 <= k < num@.len() ==> text::ascii_digit(#[trigger] num@[k]),
            i > start ==> num@.len() > 0,
        decreases chars@.len() - i,
    {
        proof {
            lemma_filter_push(chars@.subrange(start as int, i as int), chars@[i as int]);
            assert(chars@.subrange(start as int, i + 1) =~= chars@.subrange(
                start as int,
                i as int,
            ).push(chars@[i as int]));
        }
        if text::is_digit(chars[i]) {
            num.push(chars[i]);
        }
        i += 1;
    }
    (num, i)
}

/// Reads the symbol at place `i`.
fn lex_symbol(chars: &Vec<char>, i: usize) -> (tok: Tok)
    requires
        i < chars@.len(),
    ensures
        tok@ == symbol_at(chars@, i as int),
        tok !is Num,
{
    let c: char = chars[i];
    let ws_before: bool = i == 0 || text::is_white_space(chars[i - 1]);
    let ws_after: bool = i == chars.len() - 1 || text::is_white_space(chars[i + 1]);
    if c == '+' {
        Tok::Op(Op::Add)
    } else if c == '*' || c == '\u{d7}' {
        Tok::Op(Op::Mul)
    } else if c == '\u{2212}' || (c == '-' && ws_before && ws_after) {
        Tok::Op(Op::Sub)
    } else if (c == 'x' || c == 'X') && ws_before && ws_after {
        Tok::Op(Op::Mul)
    } else {
        Tok::Other
    }
}

/// Every later place inside a chain starts a shorter one.
proof fn lemma_inside_chain(toks: Seq<Token>, i: int, k: int)
    requires
        i < k <= i + 2 * chain_ops(toks, i),
    ensures
        chain_ops(toks, k) < chain_ops(toks, i),
    decreases toks.len() - i,
{
    if k > i + 2 {
        lemma_inside_chain(toks, i + 2, k);
    }
}

/// Numbers and operators alternate along a chain.
proof fn lemma_chain_tokens(toks: Seq<Token>, i: int, k: int)
    requires
        0 <= i < toks.len(),
        toks[i] is Num,
        0 <= k <= chain_ops(toks, i),
    ensures
        i + 2 * k < toks.len(),
        toks[i + 2 * k] is Num,
        k < chain_ops(toks, i) ==> i + 2 * k + 1 < toks.len() && toks[i + 2 * k + 1] is Op,
    decreases k,
{
    if k > 0 {
        lemma_chain_tokens(toks, i + 2, k - 1);
    }
}

/// Counts the operators of the chain that starts at place `i`.
fn count_chain(toks: &Vec<Tok>, i: usize) -> (ops: usize)
    requires
        i < toks@.len(),
        toks@[i as int] is Num,
    ensures
        ops == chain_ops(tokens_of(toks@), i as int),
        i + 2 * ops < toks@.len(),
{
    let ghost ts: Seq<Token> = tokens_of(toks@);
    let mut j: usize = i;
    let mut ops: usize = 0;
    while toks.len() - j > 2 && matches!(toks[j + 1], Tok::Op(_)) && matches!(
        toks[j + 2],
        Tok::Num(_)
    )
        invariant
            ts == tokens_of(toks@),
            j < toks@.len(),
            j == i + 2 * ops,
            toks@[j as int] is Num,
            chain_ops(ts, i as int) == ops + chain_ops(ts, j as int),
        decreases toks@.len() - j,
    {
        assert(ts[j as int] is Num && ts[j + 1] is Op && ts[j + 2] is Num);
        ops += 1;
        j += 2;
    }
    assert(!continues(ts, j as int)) by {
        if continues(ts, j as int) {
            assert(toks@[j + 1]@ is Op && toks@[j + 2]@ is Num);
        }
    }
    ops
}

/// Finds the start of the longest chain and counts its operators.
fn longest_chain(toks: &Vec<Tok>) -> (best: Option<(usize, usize)>)
    ensures
        best matches Some((start, ops)) ==> {
            &&& longest_at(tokens_of(toks@), start as int)
            &&& ops == chain_ops(tokens_of(toks@), start as int)
        },
        best is None ==> forall|i: int| #[trigger] chain_ops(tokens_of(toks@), i) == 0,
{
    let ghost ts: Seq<Token> = tokens_of(toks@);
    let mut best: Option<(usize, usize)> = None;
    let mut i: usize = 0;
    while i < toks.len()
        invariant
            ts == tokens_of(toks@),
            i <= toks@.len(),
            best matches Some((start, ops)) ==> {
                &&& start < i
                &&& 0 < ops == chain_ops(ts, start as int)
                &&& forall|k: int| k < start ==> #[trigger] chain_ops(ts, k) < ops
                &&& forall|k: int| start < k < i ==> #[trigger] chain_ops(ts, k) <= ops
            },
            best is None ==> forall|k: int| k < i ==> #[trigger] chain_ops(ts, k) == 0,
        decreases toks@.len() - i,
    {
        if matches!(toks[i], Tok::Num(_)) {
            let ops: usize = count_chain(toks, i);
            proof {
                assert forall|k: int| i < k < i + 2 * ops + 1 implies #[trigger] chain_ops(ts, k)
                    < ops by {
                    lemma_inside_chain(ts, i as int, k);
                }
            }
            let better: bool = match best {
                Some((_, most)) => ops > most,
                None => ops > 0,
            };
            if better {
                best = Some((i, ops));
            }
            i = i + 2 * ops + 1;
        } else {
            assert(toks@[i as int]@ !is Num);
            i += 1;
        }
    }
    best
}

/// Finds the expression of a text that is given by its characters.
fn find_in(chars: &Vec<char>) -> (e: Option<Expr>)
    ensures
        expresses(chars@, e),
{
    let toks: Vec<Tok> = lex(chars);
    let ghost ts: Seq<Token> = tokens_of(toks@);
    match longest_chain(&toks) {
        None => None,
        Some((start, op_count)) => {
            let mut operands: Vec<BigInt> = Vec::new();
            let mut ops: Vec<Op> = Vec::new();
            let mut k: usize = 0;
            let count: usize = toks.len();
            proof {
                lemma_chain_tokens(ts, start as int, op_count as int);
            }
            while k <= op_count
                invariant
                    ts == tokens_of(toks@),
                    count == toks@.len(),
                    start < toks@.len(),
                    toks@[start as int] is Num,
                    op_count == chain_ops(ts, start as int),
                    start + 2 * op_count < toks@.len(),
                    k <= op_count + 1,
                    operands@.len() == k,
                    ops@.len() == if k <= op_count {
                        k as int
                    } else {
                        op_count as int
                    },
                    forall|i: int|
                        0 <= i < toks@.len() ==> (#[trigger] toks@[i] matches Tok::Num(ds)
                            ==> alu::spells_number(ds@)),
                    forall|m: int|
                        0 <= m < operands@.len() ==> (#[trigger] operands@[m])@ == alu::spelled(
                            ts[start + 2 * m]->Num_0,
                        ),
                    forall|m: int|
                        0 <= m < ops@.len() ==> (#[trigger] ops@[m]) == ts[start + 2 * m
                            + 1]->Op_0,
                decreases op_count + 1 - k,
            {
                proof {
                    lemma_chain_tokens(ts, start as int, k as int);
                    assert(ts[start + 2 * k] is Num);
                    assert(k < op_count ==> start + 2 * k + 1 < count);
                }
                if let Tok::Num(ds) = &toks[start + 2 * k] {
                    match BigInt::parse(ds.as_slice()) {
                        Some(n) => operands.push(n),
                        None => {
                            return None;
                        },
                    }
                }
                if k < op_count {
                    if let Tok::Op(op) = &toks[start + 2 * k + 1] {
                        ops.push(*op);
                    }
                }
                k += 1;
            }
            let e: Expr = Expr { operands, ops };
            proof {
                assert(alu::values(e.operands@) =~= chain_operands(ts, start as int));
                assert(e.ops@ =~= chain_operators(ts, start as int));
            }
            Some(e)
        },
    }
}

/// Finds the longest explicit chain `N op N (op N)*` of a text, and of several
/// equally long ones the first.
///
/// `+`, `*`, `×` and `−` count anywhere between numbers. A hyphen counts only
/// with blanks on both sides, so that dates, ranges and phone numbers are left
/// alone; `x` likewise. `/` never counts. A number may have `,` or `_` between
/// its digits.
pub fn find_expression(text: &str) -> (e: Option<Expr>)
    ensures
        expresses(text@, e),
{
    find_in(&text::chars_of(text))
}

/// The first part of the prompt that asks a model for a bare expression.
pub open spec fn prompt_opening() -> Seq<char> {
    "Rewrite each question as a bare arithmetic expression. Do not solve it.\nQ: If you have 7 apples and pick 5 more, how many apples do you have?\nE: 7 + 5\nQ: A crate holds 240 bottles. How many bottles are in 3 crates?\nE: 240 * 3\nQ: "@
}

/// The prompt that asks a model to rewrite a question as a bare expression,
/// after two examples.
pub fn rewrite_prompt(question: &str) -> (p: String)
    ensures
        p@ == prompt_opening() + question@ + "\nE:"@,
{
    let mut p: String =
        "Rewrite each question as a bare arithmetic expression. Do not solve it.\nQ: If you have 7 apples and pick 5 more, how many apples do you have?\nE: 7 + 5\nQ: A crate holds 240 bottles. How many bottles are in 3 crates?\nE: 240 * 3\nQ: ".to_string();
    p.append(question);
    p.append("\nE:");
    p
}

/// A text without the white space that it starts with.
pub open spec fn without_leading_blanks(cs: Seq<char>) -> Seq<char>
    decreases cs.len(),
{
    if cs.len() > 0 && text::white_space(cs[0]) {
        without_leading_blanks(cs.drop_first())
    } else {
        cs
    }
}

/// What comes before the first of two characters, or the whole text where
/// neither occurs.
pub open spec fn before(cs: Seq<char>, a: char, b: char) -> Seq<char>
    decreases cs.len(),
{
    if cs.len() == 0 || cs[0] == a || cs[0] == b {
        Seq::empty()
    } else {
        seq![cs[0]] + before(cs.drop_first(), a, b)
    }
}

/// The first line, without its line ending.
pub open spec fn first_line(cs: Seq<char>) -> Seq<char> {
    let line = before(cs, '\n', '\n');
    if line.len() < cs.len() && line.len() > 0 && line.last() == '\r' {
        line.drop_last()
    } else {
        line
    }
}

/// What is read of a model's answer: its first line up to an equals sign, plain
/// or full width.
pub open spec fn read_of_answer(cs: Seq<char>) -> Seq<char> {
    before(first_line(without_leading_blanks(cs)), '=', '\u{ff1d}')
}

pub proof fn lemma_before(cs: Seq<char>, a: char, b: char, n: int)
    requires
        0 <= n <= cs.len(),
        forall|i: int| 0 <= i < n ==> (#[trigger] cs[i]) != a && cs[i] != b,
        n < cs.len() ==> cs[n] == a || cs[n] == b,
    ensures
        before(cs, a, b) == cs.take(n),
    decreases n,
{
    if n > 0 {
        assert forall|i: int| 0 <= i < n - 1 implies (#[trigger] cs.drop_first()[i]) != a
            && cs.drop_first()[i] != b by {
            assert(cs[i + 1] != a && cs[i + 1] != b);
        }
        assert(cs[0] != a && cs[0] != b);
        lemma_before(cs.drop_first(), a, b, n - 1);
        assert(seq![cs[0]] + cs.drop_first().take(n - 1) =~= cs.take(n));
    } else {
        assert(cs.take(0) =~= Seq::<char>::empty());
    }
}

/// The part of a text before the first of two characters.
fn cut(chars: &Vec<char>, a: char, b: char) -> (r: Vec<char>)
    ensures
        r@ == before(chars@, a, b),
{
    let mut r: Vec<char> = Vec::new();
    let mut i: usize = 0;
    while i < chars.len() && chars[i] != a && chars[i] != b
        invariant
            i <= chars@.len(),
            r@ == chars@.take(i as int),
            forall|k: int| 0 <= k < i ==> (#[trigger] chars@[k]) != a && chars@[k] != b,
        decreases chars@.len() - i,
    {
        r.push(chars[i]);
        assert(r@ =~= chars@.take(i + 1));
        i += 1;
    }
    proof {
        lemma_before(chars@, a, b, i as int);
    }
    r
}

/// A text without the white space that it starts with.
fn skip_blanks(chars: &Vec<char>) -> (r: Vec<char>)
    ensures
        r@ == without_leading_blanks(chars@),
{
    let mut i: usize = 0;
    assert(chars@.skip(0) =~= chars@);
    while i < chars.len() && text::is_white_space(chars[i])
        invariant
            i <= chars@.len(),
            without_leading_blanks(chars@) == without_leading_blanks(chars@.skip(i as int)),
        decreases chars@.len() - i,
    {
        assert(chars@.skip(i as int).drop_first() =~= chars@.skip(i + 1));
        i += 1;
    }
    let mut r: Vec<char> = Vec::new();
    let ghost start: int = i as int;
    while i < chars.len()
        invariant
            start <= i <= chars@.len(),
            0 <= start,
            r@ == chars@.subrange(start, i as int),
        decreases chars@.len() - i,
    {
        r.push(chars[i]);
        assert(r@ =~= chars@.subrange(start, i + 1));
        i += 1;
    }
    assert(r@ =~= chars@.skip(start));
    r
}

/// Reads the expression that a model emitted. Only the first line counts, and
/// of it only what comes before an equals sign, so a sum that the model adds is
/// never read.
pub fn parse_rewrite(generated: &str) -> (e: Option<Expr>)
    ensures
        expresses(read_of_answer(generated@), e),
{
    let answer: Vec<char> = skip_blanks(&text::chars_of(generated));
    let mut line: Vec<char> = cut(&answer, '\n', '\n');
    if line.len() < answer.len() && line.len() > 0 && line[line.len() - 1] == '\r' {
        line.pop();
    }
    find_in(&cut(&line, '=', '\u{ff1d}'))
}

/// Whether one of two characters occurs in a text.
pub open spec fn occurs(cs: Seq<char>, a: char, b: char) -> bool {
    exists|i: int| 0 <= i < cs.len() && ((#[trigger] cs[i]) == a || cs[i] == b)
}

proof fn lemma_before_append(x: Seq<char>, y: Seq<char>, a: char, b: char)
    ensures
        before(x + y, a, b) == if occurs(x, a, b) {
            before(x, a, b)
        } else {
            x + before(y, a, b)
        },
        !occurs(x, a, b) ==> before(x, a, b) == x,
        occurs(x, a, b) ==> before(x, a, b).len() < x.len(),
    decreases x.len(),
{
    if x.len() == 0 {
        assert(x + y =~= y);
        assert(x + before(y, a, b) =~= before(y, a, b));
    } else if x[0] == a || x[0] == b {
        assert((x + y)[0] == x[0]);
        assert(occurs(x, a, b));
    } else {
        let rest = x.drop_first();
        lemma_before_append(rest, y, a, b);
        assert((x + y).drop_first() =~= rest + y);
        if occurs(rest, a, b) {
            let i = choose|i: int| 0 <= i < rest.len() && ((#[trigger] rest[i]) == a || rest[i]
                == b);
            assert(x[i + 1] == rest[i]);
        }
        if occurs(x, a, b) {
            let i = choose|i: int| 0 <= i < x.len() && ((#[trigger] x[i]) == a || x[i] == b);
            assert(rest[i - 1] == x[i]);
        }
        assert(seq![x[0]] + (rest + before(y, a, b)) =~= x + before(y, a, b));
        assert(seq![x[0]] + rest =~= x);
    }
}

proof fn lemma_blanks_append(x: Seq<char>, y: Seq<char>)
    requires
        without_leading_blanks(x).len() > 0 || (y.len() > 0 && !text::white_space(y[0])),
    ensures
        without_leading_blanks(x + y) == without_leading_blanks(x) + y,
    decreases x.len(),
{
    if x.len() == 0 {
        assert(x + y =~= y);
        assert(without_leading_blanks(x) + y =~= y);
    } else if text::white_space(x[0]) {
        lemma_blanks_append(x.drop_first(), y);
        assert((x + y).drop_first() =~= x.drop_first() + y);
    }
}

/// Only what comes before an equals sign is read of an answer: the sign, plain
/// or full width, and all that follows it make no difference.
pub proof fn law_sum_is_never_read(shown: Seq<char>, sign: char, sum: Seq<char>)
    requires
        sign == '=' || sign == '\u{ff1d}',
    ensures
        read_of_answer(shown + seq![sign] + sum) == read_of_answer(shown),
{
    let x = without_leading_blanks(shown);
    let y = seq![sign] + sum;
    assert(shown + seq![sign] + sum =~= shown + y);
    lemma_blanks_append(shown, y);
    lemma_before_append(x, y, '\n', '\n');
    if !occurs(x, '\n', '\n') {
        let tail = before(sum, '\n', '\n');
        assert(y.drop_first() =~= sum);
        assert(before(y, '\n', '\n') == seq![sign] + tail);
        let line = first_line(x + y);
        let whole = x + (seq![sign] + tail);
        let rest = if line.len() == whole.len() {
            tail
        } else {
            tail.drop_last()
        };
        assert(whole.last() == '\r' ==> tail.len() > 0) by {
            if tail.len() == 0 {
                assert(whole.last() == sign);
            }
        }
        assert(line =~= x + (seq![sign] + rest));
        lemma_before_append(x, seq![sign] + rest, '=', '\u{ff1d}');
        assert((seq![sign] + rest)[0] == sign);
        assert(before(seq![sign] + rest, '=', '\u{ff1d}') =~= Seq::<char>::empty());
        assert(first_line(x) == x);
        assert(x + Seq::<char>::empty() =~= x);
    } else {
        assert(first_line(x + y) == first_line(x));
    }
}

/// Nothing after the first line has any effect on what is read of an answer
/// whose first line is not blank.
pub proof fn law_only_the_first_line_is_read(
    line: Seq<char>,
    more: Seq<char>,
    other: Seq<char>,
)
    requires
        without_leading_blanks(line).len() > 0,
    ensures
        read_of_answer(line + seq!['\n'] + more) == read_of_answer(line + seq!['\n'] + other),
{
    let x = without_leading_blanks(line);
    assert(line + seq!['\n'] + more =~= line + (seq!['\n'] + more));
    assert(line + seq!['\n'] + other =~= line + (seq!['\n'] + other));
    lemma_blanks_append(line, seq!['\n'] + more);
    lemma_blanks_append(line, seq!['\n'] + other);
    lemma_before_append(x, seq!['\n'] + more, '\n', '\n');
    lemma_before_append(x, seq!['\n'] + other, '\n', '\n');
    assert(before(seq!['\n'] + more, '\n', '\n') =~= Seq::<char>::empty());
    assert(before(seq!['\n'] + other, '\n', '\n') =~= Seq::<char>::empty());
}

/// Whether a character can be an operator at all.
pub open spec fn operator_char(c: char) -> bool {
    c == '+' || c == '*' || c == '\u{d7}' || c == '\u{2212}' || c == '-' || c == 'x' || c == 'X'
}

proof fn lemma_no_operator_token(cs: Seq<char>, i: int)
    requires
        forall|k: int| 0 <= k < cs.len() ==> !operator_char(#[trigger] cs[k]),
    ensures
        forall|k: int|
            0 <= k < tokens_from(cs, i).len() ==> (#[trigger] tokens_from(cs, i)[k]) !is Op,
    decreases cs.len() - i,
{
    if 0 <= i < cs.len() {
        let next = if digit_at(cs, i) {
            number_end(cs, i)
        } else {
            i + 1
        };
        lemma_number_end(cs, i);
        lemma_no_operator_token(cs, next);
        assert(!operator_char(cs[i]));
        assert forall|k: int| 0 <= k < tokens_from(cs, i).len() implies (#[trigger] tokens_from(
            cs,
            i,
        )[k]) !is Op by {
            if digit_at(cs, i) || !text::white_space(cs[i]) {
                if k > 0 {
                    assert(tokens_from(cs, i)[k] == tokens_from(cs, next)[k - 1]);
                }
            }
        }
    }
}

/// A text without operator characters holds no expression, whatever numbers it
/// has. A slash is no operator character.
pub proof fn law_no_operator_no_expression(cs: Seq<char>, e: Option<Expr>)
    requires
        expresses(cs, e),
        forall|k: int| 0 <= k < cs.len() ==> !operator_char(#[trigger] cs[k]),
    ensures
        e is None,
{
    lemma_no_operator_token(cs, 0);
    if e is Some {
        let i = choose|i: int| #[trigger] longest_at(tokens(cs), i);
        assert(tokens(cs)[i + 1] !is Op);
    }
}

/// A hyphen or an `x` that has something other than a blank on either side is
/// never an operator.
pub proof fn law_attached_hyphen_is_no_operator(cs: Seq<char>, i: int)
    requires
        0 <= i < cs.len(),
        cs[i] == '-' || cs[i] == 'x' || cs[i] == 'X',
        !blank_at(cs, i - 1) || !blank_at(cs, i + 1),
    ensures
        symbol_at(cs, i) is Other,
{
}

} // verus!
