//! What reading and evaluating an expression promises, in terms of the text.

use vstd::prelude::*;
use vstd::string::*;

use crate::arith::alu;
use crate::arith::alu::{Expr, Op};
use crate::arith::extract;
use crate::arith::extract::Token;
use crate::arith::readback;
use crate::text;

verus! {

/// Whether a character is a decimal digit.
pub open spec fn digit(c: char) -> bool {
    c == '0' || c == '1' || c == '2' || c == '3' || c == '4' || c == '5' || c == '6' || c == '7'
        || c == '8' || c == '9'
}

/// The operator that a sign stands for wherever it occurs.
pub open spec fn free_sign(c: char) -> Option<Op> {
    if c == '+' {
        Some(Op::Add)
    } else if c == '*' || c == '\u{d7}' {
        Some(Op::Mul)
    } else if c == '\u{2212}' {
        Some(Op::Sub)
    } else {
        None
    }
}

/// The operator that a sign stands for only with blanks on both sides.
pub open spec fn shy_sign(c: char) -> Option<Op> {
    if c == '-' {
        Some(Op::Sub)
    } else if c == 'x' || c == 'X' {
        Some(Op::Mul)
    } else {
        None
    }
}

/// Plus, the asterisk, the multiplication sign and the minus sign are operators
/// whatever stands beside them. A hyphen and the letter x are operators exactly
/// with a blank, or the end of the text, on both sides. No other character is
/// an operator.
pub proof fn law_signs_are_operators(cs: Seq<char>, i: int)
    requires
        0 <= i < cs.len(),
    ensures
        free_sign(cs[i]) matches Some(op) ==> extract::symbol_at(cs, i) == Token::Op(op),
        shy_sign(cs[i]) matches Some(op) ==> extract::symbol_at(cs, i) == if (i == 0
            || text::white_space(cs[i - 1])) && (i + 1 == cs.len() || text::white_space(cs[i + 1])) {
            Token::Op(op)
        } else {
            Token::Other
        },
        free_sign(cs[i]) is None && shy_sign(cs[i]) is None ==> extract::symbol_at(cs, i)
            == Token::Other,
{
}

proof fn lemma_digit(c: char)
    ensures
        digit(c) == text::ascii_digit(c),
{
}

/// A number does not run past a place that belongs to none.
proof fn lemma_number_stops(cs: Seq<char>, j: int, i: int)
    requires
        0 <= j <= i <= cs.len(),
        !extract::in_number(cs, i),
    ensures
        extract::number_end(cs, j) <= i,
    decreases i - j,
{
    if j < i && extract::in_number(cs, j) {
        lemma_number_stops(cs, j + 1, i);
    }
}

/// Right after a digit that ends a number, the last token read is that number.
proof fn lemma_number_just_read(cs: Seq<char>, j: int, q: int) -> (r: (Seq<Token>, Seq<char>))
    requires
        0 <= j < q <= cs.len(),
        extract::digit_at(cs, q - 1),
        !extract::in_number(cs, q),
    ensures
        extract::tokens_from(cs, j) == r.0.push(Token::Num(r.1)) + extract::tokens_from(cs, q),
    decreases q - j,
{
    if extract::digit_at(cs, j) {
        lemma_number_stops(cs, j, q);
        extract::lemma_number_end(cs, j);
        let end = extract::number_end(cs, j);
        let ds = extract::digits_of(cs.subrange(j, end));
        let num = seq![Token::Num(ds)];
        if end == q {
            assert(Seq::<Token>::empty().push(Token::Num(ds)) =~= num);
            (Seq::empty(), ds)
        } else {
            let r = lemma_number_just_read(cs, end, q);
            assert((num + r.0).push(Token::Num(r.1)) + extract::tokens_from(cs, q) =~= num + (
            r.0.push(Token::Num(r.1)) + extract::tokens_from(cs, q)));
            (num + r.0, r.1)
        }
    } else {
        let r = lemma_number_just_read(cs, j + 1, q);
        if text::white_space(cs[j]) {
            r
        } else {
            let sym = seq![extract::symbol_at(cs, j)];
            assert((sym + r.0).push(Token::Num(r.1)) + extract::tokens_from(cs, q) =~= sym + (
            r.0.push(Token::Num(r.1)) + extract::tokens_from(cs, q)));
            (sym + r.0, r.1)
        }
    }
}

/// Blanks are passed over.
proof fn lemma_blanks_passed(cs: Seq<char>, j: int, i: int)
    requires
        0 <= j <= i <= cs.len(),
        forall|k: int| j <= k < i ==> text::white_space(#[trigger] cs[k]) && !text::ascii_digit(
            cs[k],
        ),
    ensures
        extract::tokens_from(cs, j) == extract::tokens_from(cs, i),
    decreases i - j,
{
    if j < i {
        assert(text::white_space(cs[j]));
        lemma_blanks_passed(cs, j + 1, i);
    }
}

/// Whether a text has a digit at `p`, an operator sign at `i` and a digit at
/// `r`, with nothing but blanks between them. A hyphen or an x needs at least
/// one blank on each side.
pub open spec fn explicit_at(cs: Seq<char>, p: int, i: int, r: int) -> bool {
    &&& 0 <= p < i < r < cs.len()
    &&& digit(cs[p])
    &&& digit(cs[r])
    &&& forall|k: int| p < k < r && k != i ==> text::white_space(#[trigger] cs[k])
    &&& free_sign(cs[i]) is Some || (shy_sign(cs[i]) is Some && p + 1 < i && i + 1 < r)
}

/// Wherever a text has two numbers with an operator sign between them, an
/// expression is found, whatever else the text says.
pub proof fn law_explicit_expression_is_found(
    cs: Seq<char>,
    p: int,
    i: int,
    r: int,
    e: Option<Expr>,
)
    requires
        explicit_at(cs, p, i, r),
        extract::expresses(cs, e),
    ensures
        e is Some,
{
    lemma_digit(cs[p]);
    lemma_digit(cs[r]);
    assert(!extract::in_number(cs, p + 1)) by {
        if p + 1 != i {
            assert(text::white_space(cs[p + 1]));
        }
    }
    let (before, left) = lemma_number_just_read(cs, 0, p + 1);
    assert forall|k: int| p + 1 <= k < i implies text::white_space(#[trigger] cs[k])
        && !text::ascii_digit(cs[k]) by {}
    lemma_blanks_passed(cs, p + 1, i);
    law_signs_are_operators(cs, i);
    let op = if free_sign(cs[i]) is Some {
        free_sign(cs[i])->0
    } else {
        shy_sign(cs[i])->0
    };
    if free_sign(cs[i]) is None {
        assert(text::white_space(cs[i - 1]));
        assert(text::white_space(cs[i + 1]));
    }
    assert(extract::symbol_at(cs, i) == Token::Op(op));
    assert(extract::tokens_from(cs, i) == seq![Token::Op(op)] + extract::tokens_from(cs, i + 1));
    assert forall|k: int| i + 1 <= k < r implies text::white_space(#[trigger] cs[k])
        && !text::ascii_digit(cs[k]) by {}
    lemma_blanks_passed(cs, i + 1, r);
    let end = extract::number_end(cs, r);
    let right = extract::digits_of(cs.subrange(r, end));
    let rest = extract::tokens_from(cs, end);
    assert(extract::tokens_from(cs, r) == seq![Token::Num(right)] + rest);
    let toks = extract::tokens(cs);
    let n = before.len() as int;
    assert(toks == before.push(Token::Num(left)) + (seq![Token::Op(op)] + (seq![Token::Num(right)]
        + rest)));
    assert(toks[n] == Token::Num(left));
    assert(toks[n + 1] == Token::Op(op));
    assert(toks[n + 2] == Token::Num(right));
    assert(extract::continues(toks, n));
    assert(extract::chain_ops(toks, n) > 0);
}

/// Whether a text is one number: it starts with a digit and has digits, and
/// single separators with a digit behind them.
pub open spec fn number_text(ds: Seq<char>) -> bool {
    &&& ds.len() > 0
    &&& digit(ds[0])
    &&& forall|k: int|
        0 <= k < ds.len() ==> digit(#[trigger] ds[k]) || ((ds[k] == ',' || ds[k] == '_') && k + 1
            < ds.len() && digit(ds[k + 1]))
}

/// The number that a text of digits and separators stands for: separators do not
/// count, and each digit has ten times the weight of the next.
pub open spec fn number_of(ds: Seq<char>) -> int
    decreases ds.len(),
{
    if ds.len() == 0 {
        0
    } else if ds.last() == ',' || ds.last() == '_' {
        number_of(ds.drop_last())
    } else {
        10 * number_of(ds.drop_last()) + (ds.last() as int - 48)
    }
}

proof fn lemma_number_of(ds: Seq<char>)
    requires
        forall|k: int|
            0 <= k < ds.len() ==> digit(#[trigger] ds[k]) || ds[k] == ',' || ds[k] == '_',
    ensures
        alu::spelled(extract::digits_of(ds)) == number_of(ds),
    decreases ds.len(),
{
    reveal(Seq::filter);
    if ds.len() > 0 {
        let fewer = ds.drop_last();
        assert forall|k: int| 0 <= k < fewer.len() implies digit(#[trigger] fewer[k]) || fewer[k]
            == ',' || fewer[k] == '_' by {
            assert(fewer[k] == ds[k]);
        }
        lemma_number_of(fewer);
        let c = ds[ds.len() - 1];
        lemma_digit(c);
        if digit(c) {
            let all = extract::digits_of(ds);
            assert(all == extract::digits_of(fewer).push(c));
            assert(all.drop_last() =~= extract::digits_of(fewer));
        } else {
            assert(extract::digits_of(ds) == extract::digits_of(fewer));
        }
    }
}

/// A number inside a longer text ends where its own text ends.
proof fn lemma_number_in(cs: Seq<char>, start: int, ds: Seq<char>, k: int)
    requires
        number_text(ds),
        0 <= k <= ds.len(),
        0 <= start,
        start + ds.len() <= cs.len(),
        forall|j: int| 0 <= j < ds.len() ==> cs[start + j] == #[trigger] ds[j],
        !extract::in_number(cs, start + ds.len()),
    ensures
        extract::number_end(cs, start + k) == start + ds.len(),
    decreases ds.len() - k,
{
    if k < ds.len() {
        lemma_digit(ds[k]);
        assert(cs[start + k] == ds[k]);
        if k + 1 < ds.len() {
            lemma_digit(ds[k + 1]);
            assert(cs[start + (k + 1)] == ds[k + 1]);
        }
        assert(digit(ds[k]) || ((ds[k] == ',' || ds[k] == '_') && k + 1 < ds.len() && digit(
            ds[k + 1],
        )));
        assert(extract::in_number(cs, start + k));
        lemma_number_in(cs, start, ds, k + 1);
        assert(start + k + 1 == start + (k + 1));
    }
}

/// A text that is two numbers with an operator sign between them, with or
/// without blanks around the sign, is read as exactly that operation on exactly
/// these numbers. A hyphen or an x needs at least one blank on each side.
pub proof fn law_two_numbers_and_a_sign(
    a: Seq<char>,
    before: Seq<char>,
    sign: char,
    after: Seq<char>,
    b: Seq<char>,
    e: Option<Expr>,
)
    requires
        number_text(a),
        number_text(b),
        forall|k: int| 0 <= k < before.len() ==> text::white_space(#[trigger] before[k]),
        forall|k: int| 0 <= k < after.len() ==> text::white_space(#[trigger] after[k]),
        free_sign(sign) is Some || (shy_sign(sign) is Some && before.len() > 0 && after.len() > 0),
        extract::expresses(a + before + seq![sign] + after + b, e),
    ensures
        e is Some,
        alu::values(e->0.operands@) == seq![number_of(a), number_of(b)],
        e->0.ops@ == seq![if free_sign(sign) is Some {
            free_sign(sign)->0
        } else {
            shy_sign(sign)->0
        }],
{
    let cs = a + before + seq![sign] + after + b;
    let p = a.len() as int;
    let i = p + before.len();
    let r = i + 1 + after.len();
    let op = if free_sign(sign) is Some {
        free_sign(sign)->0
    } else {
        shy_sign(sign)->0
    };
    assert(cs[i] == sign);
    assert forall|k: int| p <= k < i implies text::white_space(#[trigger] cs[k])
        && !text::ascii_digit(cs[k]) by {
        assert(cs[k] == before[k - p]);
    }
    assert forall|k: int| i + 1 <= k < r implies text::white_space(#[trigger] cs[k])
        && !text::ascii_digit(cs[k]) by {
        assert(cs[k] == after[k - (i + 1)]);
    }
    assert forall|j: int| 0 <= j < a.len() implies cs[0 + j] == #[trigger] a[j] by {}
    assert forall|j: int| 0 <= j < b.len() implies cs[r + j] == #[trigger] b[j] by {}
    lemma_digit(a[0]);
    lemma_digit(b[0]);
    assert(cs[0] == a[0]);
    assert(cs[r + 0] == b[0]);
    assert(!extract::in_number(cs, p)) by {
        if p < i {
            assert(text::white_space(cs[p]));
        }
    }
    lemma_number_in(cs, 0, a, 0);
    lemma_number_in(cs, r, b, 0);
    assert(r + b.len() == cs.len());
    assert(cs.subrange(0, p) =~= a);
    assert(cs.subrange(r, cs.len() as int) =~= b);
    lemma_blanks_passed(cs, p, i);
    lemma_blanks_passed(cs, i + 1, r);
    law_signs_are_operators(cs, i);
    if free_sign(sign) is None {
        assert(text::white_space(cs[i - 1]));
        assert(text::white_space(cs[i + 1]));
    }
    let left = extract::digits_of(a);
    let right = extract::digits_of(b);
    assert(extract::tokens_from(cs, cs.len() as int) =~= Seq::<Token>::empty());
    assert(extract::tokens_from(cs, r) =~= seq![Token::Num(right)]);
    assert(extract::tokens_from(cs, i) =~= seq![Token::Op(op), Token::Num(right)]);
    let toks = extract::tokens(cs);
    assert(toks =~= seq![Token::Num(left), Token::Op(op), Token::Num(right)]);
    assert(!extract::continues(toks, 2));
    assert(extract::chain_ops(toks, 2) == 0);
    assert(extract::continues(toks, 0));
    assert(extract::chain_ops(toks, 0) == 1);
    assert(e is Some);
    let at = choose|at: int| #[trigger]
        extract::longest_at(toks, at) && alu::values(e->0.operands@) == extract::chain_operands(
            toks,
            at,
        ) && e->0.ops@ == extract::chain_operators(toks, at);
    assert(at == 0) by {
        assert(extract::continues(toks, at));
    }
    lemma_number_of(a);
    lemma_number_of(b);
    assert(extract::chain_operands(toks, 0) =~= seq![number_of(a), number_of(b)]);
    assert(extract::chain_operators(toks, 0) =~= seq![op]);
}

/// Whether numbers and operators alternate from a place on, over so many
/// operators.
pub open spec fn alternates(toks: Seq<Token>, i: int, n: nat) -> bool {
    &&& 0 <= i
    &&& i + 2 * n < toks.len()
    &&& forall|k: int| #![trigger toks[i + 2 * k]] 0 <= k <= n ==> toks[i + 2 * k] is Num
    &&& forall|k: int| #![trigger toks[i + 2 * k + 1]] 0 <= k < n ==> toks[i + 2 * k + 1] is Op
}

proof fn lemma_alternates(toks: Seq<Token>, i: int, n: nat)
    requires
        alternates(toks, i, n),
    ensures
        extract::chain_ops(toks, i) >= n,
    decreases n,
{
    if n > 0 {
        assert(toks[i + 2 * 0] is Num);
        assert(toks[i + 2 * 0 + 1] is Op);
        assert(toks[i + 2 * 1] is Num);
        assert(extract::continues(toks, i));
        let m = (n - 1) as nat;
        assert forall|k: int| #![trigger toks[i + 2 + 2 * k]] 0 <= k <= m implies toks[i + 2 + 2
            * k] is Num by {
            assert(toks[i + 2 * (k + 1)] is Num);
        }
        assert forall|k: int| #![trigger toks[i + 2 + 2 * k + 1]] 0 <= k < m implies toks[i + 2 + 2
            * k + 1] is Op by {
            assert(toks[i + 2 * (k + 1) + 1] is Op);
        }
        lemma_alternates(toks, i + 2, m);
    }
}

proof fn lemma_chain_alternates(toks: Seq<Token>, i: int)
    requires
        0 <= i < toks.len(),
        toks[i] is Num,
    ensures
        alternates(toks, i, extract::chain_ops(toks, i)),
    decreases toks.len() - i,
{
    let n = extract::chain_ops(toks, i);
    if extract::continues(toks, i) {
        lemma_chain_alternates(toks, i + 2);
        assert forall|k: int| #![trigger toks[i + 2 * k]] 0 <= k <= n implies toks[i + 2
            * k] is Num by {
            if k > 0 {
                assert(toks[i + 2 + 2 * (k - 1)] is Num);
            }
        }
        assert forall|k: int| #![trigger toks[i + 2 * k + 1]] 0 <= k < n implies toks[i + 2 * k
            + 1] is Op by {
            if k > 0 {
                assert(toks[i + 2 + 2 * (k - 1) + 1] is Op);
            }
        }
    }
}

/// Whether an expression is the run of numbers and operators that starts at a
/// place: the same numbers and the same operators in the same order.
pub open spec fn run_of(toks: Seq<Token>, at: int, e: Expr) -> bool {
    &&& alternates(toks, at, e.ops@.len())
    &&& e.operands@.len() == e.ops@.len() + 1
    &&& forall|k: int|
        0 <= k < e.operands@.len() ==> (#[trigger] e.operands@[k])@ == alu::spelled(
            toks[at + 2 * k]->Num_0,
        )
    &&& forall|k: int|
        0 <= k < e.ops@.len() ==> (#[trigger] e.ops@[k]) == toks[at + 2 * k + 1]->Op_0
}

/// The expression that is found is a run of numbers and operators of the text,
/// in order, none left out. No run of the text is longer, and every run that
/// starts earlier is shorter.
pub proof fn law_longest_run_is_found(cs: Seq<char>, e: Option<Expr>, i: int, n: nat)
    requires
        extract::expresses(cs, e),
        alternates(extract::tokens(cs), i, n),
        n > 0,
    ensures
        e is Some,
        e->0.ops@.len() >= n,
        exists|at: int|
            #[trigger] run_of(extract::tokens(cs), at, e->0) && (i < at ==> n < e->0.ops@.len()),
{
    let toks = extract::tokens(cs);
    lemma_alternates(toks, i, n);
    assert(e is Some);
    let at = choose|at: int| #[trigger]
        extract::longest_at(toks, at) && alu::values(e->0.operands@) == extract::chain_operands(
            toks,
            at,
        ) && e->0.ops@ == extract::chain_operators(toks, at);
    assert(extract::continues(toks, at));
    lemma_chain_alternates(toks, at);
    assert(extract::chain_ops(toks, i) <= extract::chain_ops(toks, at)) by {
        if i < at {
            assert(extract::chain_ops(toks, i) < extract::chain_ops(toks, at));
        }
    }
    assert forall|k: int| 0 <= k < e->0.operands@.len() implies (#[trigger] e->0.operands@[k])@
        == alu::spelled(toks[at + 2 * k]->Num_0) by {
        assert(alu::values(e->0.operands@)[k] == extract::chain_operands(toks, at)[k]);
    }
    assert forall|k: int| 0 <= k < e->0.ops@.len() implies (#[trigger] e->0.ops@[k]) == toks[at + 2
        * k + 1]->Op_0 by {
        assert(extract::chain_operators(toks, at)[k] == toks[at + 2 * k + 1]->Op_0);
    }
    assert(run_of(toks, at, e->0));
}

/// A number alone has its own value.
pub proof fn law_single_number_is_its_value(n: int)
    ensures
        alu::chain_value(seq![n], Seq::<Op>::empty()) == n,
{
    assert(seq![n].drop_last() =~= Seq::<int>::empty());
    assert(alu::product(Seq::<int>::empty()) == 1);
    assert(alu::product(seq![n]) == n);
}

/// An addition or a subtraction at the end of a chain adds to, or takes from,
/// the value of all that comes before it.
pub proof fn law_last_sum_applies_to_the_whole(ns: Seq<int>, ops: Seq<Op>, n: int)
    requires
        ns.len() == ops.len() + 1,
    ensures
        alu::chain_value(ns.push(n), ops.push(Op::Add)) == alu::chain_value(ns, ops) + n,
        alu::chain_value(ns.push(n), ops.push(Op::Sub)) == alu::chain_value(ns, ops) - n,
{
    alu::lemma_chain_step(ns, ops, Op::Add, n);
    alu::lemma_chain_step(ns, ops, Op::Sub, n);
    alu::lemma_chain_step(ns.push(n), ops.push(Op::Add), Op::Mul, 0);
    alu::lemma_chain_step(ns.push(n), ops.push(Op::Sub), Op::Mul, 0);
}

/// A multiplication binds more tightly than what comes before it: two factors at
/// the end of a chain can be replaced by their product. A chain of just two
/// factors is their product.
pub proof fn law_factors_join_first(ns: Seq<int>, ops: Seq<Op>, op: Op, a: int, b: int)
    requires
        ns.len() == ops.len() + 1,
    ensures
        alu::chain_value(ns.push(a).push(b), ops.push(op).push(Op::Mul)) == alu::chain_value(
            ns.push(a * b),
            ops.push(op),
        ),
        alu::chain_value(seq![a, b], seq![Op::Mul]) == a * b,
{
    alu::lemma_chain_step(ns, ops, op, a);
    alu::lemma_chain_step(ns, ops, op, a * b);
    alu::lemma_chain_step(ns.push(a), ops.push(op), Op::Mul, b);
    alu::lemma_chain_step(ns.push(a).push(b), ops.push(op).push(Op::Mul), Op::Mul, 0);
    alu::lemma_chain_step(ns.push(a * b), ops.push(op), Op::Mul, 0);
    let t = alu::tail_value(ns, ops);
    assert((t * a) * b == t * (a * b)) by (nonlinear_arith);
    assert((-a) * b == -(a * b)) by (nonlinear_arith);
    law_single_number_is_its_value(a);
    alu::lemma_chain_step(seq![a], Seq::<Op>::empty(), Op::Mul, b);
    alu::lemma_chain_step(seq![a, b], seq![Op::Mul], Op::Mul, 0);
    assert(seq![a].push(b) =~= seq![a, b]);
    assert(Seq::<Op>::empty().push(Op::Mul) =~= seq![Op::Mul]);
}

/// The text of a number below ten is its digit; the text of a larger one is that
/// of its tenth with its last digit behind it. A negative number has a minus
/// sign in front.
pub proof fn law_numbers_are_written_in_decimal(n: nat)
    ensures
        n < 10 ==> alu::int_text(n as int) == seq![(48 + n) as char],
        n >= 10 ==> alu::int_text(n as int) == alu::int_text((n / 10) as int).push(
            (48 + n % 10) as char,
        ),
        n > 0 ==> alu::int_text(-(n as int)) == seq!['-'] + alu::int_text(n as int),
{
    reveal_strlit("-");
    assert("-"@ =~= seq!['-']);
    if n > 0 {
        assert((-(-(n as int))) as nat == n);
    }
}

/// A longer chain is written as the shorter one, a blank, the sign, a blank and
/// the last number.
pub proof fn law_chains_are_written_in_order(ns: Seq<int>, ops: Seq<Op>, n: int)
    requires
        ns.len() == ops.len() + 1,
    ensures
        alu::chain_text(seq![n], Seq::<Op>::empty()) == alu::int_text(n),
        alu::chain_text(ns.push(n), ops.push(Op::Add)) == alu::chain_text(ns, ops) + seq![
            ' ',
            '+',
            ' ',
        ] + alu::int_text(n),
        alu::chain_text(ns.push(n), ops.push(Op::Sub)) == alu::chain_text(ns, ops) + seq![
            ' ',
            '-',
            ' ',
        ] + alu::int_text(n),
        alu::chain_text(ns.push(n), ops.push(Op::Mul)) == alu::chain_text(ns, ops) + seq![
            ' ',
            '*',
            ' ',
        ] + alu::int_text(n),
{
    reveal_strlit(" + ");
    reveal_strlit(" - ");
    reveal_strlit(" * ");
    assert(" + "@ =~= seq![' ', '+', ' ']);
    assert(" - "@ =~= seq![' ', '-', ' ']);
    assert(" * "@ =~= seq![' ', '*', ' ']);
    assert(ns.push(n).drop_last() =~= ns);
    assert(ops.push(Op::Add).drop_last() =~= ops);
    assert(ops.push(Op::Sub).drop_last() =~= ops);
    assert(ops.push(Op::Mul).drop_last() =~= ops);
}

/// Blanks in front of an answer make no difference.
pub proof fn law_leading_blanks_do_not_count(blank: char, answer: Seq<char>)
    requires
        text::white_space(blank),
    ensures
        extract::read_of_answer(seq![blank] + answer) == extract::read_of_answer(answer),
{
    assert((seq![blank] + answer).drop_first() =~= answer);
}

/// An answer of one line that starts with no blank and has no equals sign is
/// read whole.
pub proof fn law_plain_line_is_read_whole(line: Seq<char>)
    requires
        line.len() > 0,
        !text::white_space(line[0]),
        forall|k: int|
            0 <= k < line.len() ==> (#[trigger] line[k]) != '\n' && line[k] != '=' && line[k]
                != '\u{ff1d}',
    ensures
        extract::read_of_answer(line) == line,
{
    let n = line.len() as int;
    extract::lemma_before(line, '\n', '\n', n);
    extract::lemma_before(line, '=', '\u{ff1d}', n);
    assert(line.take(n) =~= line);
}

/// For all numbers, the text of two of them with an operator sign between, with
/// or without blanks around the sign, is read as that operation on them, and its
/// value is their sum, difference or product.
pub proof fn law_written_operation_is_read_and_computed(
    a: nat,
    before: Seq<char>,
    sign: char,
    after: Seq<char>,
    b: nat,
    e: Option<Expr>,
)
    requires
        forall|k: int| 0 <= k < before.len() ==> text::white_space(#[trigger] before[k]),
        forall|k: int| 0 <= k < after.len() ==> text::white_space(#[trigger] after[k]),
        free_sign(sign) is Some || (shy_sign(sign) is Some && before.len() > 0 && after.len() > 0),
        extract::expresses(
            text::decimal(a) + before + seq![sign] + after + text::decimal(b),
            e,
        ),
    ensures
        e is Some,
        alu::values(e->0.operands@) == seq![a as int, b as int],
        sign == '+' ==> alu::chain_value(alu::values(e->0.operands@), e->0.ops@) == a + b,
        sign == '\u{2212}' || sign == '-' ==> alu::chain_value(
            alu::values(e->0.operands@),
            e->0.ops@,
        ) == a - b,
        sign == '*' || sign == '\u{d7}' || sign == 'x' || sign == 'X' ==> alu::chain_value(
            alu::values(e->0.operands@),
            e->0.ops@,
        ) == a * b,
{
    let x = text::decimal(a);
    let y = text::decimal(b);
    lemma_decimal_is_number_text(a);
    lemma_decimal_is_number_text(b);
    law_two_numbers_and_a_sign(x, before, sign, after, y, e);
    let (m, n) = (a as int, b as int);
    law_last_sum_applies_to_the_whole(seq![m], Seq::<Op>::empty(), n);
    law_factors_join_first(seq![m], Seq::<Op>::empty(), Op::Add, m, n);
    law_single_number_is_its_value(m);
    assert(seq![m].push(n) =~= seq![m, n]);
    assert(Seq::<Op>::empty().push(Op::Add) =~= seq![Op::Add]);
    assert(Seq::<Op>::empty().push(Op::Sub) =~= seq![Op::Sub]);
}

proof fn lemma_decimal_is_number_text(n: nat)
    ensures
        number_text(text::decimal(n)),
        number_of(text::decimal(n)) == n,
{
    let ds = text::decimal(n);
    readback::law_digits_spell_the_number(n);
    assert forall|k: int| 0 <= k < ds.len() implies digit(#[trigger] ds[k]) by {
        assert(text::ascii_digit(ds[k]));
        lemma_digit(ds[k]);
    }
    lemma_number_of(ds);
    lemma_only_digits(ds);
}

proof fn lemma_only_digits(ds: Seq<char>)
    requires
        forall|k: int| 0 <= k < ds.len() ==> digit(#[trigger] ds[k]),
    ensures
        extract::digits_of(ds) == ds,
    decreases ds.len(),
{
    reveal(Seq::filter);
    if ds.len() > 0 {
        let fewer = ds.drop_last();
        assert forall|k: int| 0 <= k < fewer.len() implies digit(#[trigger] fewer[k]) by {
            assert(fewer[k] == ds[k]);
        }
        lemma_only_digits(fewer);
        lemma_digit(ds[ds.len() - 1]);
        assert(fewer.push(ds.last()) =~= ds);
    }
}

/// The token at a place that a number does not run into: the number that starts
/// there, nothing for a blank, and otherwise the one that the character stands
/// for. A separator that no digit follows is not part of a number.
pub proof fn law_text_is_read_from_left_to_right(cs: Seq<char>, i: int)
    requires
        0 <= i < cs.len(),
    ensures
        text::white_space(cs[i]) ==> extract::tokens_from(cs, i) == extract::tokens_from(
            cs,
            i + 1,
        ),
        !digit(cs[i]) && !text::white_space(cs[i]) ==> {
            &&& extract::tokens_from(cs, i).len() > 0
            &&& extract::tokens_from(cs, i).first() == extract::symbol_at(cs, i)
            &&& extract::tokens_from(cs, i).drop_first() == extract::tokens_from(cs, i + 1)
        },
        forall|end: int|
            {
                &&& i < end <= cs.len()
                &&& #[trigger] number_text(cs.subrange(i, end))
                &&& end < cs.len() ==> !digit(cs[end])
                &&& end + 1 < cs.len() && (cs[end] == ',' || cs[end] == '_') ==> !digit(
                    cs[end + 1],
                )
            } ==> {
                &&& extract::tokens_from(cs, i).len() > 0
                &&& extract::tokens_from(cs, i).first() is Num
                &&& alu::spelled(extract::tokens_from(cs, i).first()->Num_0) == number_of(
                    cs.subrange(i, end),
                )
                &&& extract::tokens_from(cs, i).drop_first() == extract::tokens_from(cs, end)
            },
{
    lemma_digit(cs[i]);
    let here = extract::tokens_from(cs, i);
    if !digit(cs[i]) && !text::white_space(cs[i]) {
        assert(here.drop_first() =~= extract::tokens_from(cs, i + 1));
    }
    assert forall|end: int|
        {
            &&& i < end <= cs.len()
            &&& #[trigger] number_text(cs.subrange(i, end))
            &&& end < cs.len() ==> !digit(cs[end])
            &&& end + 1 < cs.len() && (cs[end] == ',' || cs[end] == '_') ==> !digit(cs[end + 1])
        } implies {
        &&& here.len() > 0
        &&& here.first() is Num
        &&& alu::spelled(here.first()->Num_0) == number_of(cs.subrange(i, end))
        &&& here.drop_first() == extract::tokens_from(cs, end)
    } by {
        let ds = cs.subrange(i, end);
        assert(ds[0] == cs[i]);
        if end < cs.len() {
            lemma_digit(cs[end]);
        }
        if end + 1 < cs.len() {
            lemma_digit(cs[end + 1]);
        }
        assert(!extract::in_number(cs, end));
        lemma_number_in(cs, i, ds, 0);
        lemma_number_of(ds);
        assert(here == seq![Token::Num(extract::digits_of(ds))] + extract::tokens_from(cs, end));
        assert(here.drop_first() =~= extract::tokens_from(cs, end));
    }
}

/// A carriage return at the end of the first line of an answer is not read.
pub proof fn law_line_ending_is_not_read(line: Seq<char>, more: Seq<char>)
    requires
        line.len() > 0,
        !text::white_space(line[0]),
        forall|k: int|
            0 <= k < line.len() ==> (#[trigger] line[k]) != '\n' && line[k] != '\r' && line[k]
                != '=' && line[k] != '\u{ff1d}',
    ensures
        extract::read_of_answer(line + seq!['\n'] + more) == line,
        extract::read_of_answer(line + seq!['\r', '\n'] + more) == line,
{
    let n = line.len() as int;
    let plain = line + seq!['\n'] + more;
    let paired = line + seq!['\r', '\n'] + more;
    assert(plain[0] == line[0] && paired[0] == line[0]);
    assert forall|k: int| 0 <= k < n implies (#[trigger] plain[k]) != '\n' by {
        assert(plain[k] == line[k]);
    }
    assert forall|k: int| 0 <= k < n + 1 implies (#[trigger] paired[k]) != '\n' by {
        if k < n {
            assert(paired[k] == line[k]);
        }
    }
    extract::lemma_before(plain, '\n', '\n', n);
    extract::lemma_before(paired, '\n', '\n', n + 1);
    assert(plain.take(n) =~= line);
    assert(paired.take(n + 1).drop_last() =~= line);
    assert(line.last() == line[n - 1]);
    extract::lemma_before(line, '=', '\u{ff1d}', n);
    assert(line.take(n) =~= line);
}

/// The prompt states the task, shows two solved examples and then opens a
/// question.
pub proof fn law_prompt_shows_two_examples()
    ensures
        extract::prompt_opening()
            == "Rewrite each question as a bare arithmetic expression. Do not solve it.\n"@
            + "Q: If you have 7 apples and pick 5 more, how many apples do you have?\nE: 7 + 5\n"@
            + "Q: A crate holds 240 bottles. How many bottles are in 3 crates?\nE: 240 * 3\n"@
            + "Q: "@,
{
    reveal_strlit(
        "Rewrite each question as a bare arithmetic expression. Do not solve it.\nQ: If you have 7 apples and pick 5 more, how many apples do you have?\nE: 7 + 5\nQ: A crate holds 240 bottles. How many bottles are in 3 crates?\nE: 240 * 3\nQ: ",
    );
    reveal_strlit("Rewrite each question as a bare arithmetic expression. Do not solve it.\n");
    reveal_strlit(
        "Q: If you have 7 apples and pick 5 more, how many apples do you have?\nE: 7 + 5\n",
    );
    reveal_strlit(
        "Q: A crate holds 240 bottles. How many bottles are in 3 crates?\nE: 240 * 3\n",
    );
    reveal_strlit("Q: ");
}

} // verus!
