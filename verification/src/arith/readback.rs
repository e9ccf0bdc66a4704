//! The text of an expression is read back as that expression.

use vstd::prelude::*;
use vstd::string::*;

use crate::arith::alu;
use crate::arith::alu::{Expr, Op};
use crate::arith::extract;
use crate::arith::extract::Token;
use crate::text;

verus! {

/// The digits of a number are digits, and they spell the number.
pub proof fn law_digits_spell_the_number(n: nat)
    ensures
        alu::spells_number(text::decimal(n)),
        alu::spelled(text::decimal(n)) == n,
    decreases n,
{
    if n < 10 {
        let ds = text::decimal(n);
        assert(ds.drop_last() =~= Seq::<char>::empty());
        assert(alu::spelled(ds.drop_last()) == 0);
        assert(ds.last() as nat == '0' as nat + n);
    } else {
        law_digits_spell_the_number(n / 10);
        let ds = text::decimal(n);
        let c = text::digit_char(n % 10);
        assert(ds.drop_last() =~= text::decimal(n / 10));
        assert(c as nat == '0' as nat + n % 10);
        assert forall|i: int| 0 <= i < ds.len() implies text::ascii_digit(#[trigger] ds[i]) by {
            if i < ds.len() - 1 {
                assert(ds[i] == text::decimal(n / 10)[i]);
            }
        }
    }
}

proof fn lemma_digits_of_digits(ds: Seq<char>)
    requires
        forall|i: int| 0 <= i < ds.len() ==> text::ascii_digit(#[trigger] ds[i]),
    ensures
        extract::digits_of(ds) == ds,
    decreases ds.len(),
{
    reveal(Seq::filter);
    if ds.len() > 0 {
        lemma_digits_of_digits(ds.drop_last());
        assert(text::ascii_digit(ds.last()));
        assert(ds.drop_last().push(ds.last()) =~= ds);
    }
}

/// A run of digits up to the end of a text is one number.
proof fn lemma_number_runs_to_the_end(cs: Seq<char>, i: int)
    requires
        0 <= i <= cs.len(),
        forall|k: int| i <= k < cs.len() ==> text::ascii_digit(#[trigger] cs[k]),
    ensures
        extract::number_end(cs, i) == cs.len(),
    decreases cs.len() - i,
{
    if i < cs.len() {
        lemma_number_runs_to_the_end(cs, i + 1);
    }
}

/// A text of digits is one token.
proof fn lemma_number_tokens(cs: Seq<char>, i: int)
    requires
        0 <= i < cs.len(),
        forall|k: int| i <= k < cs.len() ==> text::ascii_digit(#[trigger] cs[k]),
    ensures
        extract::tokens_from(cs, i) == seq![Token::Num(cs.skip(i))],
{
    lemma_number_runs_to_the_end(cs, i);
    let ds = cs.subrange(i, cs.len() as int);
    assert(ds =~= cs.skip(i));
    lemma_digits_of_digits(ds);
    assert(extract::tokens_from(cs, cs.len() as int) =~= Seq::<Token>::empty());
    assert(extract::tokens_from(cs, i) =~= seq![Token::Num(cs.skip(i))]);
}

/// What follows a blank is read as if the text began there.
proof fn lemma_tokens_after(a: Seq<char>, b: Seq<char>, j: int)
    requires
        b.len() > 0,
        text::white_space(b[0]),
        !text::ascii_digit(b[0]),
        0 <= j <= b.len(),
    ensures
        extract::tokens_from(a + b, a.len() + j) == extract::tokens_from(b, j),
    decreases b.len() - j,
{
    let ab = a + b;
    if j < b.len() {
        assert(ab[a.len() + j] == b[j]);
        if extract::digit_at(b, j) {
            lemma_number_end_after(a, b, j);
            extract::lemma_number_end(b, j);
            let end = extract::number_end(b, j);
            lemma_tokens_after(a, b, end);
            assert(ab.subrange(a.len() + j, a.len() + end) =~= b.subrange(j, end));
        } else {
            lemma_tokens_after(a, b, j + 1);
            if !text::white_space(b[j]) {
                assert(j > 0);
                assert(ab[a.len() + j - 1] == b[j - 1]);
                if j + 1 < b.len() {
                    assert(ab[a.len() + j + 1] == b[j + 1]);
                }
                assert(extract::symbol_at(ab, a.len() + j) == extract::symbol_at(b, j));
            }
        }
    }
}

proof fn lemma_number_end_after(a: Seq<char>, b: Seq<char>, j: int)
    requires
        0 <= j <= b.len(),
    ensures
        extract::number_end(a + b, a.len() + j) == a.len() + extract::number_end(b, j),
    decreases b.len() - j,
{
    let ab = a + b;
    if j < b.len() {
        assert(ab[a.len() + j] == b[j]);
        if j + 1 < b.len() {
            assert(ab[a.len() + j + 1] == b[j + 1]);
        }
        assert(extract::in_number(ab, a.len() + j) == extract::in_number(b, j));
        if extract::in_number(b, j) {
            lemma_number_end_after(a, b, j + 1);
        }
    }
}

/// What ends in a digit is read as if the text ended there, when a blank
/// follows.
proof fn lemma_tokens_before(a: Seq<char>, b: Seq<char>, i: int)
    requires
        a.len() > 0,
        text::ascii_digit(a.last()),
        b.len() > 0,
        text::white_space(b[0]),
        0 <= i <= a.len(),
    ensures
        extract::tokens_from(a + b, i) == extract::tokens_from(a, i) + extract::tokens_from(
            a + b,
            a.len() as int,
        ),
    decreases a.len() - i,
{
    let ab = a + b;
    let rest = extract::tokens_from(ab, a.len() as int);
    if i == a.len() {
        assert(extract::tokens_from(a, i) =~= Seq::<Token>::empty());
        assert(extract::tokens_from(a, i) + rest =~= rest);
    } else {
        assert(ab[i] == a[i]);
        if extract::digit_at(a, i) {
            lemma_number_end_before(a, b, i);
            extract::lemma_number_end(a, i);
            let end = extract::number_end(a, i);
            lemma_tokens_before(a, b, end);
            assert(ab.subrange(i, end) =~= a.subrange(i, end));
            let num = seq![Token::Num(extract::digits_of(a.subrange(i, end)))];
            assert(num + (extract::tokens_from(a, end) + rest) =~= (num + extract::tokens_from(
                a,
                end,
            )) + rest);
        } else {
            lemma_tokens_before(a, b, i + 1);
            if !text::white_space(a[i]) {
                assert(i + 1 < a.len());
                assert(ab[i + 1] == a[i + 1]);
                if i > 0 {
                    assert(ab[i - 1] == a[i - 1]);
                }
                assert(extract::symbol_at(ab, i) == extract::symbol_at(a, i));
                let sym = seq![extract::symbol_at(a, i)];
                assert(sym + (extract::tokens_from(a, i + 1) + rest) =~= (sym
                    + extract::tokens_from(a, i + 1)) + rest);
            }
        }
    }
}

proof fn lemma_number_end_before(a: Seq<char>, b: Seq<char>, i: int)
    requires
        a.len() > 0,
        text::ascii_digit(a.last()),
        b.len() > 0,
        text::white_space(b[0]),
        0 <= i <= a.len(),
    ensures
        extract::number_end(a + b, i) == extract::number_end(a, i),
    decreases a.len() - i,
{
    let ab = a + b;
    if i < a.len() {
        assert(ab[i] == a[i]);
        if i + 1 < a.len() {
            assert(ab[i + 1] == a[i + 1]);
        }
        assert(extract::in_number(ab, i) == extract::in_number(a, i));
        if extract::in_number(a, i) {
            lemma_number_end_before(a, b, i + 1);
        }
    } else {
        assert(ab[i] == b[0]);
        assert(!extract::in_number(ab, i));
    }
}

/// An operator with blanks around it and a number behind it are two tokens.
proof fn lemma_operator_and_number(op: Op, ds: Seq<char>)
    requires
        alu::spells_number(ds),
    ensures
        extract::tokens(alu::op_text(op) + ds) == seq![Token::Op(op), Token::Num(ds)],
        alu::op_text(op).len() == 3,
        text::white_space((alu::op_text(op) + ds)[0]),
{
    reveal_strlit(" + ");
    reveal_strlit(" - ");
    reveal_strlit(" * ");
    let o = alu::op_text(op);
    let cs = o + ds;
    assert(cs[0] == ' ' && cs[2] == ' ');
    assert forall|k: int| 3 <= k < cs.len() implies text::ascii_digit(#[trigger] cs[k]) by {
        assert(cs[k] == ds[k - 3]);
    }
    lemma_number_tokens(cs, 3);
    assert(cs.skip(3) =~= ds);
    assert(extract::tokens_from(cs, 2) == extract::tokens_from(cs, 3));
    assert(extract::symbol_at(cs, 1) == Token::Op(op)) by {
        assert(extract::blank_at(cs, 0) && extract::blank_at(cs, 2));
    }
    assert(extract::tokens_from(cs, 1) == seq![Token::Op(op)] + extract::tokens_from(cs, 2));
    assert(extract::tokens_from(cs, 0) == extract::tokens_from(cs, 1));
    assert(seq![Token::Op(op)] + seq![Token::Num(ds)] =~= seq![Token::Op(op), Token::Num(ds)]);
}

/// The tokens of a chain: numbers and operators in turn.
spec fn chain_tokens(ns: Seq<int>, ops: Seq<Op>) -> Seq<Token>
    decreases ops.len(),
{
    if ops.len() == 0 {
        seq![Token::Num(text::decimal(ns[0] as nat))]
    } else {
        chain_tokens(ns.drop_last(), ops.drop_last()) + seq![
            Token::Op(ops.last()),
            Token::Num(text::decimal(ns.last() as nat)),
        ]
    }
}

proof fn lemma_chain_text_tokens(ns: Seq<int>, ops: Seq<Op>)
    requires
        ns.len() == ops.len() + 1,
        forall|i: int| 0 <= i < ns.len() ==> (#[trigger] ns[i]) >= 0,
    ensures
        extract::tokens(alu::chain_text(ns, ops)) == chain_tokens(ns, ops),
        alu::chain_text(ns, ops).len() > 0,
        text::ascii_digit(alu::chain_text(ns, ops).last()),
    decreases ops.len(),
{
    if ops.len() == 0 {
        let ds = text::decimal(ns[0] as nat);
        law_digits_spell_the_number(ns[0] as nat);
        lemma_number_tokens(ds, 0);
        assert(ds.skip(0) =~= ds);
        assert(text::ascii_digit(ds[ds.len() - 1]));
    } else {
        let fewer = ns.drop_last();
        assert forall|i: int| 0 <= i < fewer.len() implies (#[trigger] fewer[i]) >= 0 by {
            assert(fewer[i] == ns[i]);
        }
        lemma_chain_text_tokens(fewer, ops.drop_last());
        let a = alu::chain_text(fewer, ops.drop_last());
        let last = ns[ns.len() - 1];
        assert(last >= 0);
        let ds = text::decimal(last as nat);
        law_digits_spell_the_number(last as nat);
        let b = alu::op_text(ops.last()) + ds;
        lemma_operator_and_number(ops.last(), ds);
        let whole = alu::chain_text(ns, ops);
        assert(whole =~= a + b);
        lemma_tokens_before(a, b, 0);
        lemma_tokens_after(a, b, 0);
        assert(whole.last() == ds.last());
        assert(text::ascii_digit(ds[ds.len() - 1]));
    }
}

proof fn lemma_chain_tokens(ns: Seq<int>, ops: Seq<Op>)
    requires
        ns.len() == ops.len() + 1,
    ensures
        chain_tokens(ns, ops).len() == 2 * ops.len() + 1,
        forall|k: int|
            #![trigger ns[k]]
            0 <= k < ns.len() ==> chain_tokens(ns, ops)[2 * k] == Token::Num(
                text::decimal(ns[k] as nat),
            ),
        forall|k: int|
            #![trigger ops[k]]
            0 <= k < ops.len() ==> chain_tokens(ns, ops)[2 * k + 1] == Token::Op(ops[k]),
    decreases ops.len(),
{
    if ops.len() > 0 {
        let fewer_ns = ns.drop_last();
        let fewer_ops = ops.drop_last();
        lemma_chain_tokens(fewer_ns, fewer_ops);
        let some = chain_tokens(fewer_ns, fewer_ops);
        let all = chain_tokens(ns, ops);
        assert forall|k: int| #![trigger ns[k]] 0 <= k < ns.len() implies all[2 * k] == Token::Num(
            text::decimal(ns[k] as nat),
        ) by {
            if k < fewer_ns.len() {
                assert(fewer_ns[k] == ns[k]);
                assert(all[2 * k] == some[2 * k]);
            }
        }
        assert forall|k: int| #![trigger ops[k]] 0 <= k < ops.len() implies all[2 * k + 1]
            == Token::Op(ops[k]) by {
            if k < fewer_ops.len() {
                assert(fewer_ops[k] == ops[k]);
                assert(all[2 * k + 1] == some[2 * k + 1]);
            }
        }
    }
}

proof fn lemma_chain_ops(ns: Seq<int>, ops: Seq<Op>, k: int)
    requires
        ns.len() == ops.len() + 1,
        0 <= k < ns.len(),
    ensures
        extract::chain_ops(chain_tokens(ns, ops), 2 * k) == ops.len() - k,
    decreases ops.len() - k,
{
    lemma_chain_tokens(ns, ops);
    let toks = chain_tokens(ns, ops);
    if k < ops.len() {
        assert(toks[2 * k] == Token::Num(text::decimal(ns[k] as nat)));
        assert(toks[2 * k + 1] == Token::Op(ops[k]));
        assert(toks[2 * (k + 1)] == Token::Num(text::decimal(ns[k + 1] as nat)));
        assert(extract::continues(toks, 2 * k));
        lemma_chain_ops(ns, ops, k + 1);
        assert(2 * k + 2 == 2 * (k + 1));
    }
}

/// The text of a chain of at least two unsigned numbers is read back as exactly
/// that chain.
pub proof fn law_text_reads_back(ns: Seq<int>, ops: Seq<Op>, e: Option<Expr>)
    requires
        ns.len() == ops.len() + 1,
        ops.len() > 0,
        forall|i: int| 0 <= i < ns.len() ==> (#[trigger] ns[i]) >= 0,
        extract::expresses(alu::chain_text(ns, ops), e),
    ensures
        e is Some,
        alu::values(e->0.operands@) == ns,
        e->0.ops@ == ops,
{
    let toks = chain_tokens(ns, ops);
    lemma_chain_text_tokens(ns, ops);
    lemma_chain_tokens(ns, ops);
    lemma_chain_ops(ns, ops, 0);
    assert(extract::chain_ops(toks, 0) == ops.len());
    assert(e is Some);
    let i = choose|i: int| #[trigger]
        extract::longest_at(toks, i) && alu::values(e->0.operands@) == extract::chain_operands(
            toks,
            i,
        ) && e->0.ops@ == extract::chain_operators(toks, i);
    assert(i == 0) by {
        if i < 0 {
            assert(!extract::continues(toks, i));
        } else if i > 0 {
            assert(extract::chain_ops(toks, 0) < extract::chain_ops(toks, i));
            lemma_later_chains_are_shorter(ns, ops, i);
        }
    }
    assert forall|k: int| 0 <= k < ns.len() implies extract::chain_operands(toks, 0)[k]
        == ns[k] by {
        law_digits_spell_the_number(ns[k] as nat);
        assert(toks[2 * k] == Token::Num(text::decimal(ns[k] as nat)));
    }
    assert(extract::chain_operands(toks, 0) =~= ns);
    assert forall|k: int| 0 <= k < ops.len() implies extract::chain_operators(toks, 0)[k]
        == ops[k] by {
        assert(toks[2 * k + 1] == Token::Op(ops[k]));
    }
    assert(extract::chain_operators(toks, 0) =~= ops);
}

proof fn lemma_later_chains_are_shorter(ns: Seq<int>, ops: Seq<Op>, i: int)
    requires
        ns.len() == ops.len() + 1,
        i > 0,
    ensures
        extract::chain_ops(chain_tokens(ns, ops), i) <= ops.len(),
{
    lemma_chain_tokens(ns, ops);
    let toks = chain_tokens(ns, ops);
    if i < toks.len() {
        let k = i / 2;
        if i % 2 == 0 {
            lemma_chain_ops(ns, ops, k);
            assert(2 * k == i);
        } else {
            assert(toks[2 * k + 1] == Token::Op(ops[k]));
            assert(!extract::continues(toks, i));
        }
    } else {
        assert(!extract::continues(toks, i));
    }
}

/// Whether a character can stand in the text of a chain.
spec fn chain_char(c: char) -> bool {
    text::ascii_digit(c) || c == ' ' || c == '+' || c == '-' || c == '*'
}

proof fn lemma_chain_chars(ns: Seq<int>, ops: Seq<Op>)
    requires
        ns.len() == ops.len() + 1,
        forall|i: int| 0 <= i < ns.len() ==> (#[trigger] ns[i]) >= 0,
    ensures
        alu::chain_text(ns, ops).len() > 0,
        text::ascii_digit(alu::chain_text(ns, ops)[0]),
        forall|i: int|
            0 <= i < alu::chain_text(ns, ops).len() ==> chain_char(
                #[trigger] alu::chain_text(ns, ops)[i],
            ),
    decreases ops.len(),
{
    if ops.len() == 0 {
        law_digits_spell_the_number(ns[0] as nat);
    } else {
        let fewer = ns.drop_last();
        assert forall|i: int| 0 <= i < fewer.len() implies (#[trigger] fewer[i]) >= 0 by {
            assert(fewer[i] == ns[i]);
        }
        lemma_chain_chars(fewer, ops.drop_last());
        let a = alu::chain_text(fewer, ops.drop_last());
        let o = alu::op_text(ops.last());
        assert(ns[ns.len() - 1] >= 0);
        let ds = text::decimal(ns.last() as nat);
        law_digits_spell_the_number(ns.last() as nat);
        reveal_strlit(" + ");
        reveal_strlit(" - ");
        reveal_strlit(" * ");
        let whole = alu::chain_text(ns, ops);
        assert(whole =~= a + o + ds);
        assert forall|i: int| 0 <= i < whole.len() implies chain_char(#[trigger] whole[i]) by {
            if i < a.len() {
                assert(whole[i] == a[i]);
            } else if i < a.len() + o.len() {
                assert(whole[i] == o[i - a.len()]);
            } else {
                assert(whole[i] == ds[i - a.len() - o.len()]);
            }
        }
        assert(whole[0] == a[0]);
    }
}

/// All of a bare chain is read when a model answers with it.
pub proof fn law_bare_chain_is_read_whole(ns: Seq<int>, ops: Seq<Op>)
    requires
        ns.len() == ops.len() + 1,
        forall|i: int| 0 <= i < ns.len() ==> (#[trigger] ns[i]) >= 0,
    ensures
        extract::read_of_answer(alu::chain_text(ns, ops)) == alu::chain_text(ns, ops),
{
    let cs = alu::chain_text(ns, ops);
    lemma_chain_chars(ns, ops);
    let n = cs.len() as int;
    assert forall|i: int| 0 <= i < n implies (#[trigger] cs[i]) != '\n' && cs[i] != '=' && cs[i]
        != '\u{ff1d}' by {
        assert(chain_char(cs[i]));
    }
    extract::lemma_before(cs, '\n', '\n', n);
    extract::lemma_before(cs, '=', '\u{ff1d}', n);
    assert(cs.take(n) =~= cs);
}

} // verus!
