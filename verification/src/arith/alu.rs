//! Exact integers of any size, and flat expressions over them.

use vstd::prelude::*;
use vstd::string::*;

use crate::arith::magnitude;
use crate::text;

verus! {

/// An integer of any size.
pub struct BigInt {
    negative: bool,
    digits: Vec<u8>,
}

/// An operator between two operands.
#[derive(Clone, Copy, PartialEq, Eq, Structural, Debug)]
pub enum Op {
    Add,
    Sub,
    Mul,
}

/// A chain of operands with an operator between each two.
pub struct Expr {
    pub operands: Vec<BigInt>,
    pub ops: Vec<Op>,
}

/// The number that a string of digits spells.
pub open spec fn spelled(cs: Seq<char>) -> nat
    decreases cs.len(),
{
    if cs.len() == 0 {
        0
    } else {
        10 * spelled(cs.drop_last()) + (cs.last() as nat - '0' as nat) as nat
    }
}

/// Whether a string is made of digits, at least one.
pub open spec fn spells_number(cs: Seq<char>) -> bool {
    &&& cs.len() > 0
    &&& forall|i: int| 0 <= i < cs.len() ==> text::ascii_digit(#[trigger] cs[i])
}

/// The usual text of an integer: a minus sign where it is negative, and decimal
/// digits without leading zeros.
pub open spec fn int_text(n: int) -> Seq<char> {
    if n < 0 {
        "-"@ + text::decimal((-n) as nat)
    } else {
        text::decimal(n as nat)
    }
}

/// The digits of a string of digits, last one first.
spec fn reversed_digits(cs: Seq<char>) -> Seq<u8> {
    Seq::new(cs.len(), |i: int| (cs[cs.len() - 1 - i] as int - '0' as int) as u8)
}

proof fn lemma_spelled(cs: Seq<char>)
    requires
        forall|i: int| 0 <= i < cs.len() ==> text::ascii_digit(#[trigger] cs[i]),
    ensures
        magnitude::all_digits(reversed_digits(cs)),
        magnitude::value(reversed_digits(cs)) == spelled(cs),
    decreases cs.len(),
{
    let ds = reversed_digits(cs);
    assert forall|i: int| 0 <= i < ds.len() implies (#[trigger] ds[i]) < 10 by {
        assert(text::ascii_digit(cs[cs.len() - 1 - i]));
    }
    if cs.len() > 0 {
        lemma_spelled(cs.drop_last());
        assert(ds.drop_first() =~= reversed_digits(cs.drop_last()));
        assert(text::ascii_digit(cs.last()));
    }
}

/// The value of an ASCII digit.
fn digit_value(c: char) -> (d: u8)
    requires
        text::ascii_digit(c),
    ensures
        d == c as int - '0' as int,
{
    (c as u32 - '0' as u32) as u8
}

impl View for BigInt {
    type V = int;

    closed spec fn view(&self) -> int {
        if self.negative {
            -(magnitude::value(self.digits@) as int)
        } else {
            magnitude::value(self.digits@) as int
        }
    }
}

proof fn lemma_trimmed_positive(ds: Seq<u8>)
    requires
        magnitude::trimmed(ds),
        ds.len() > 0,
    ensures
        magnitude::value(ds) > 0,
{
    magnitude::lemma_value_push(ds.drop_last(), ds.last());
    assert(ds.drop_last().push(ds.last()) =~= ds);
    lemma_pow10_positive((ds.len() - 1) as nat);
    let p = magnitude::pow10((ds.len() - 1) as nat);
    let d = ds.last();
    assert(d * p > 0) by (nonlinear_arith)
        requires
            d > 0,
            p > 0,
    ;
}

proof fn lemma_pow10_positive(n: nat)
    ensures
        magnitude::pow10(n) > 0,
    decreases n,
{
    if n > 0 {
        lemma_pow10_positive((n - 1) as nat);
    }
}

impl BigInt {
    #[verifier::type_invariant]
    spec fn canonical(self) -> bool {
        &&& magnitude::all_digits(self.digits@)
        &&& magnitude::trimmed(self.digits@)
        &&& self.negative ==> self.digits@.len() > 0
    }

    /// The integer with the given magnitude, negated where `negative` holds.
    fn signed(negative: bool, digits: Vec<u8>) -> (n: BigInt)
        requires
            magnitude::all_digits(digits@),
            magnitude::trimmed(digits@),
        ensures
            n@ == if negative {
                -(magnitude::value(digits@) as int)
            } else {
                magnitude::value(digits@) as int
            },
    {
        if digits.len() == 0 {
            BigInt { negative: false, digits }
        } else {
            BigInt { negative, digits }
        }
    }

    /// Zero.
    pub fn zero() -> (n: BigInt)
        ensures
            n@ == 0,
    {
        BigInt { negative: false, digits: Vec::new() }
    }

    /// Reads an unsigned decimal number. Anything but digits is refused.
    pub fn parse(cs: &[char]) -> (n: Option<BigInt>)
        ensures
            n is Some == spells_number(cs@),
            n matches Some(n) ==> n@ == spelled(cs@),
    {
        if cs.len() == 0 {
            return None;
        }
        let mut digits: Vec<u8> = Vec::new();
        let mut i: usize = cs.len();
        while i > 0
            invariant
                i <= cs@.len(),
                digits@.len() == cs@.len() - i,
                forall|j: int| i <= j < cs@.len() ==> text::ascii_digit(#[trigger] cs@[j]),
                forall|j: int|
                    0 <= j < digits@.len() ==> (#[trigger] digits@[j]) == cs@[cs@.len() - 1 - j]
                        as int - '0' as int,
            decreases i,
        {
            i -= 1;
            if !text::is_digit(cs[i]) {
                assert(!text::ascii_digit(cs@[i as int]));
                return None;
            }
            digits.push(digit_value(cs[i]));
        }
        proof {
            lemma_spelled(cs@);
            assert(digits@ =~= reversed_digits(cs@));
        }
        magnitude::trim(&mut digits);
        Some(BigInt { negative: false, digits })
    }

    /// The sum.
    pub fn plus(&self, other: &BigInt) -> (n: BigInt)
        ensures
            n@ == self@ + other@,
    {
        proof {
            use_type_invariant(self);
            use_type_invariant(other);
        }
        if self.negative == other.negative {
            BigInt::signed(self.negative, magnitude::add(&self.digits, &other.digits))
        } else if magnitude::less(&self.digits, &other.digits) {
            BigInt::signed(other.negative, magnitude::sub(&other.digits, &self.digits))
        } else {
            BigInt::signed(self.negative, magnitude::sub(&self.digits, &other.digits))
        }
    }

    /// The opposite.
    pub fn negated(&self) -> (n: BigInt)
        ensures
            n@ == -self@,
    {
        proof {
            use_type_invariant(self);
        }
        BigInt::signed(!self.negative, self.digits.clone())
    }

    /// The product.
    pub fn times(&self, other: &BigInt) -> (n: BigInt)
        ensures
            n@ == self@ * other@,
    {
        proof {
            use_type_invariant(self);
            use_type_invariant(other);
            let a = magnitude::value(self.digits@) as int;
            let b = magnitude::value(other.digits@) as int;
            assert((-a) * b == -(a * b)) by (nonlinear_arith);
            assert(a * (-b) == -(a * b)) by (nonlinear_arith);
            assert((-a) * (-b) == a * b) by (nonlinear_arith);
        }
        BigInt::signed(
            self.negative != other.negative,
            magnitude::mul(&self.digits, &other.digits),
        )
    }

    /// A copy.
    pub fn copy(&self) -> (n: BigInt)
        ensures
            n@ == self@,
    {
        proof {
            use_type_invariant(self);
        }
        BigInt::signed(self.negative, self.digits.clone())
    }

    /// The usual decimal text.
    pub fn to_string(&self) -> (s: String)
        ensures
            s@ == int_text(self@),
    {
        proof {
            use_type_invariant(self);
        }
        let mut s: String = "".to_string();
        proof {
            reveal_strlit("");
            if self.digits@.len() > 0 {
                lemma_trimmed_positive(self.digits@);
            }
        }
        if self.negative {
            s.append("-");
        }
        if self.digits.len() == 0 {
            text::push_digit(&mut s, 0);
            assert(s@ =~= text::decimal(0));
            return s;
        }
        let ghost sign: Seq<char> = s@;
        let mut i: usize = self.digits.len();
        while i > 0
            invariant
                i <= self.digits@.len(),
                self.digits@.len() > 0,
                magnitude::all_digits(self.digits@),
                magnitude::trimmed(self.digits@),
                s@ == if i == self.digits@.len() {
                    sign
                } else {
                    sign + text::decimal(magnitude::value(self.digits@.skip(i as int)))
                },
            decreases i,
        {
            i -= 1;
            proof {
                let rest = self.digits@.skip(i + 1);
                assert(self.digits@.skip(i as int).drop_first() =~= rest);
                if rest.len() > 0 {
                    assert(rest.last() == self.digits@.last());
                    lemma_trimmed_positive(rest);
                }
            }
            text::push_digit(&mut s, self.digits[i]);
            assert(s@ =~= sign + text::decimal(magnitude::value(self.digits@.skip(i as int))));
        }
        assert(self.digits@.skip(0) =~= self.digits@);
        assert("-"@ + text::decimal(magnitude::value(self.digits@)) =~= sign + text::decimal(
            magnitude::value(self.digits@),
        ) || !self.negative);
        assert(self.negative || s@ =~= text::decimal(magnitude::value(self.digits@)));
        s
    }
}

/// The values of a sequence of integers.
pub open spec fn values(ns: Seq<BigInt>) -> Seq<int> {
    Seq::new(ns.len(), |i: int| ns[i]@)
}

/// The product of a sequence of integers.
pub open spec fn product(ns: Seq<int>) -> int
    decreases ns.len(),
{
    if ns.len() == 0 {
        1
    } else {
        product(ns.drop_last()) * ns.last()
    }
}

/// The place of the last operator that is not a multiplication, `-1` where
/// there is none.
pub open spec fn last_sum(ops: Seq<Op>) -> int
    decreases ops.len(),
{
    if ops.len() == 0 {
        -1
    } else if ops.last() != Op::Mul {
        ops.len() - 1
    } else {
        last_sum(ops.drop_last())
    }
}

/// The value of a chain. Multiplications bind more tightly than additions and
/// subtractions, which group from the left: the chain is split at its last
/// addition or subtraction, and what follows that is a product.
pub open spec fn chain_value(ns: Seq<int>, ops: Seq<Op>) -> int
    decreases ops.len(),
{
    let k = last_sum(ops);
    if k < 0 {
        product(ns)
    } else {
        proof {
            lemma_last_sum(ops);
        }
        let left = chain_value(ns.take(k + 1), ops.take(k));
        let right = product(ns.skip(k + 1));
        if ops[k] == Op::Add {
            left + right
        } else {
            left - right
        }
    }
}

pub proof fn lemma_last_sum(ops: Seq<Op>)
    ensures
        -1 <= last_sum(ops) < ops.len(),
        last_sum(ops) >= 0 ==> ops[last_sum(ops)] != Op::Mul,
    decreases ops.len(),
{
    if ops.len() > 0 && ops.last() == Op::Mul {
        lemma_last_sum(ops.drop_last());
    }
}

/// The part of a chain's value that comes before its last product.
pub open spec fn head_value(ns: Seq<int>, ops: Seq<Op>) -> int {
    let k = last_sum(ops);
    if k < 0 {
        0
    } else {
        chain_value(ns.take(k + 1), ops.take(k))
    }
}

/// The last product of a chain, with its sign.
pub open spec fn tail_value(ns: Seq<int>, ops: Seq<Op>) -> int {
    let k = last_sum(ops);
    if k < 0 {
        product(ns)
    } else if ops[k] == Op::Add {
        product(ns.skip(k + 1))
    } else {
        -product(ns.skip(k + 1))
    }
}

pub proof fn lemma_chain_step(ns: Seq<int>, ops: Seq<Op>, op: Op, n: int)
    requires
        ns.len() == ops.len() + 1,
    ensures
        head_value(ns, ops) + tail_value(ns, ops) == chain_value(ns, ops),
        op == Op::Mul ==> head_value(ns.push(n), ops.push(op)) == head_value(ns, ops)
            && tail_value(ns.push(n), ops.push(op)) == tail_value(ns, ops) * n,
        op != Op::Mul ==> head_value(ns.push(n), ops.push(op)) == chain_value(ns, ops)
            && tail_value(ns.push(n), ops.push(op)) == if op == Op::Add {
            n
        } else {
            -n
        },
{
    lemma_last_sum(ops);
    lemma_last_sum(ops.push(op));
    assert(ops.push(op).drop_last() =~= ops);
    let k = last_sum(ops);
    let ns2 = ns.push(n);
    if op == Op::Mul {
        if k < 0 {
            assert(ns2.drop_last() =~= ns);
        } else {
            assert(ns2.take(k + 1) =~= ns.take(k + 1));
            assert(ops.push(op).take(k) =~= ops.take(k));
            assert(ns2.skip(k + 1).drop_last() =~= ns.skip(k + 1));
            let p = product(ns.skip(k + 1));
            assert((-p) * n == -(p * n)) by (nonlinear_arith);
        }
    } else {
        let m = ops.len() as int;
        assert(ns2.take(m + 1) =~= ns);
        assert(ops.push(op).take(m) =~= ops);
        assert(ns2.skip(m + 1) =~= seq![n]);
        assert(seq![n].drop_last() =~= Seq::<int>::empty());
        assert(product(Seq::<int>::empty()) == 1);
        assert(product(seq![n]) == n);
    }
}

/// The text of an operator between two operands.
pub open spec fn op_text(op: Op) -> Seq<char> {
    match op {
        Op::Add => " + "@,
        Op::Sub => " - "@,
        Op::Mul => " * "@,
    }
}

/// The text of a chain.
pub open spec fn chain_text(ns: Seq<int>, ops: Seq<Op>) -> Seq<char>
    decreases ops.len(),
{
    if ops.len() == 0 {
        int_text(ns[0])
    } else {
        chain_text(ns.drop_last(), ops.drop_last()) + op_text(ops.last()) + int_text(ns.last())
    }
}

impl Expr {
    /// Whether there is exactly one operator between each two operands.
    pub open spec fn wf(&self) -> bool {
        self.operands@.len() == self.ops@.len() + 1
    }

    /// The value of the expression.
    pub fn eval(&self) -> (n: BigInt)
        requires
            self.wf(),
        ensures
            n@ == chain_value(values(self.operands@), self.ops@),
    {
        let ghost ns: Seq<int> = values(self.operands@);
        let mut head: BigInt = BigInt::zero();
        let mut tail: BigInt = self.operands[0].copy();
        proof {
            assert(ns.take(1) =~= seq![ns[0]]);
            assert(self.ops@.take(0) =~= Seq::<Op>::empty());
            assert(seq![ns[0]].drop_last() =~= Seq::<int>::empty());
            assert(product(Seq::<int>::empty()) == 1);
            assert(product(seq![ns[0]]) == ns[0]);
        }
        for i in 0..self.ops.len()
            invariant
                self.wf(),
                ns == values(self.operands@),
                head@ == head_value(ns.take(i + 1), self.ops@.take(i as int)),
                tail@ == tail_value(ns.take(i + 1), self.ops@.take(i as int)),
        {
            proof {
                lemma_chain_step(
                    ns.take(i + 1),
                    self.ops@.take(i as int),
                    self.ops@[i as int],
                    ns[i + 1],
                );
                assert(ns.take(i + 1).push(ns[i + 1]) =~= ns.take(i + 2));
                assert(self.ops@.take(i as int).push(self.ops@[i as int]) =~= self.ops@.take(
                    i + 1,
                ));
            }
            match self.ops[i] {
                Op::Mul => {
                    tail = tail.times(&self.operands[i + 1]);
                },
                Op::Add => {
                    head = head.plus(&tail);
                    tail = self.operands[i + 1].copy();
                },
                Op::Sub => {
                    head = head.plus(&tail);
                    tail = self.operands[i + 1].negated();
                },
            }
        }
        proof {
            assert(ns.take(ns.len() as int) =~= ns);
            assert(self.ops@.take(self.ops@.len() as int) =~= self.ops@);
            lemma_chain_step(ns, self.ops@, Op::Mul, 0);
        }
        head.plus(&tail)
    }

    /// The expression as text, such as `12 + 7`.
    pub fn to_string(&self) -> (s: String)
        requires
            self.wf(),
        ensures
            s@ == chain_text(values(self.operands@), self.ops@),
    {
        let ghost ns: Seq<int> = values(self.operands@);
        let mut s: String = self.operands[0].to_string();
        for i in 0..self.ops.len()
            invariant
                self.wf(),
                ns == values(self.operands@),
                s@ == chain_text(ns.take(i + 1), self.ops@.take(i as int)),
        {
            match self.ops[i] {
                Op::Add => s.append(" + "),
                Op::Sub => s.append(" - "),
                Op::Mul => s.append(" * "),
            }
            let n: String = self.operands[i + 1].to_string();
            s.append(n.as_str());
            proof {
                assert(ns.take(i + 2).drop_last() =~= ns.take(i + 1));
                assert(self.ops@.take(i + 1).drop_last() =~= self.ops@.take(i as int));
                assert(ns.take(i + 2).last() == ns[i + 1]);
            }
        }
        proof {
            assert(ns.take(ns.len() as int) =~= ns);
            assert(self.ops@.take(self.ops@.len() as int) =~= self.ops@);
        }
        s
    }
}

} // verus!
