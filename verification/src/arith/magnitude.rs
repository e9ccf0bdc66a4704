//! Natural numbers as decimal digits, least significant first.

use vstd::prelude::*;

verus! {

/// Ten to the power `n`.
pub open spec fn pow10(n: nat) -> nat
    decreases n,
{
    if n == 0 {
        1
    } else {
        10 * pow10((n - 1) as nat)
    }
}

/// Whether every entry is a decimal digit.
pub open spec fn all_digits(ds: Seq<u8>) -> bool {
    forall|i: int| 0 <= i < ds.len() ==> (#[trigger] ds[i]) < 10
}

/// Whether the digits have no leading zero, so that zero has no digits.
pub open spec fn trimmed(ds: Seq<u8>) -> bool {
    ds.len() > 0 ==> ds.last() > 0
}

/// The number that the digits stand for.
pub open spec fn value(ds: Seq<u8>) -> nat
    decreases ds.len(),
{
    if ds.len() == 0 {
        0
    } else {
        ds[0] as nat + 10 * value(ds.drop_first())
    }
}

/// Digit `i`, zero past the end.
pub open spec fn digit_at(ds: Seq<u8>, i: int) -> nat {
    if 0 <= i < ds.len() {
        ds[i] as nat
    } else {
        0
    }
}

/// The number that the lowest `n` digits stand for.
pub open spec fn low_value(ds: Seq<u8>, n: nat) -> nat {
    if n <= ds.len() {
        value(ds.take(n as int))
    } else {
        value(ds)
    }
}

pub proof fn lemma_value_push(ds: Seq<u8>, d: u8)
    ensures
        value(ds.push(d)) == value(ds) + d * pow10(ds.len()),
    decreases ds.len(),
{
    if ds.len() == 0 {
        assert(ds.push(d).drop_first() =~= Seq::<u8>::empty());
        assert(value(ds.push(d).drop_first()) == 0);
        assert(d * pow10(0) == d) by {
            assert(pow10(0) == 1);
        }
    } else {
        lemma_value_push(ds.drop_first(), d);
        assert(ds.push(d).drop_first() =~= ds.drop_first().push(d));
        let p = pow10((ds.len() - 1) as nat);
        assert(10 * (d * p) == d * (10 * p)) by (nonlinear_arith);
    }
}

pub proof fn lemma_value_bound(ds: Seq<u8>)
    requires
        all_digits(ds),
    ensures
        value(ds) < pow10(ds.len()),
    decreases ds.len(),
{
    if ds.len() > 0 {
        assert(all_digits(ds.drop_first())) by {
            assert forall|i: int| 0 <= i < ds.drop_first().len() implies (
            #[trigger] ds.drop_first()[i]) < 10 by {
                assert(ds.drop_first()[i] == ds[i + 1]);
            }
        }
        lemma_value_bound(ds.drop_first());
    }
}

proof fn lemma_low_value_step(ds: Seq<u8>, n: nat)
    ensures
        low_value(ds, n + 1) == low_value(ds, n) + digit_at(ds, n as int) * pow10(n),
{
    if n < ds.len() {
        lemma_value_push(ds.take(n as int), ds[n as int]);
        assert(ds.take(n as int + 1) =~= ds.take(n as int).push(ds[n as int]));
    } else {
        assert(ds.take(ds.len() as int) =~= ds);
        assert(0 * pow10(n) == 0);
    }
}

proof fn lemma_low_value_bound(ds: Seq<u8>, n: nat)
    requires
        all_digits(ds),
    ensures
        low_value(ds, n) < pow10(n),
    decreases n,
{
    if n <= ds.len() {
        lemma_value_bound(ds.take(n as int));
    } else {
        lemma_low_value_bound(ds, (n - 1) as nat);
        assert(ds.take(ds.len() as int) =~= ds);
    }
}

proof fn lemma_low_value_all(ds: Seq<u8>, n: nat)
    requires
        n >= ds.len(),
    ensures
        low_value(ds, n) == value(ds),
{
    assert(ds.take(ds.len() as int) =~= ds);
}

/// Digit `i`, zero past the end.
fn digit(ds: &Vec<u8>, i: usize) -> (d: u8)
    ensures
        d == digit_at(ds@, i as int),
        all_digits(ds@) ==> d < 10,
{
    if i < ds.len() {
        ds[i]
    } else {
        0
    }
}

/// The larger of two lengths.
fn longer(a: &Vec<u8>, b: &Vec<u8>) -> (n: usize)
    ensures
        n >= a@.len(),
        n >= b@.len(),
        n == a@.len() || n == b@.len(),
{
    if a.len() >= b.len() {
        a.len()
    } else {
        b.len()
    }
}

/// Drops leading zeros.
pub fn trim(ds: &mut Vec<u8>)
    requires
        all_digits(old(ds)@),
    ensures
        all_digits(final(ds)@),
        trimmed(final(ds)@),
        value(final(ds)@) == value(old(ds)@),
{
    while ds.len() > 0 && ds[ds.len() - 1] == 0
        invariant
            all_digits(ds@),
            value(ds@) == value(old(ds)@),
        decreases ds@.len(),
    {
        let ghost before: Seq<u8> = ds@;
        ds.pop();
        proof {
            assert(before =~= ds@.push(0));
            lemma_value_push(ds@, 0);
            assert(0 * pow10(ds@.len()) == 0);
        }
    }
}

/// The sum.
pub fn add(a: &Vec<u8>, b: &Vec<u8>) -> (r: Vec<u8>)
    requires
        all_digits(a@),
        all_digits(b@),
    ensures
        all_digits(r@),
        trimmed(r@),
        value(r@) == value(a@) + value(b@),
{
    let n: usize = longer(a, b);
    let mut r: Vec<u8> = Vec::new();
    let mut carry: u8 = 0;
    assert(0 * pow10(0) == 0);
    for i in 0..n
        invariant
            all_digits(a@),
            all_digits(b@),
            all_digits(r@),
            r@.len() == i,
            carry <= 1,
            value(r@) + carry * pow10(i as nat) == low_value(a@, i as nat) + low_value(
                b@,
                i as nat,
            ),
    {
        let x: u8 = digit(a, i);
        let y: u8 = digit(b, i);
        let s: u8 = x + y + carry;
        proof {
            lemma_low_value_step(a@, i as nat);
            lemma_low_value_step(b@, i as nat);
            lemma_value_push(r@, (s % 10) as u8);
            let p = pow10(i as nat);
            assert((s % 10) * p + (s / 10) * (10 * p) == x * p + y * p + carry * p)
                by (nonlinear_arith)
                requires
                    s == x + y + carry,
                    s == (s % 10) + 10 * (s / 10),
            ;
        }
        r.push(s % 10);
        carry = s / 10;
    }
    proof {
        lemma_low_value_all(a@, n as nat);
        lemma_low_value_all(b@, n as nat);
        lemma_value_push(r@, carry);
    }
    r.push(carry);
    trim(&mut r);
    r
}

/// The difference of a number and one that is not larger.
pub fn sub(a: &Vec<u8>, b: &Vec<u8>) -> (r: Vec<u8>)
    requires
        all_digits(a@),
        all_digits(b@),
        value(a@) >= value(b@),
    ensures
        all_digits(r@),
        trimmed(r@),
        value(r@) == value(a@) - value(b@),
{
    let n: usize = longer(a, b);
    let mut r: Vec<u8> = Vec::new();
    let mut borrow: u8 = 0;
    assert(0 * pow10(0) == 0);
    for i in 0..n
        invariant
            all_digits(a@),
            all_digits(b@),
            all_digits(r@),
            r@.len() == i,
            borrow <= 1,
            value(r@) + low_value(b@, i as nat) == low_value(a@, i as nat) + borrow * pow10(
                i as nat,
            ),
    {
        let x: u8 = digit(a, i);
        let y: u8 = digit(b, i) + borrow;
        let next: u8 = if x < y {
            1
        } else {
            0
        };
        let d: u8 = x + 10 * next - y;
        proof {
            lemma_low_value_step(a@, i as nat);
            lemma_low_value_step(b@, i as nat);
            lemma_value_push(r@, d);
            let p = pow10(i as nat);
            let y0 = digit_at(b@, i as int);
            assert(d * p + y0 * p + borrow * p == x * p + next * (10 * p)) by (nonlinear_arith)
                requires
                    d == x + 10 * next - y,
                    y == y0 + borrow,
            ;
        }
        r.push(d);
        borrow = next;
    }
    proof {
        lemma_low_value_all(a@, n as nat);
        lemma_low_value_all(b@, n as nat);
        lemma_value_bound(r@);
        if borrow == 1 {
            assert(1 * pow10(n as nat) == pow10(n as nat));
        } else {
            assert(0 * pow10(n as nat) == 0);
        }
    }
    trim(&mut r);
    r
}

/// Whether one number is smaller than another.
pub fn less(a: &Vec<u8>, b: &Vec<u8>) -> (r: bool)
    requires
        all_digits(a@),
        all_digits(b@),
    ensures
        r == (value(a@) < value(b@)),
{
    let n: usize = longer(a, b);
    let mut r: bool = false;
    for i in 0..n
        invariant
            all_digits(a@),
            all_digits(b@),
            r == (low_value(a@, i as nat) < low_value(b@, i as nat)),
    {
        let x: u8 = digit(a, i);
        let y: u8 = digit(b, i);
        proof {
            lemma_low_value_step(a@, i as nat);
            lemma_low_value_step(b@, i as nat);
            lemma_low_value_bound(a@, i as nat);
            lemma_low_value_bound(b@, i as nat);
            let p = pow10(i as nat);
            if x < y {
                assert((x + 1) * p <= y * p) by (nonlinear_arith)
                    requires
                        x < y,
                ;
                assert((x + 1) * p == x * p + p) by (nonlinear_arith);
            } else if y < x {
                assert((y + 1) * p <= x * p) by (nonlinear_arith)
                    requires
                        y < x,
                ;
                assert((y + 1) * p == y * p + p) by (nonlinear_arith);
            }
        }
        r = x < y || (x == y && r);
    }
    proof {
        lemma_low_value_all(a@, n as nat);
        lemma_low_value_all(b@, n as nat);
    }
    r
}

/// The product with a digit.
fn scale(a: &Vec<u8>, d: u8) -> (r: Vec<u8>)
    requires
        all_digits(a@),
        d < 10,
    ensures
        all_digits(r@),
        value(r@) == value(a@) * d,
{
    let mut r: Vec<u8> = Vec::new();
    let mut carry: u8 = 0;
    assert(0 * pow10(0) == 0);
    assert(low_value(a@, 0) == 0);
    for i in 0..a.len()
        invariant
            all_digits(a@),
            all_digits(r@),
            d < 10,
            r@.len() == i,
            carry < 10,
            value(r@) + carry * pow10(i as nat) == low_value(a@, i as nat) * d,
    {
        let x: u8 = a[i];
        assert(x * d <= 81) by (nonlinear_arith)
            requires
                x < 10,
                d < 10,
        ;
        let s: u8 = x * d + carry;
        proof {
            lemma_low_value_step(a@, i as nat);
            lemma_value_push(r@, (s % 10) as u8);
            let p = pow10(i as nat);
            let low = low_value(a@, i as nat);
            assert((s % 10) * p + (s / 10) * (10 * p) == (x * d) * p + carry * p)
                by (nonlinear_arith)
                requires
                    s == x * d + carry,
                    s == (s % 10) + 10 * (s / 10),
            ;
            assert((low + x * p) * d == low * d + (x * d) * p) by (nonlinear_arith);
        }
        r.push(s % 10);
        carry = s / 10;
    }
    proof {
        lemma_low_value_all(a@, a@.len());
        lemma_value_push(r@, carry);
    }
    r.push(carry);
    r
}

/// The product.
pub fn mul(a: &Vec<u8>, b: &Vec<u8>) -> (r: Vec<u8>)
    requires
        all_digits(a@),
        all_digits(b@),
    ensures
        all_digits(r@),
        trimmed(r@),
        value(r@) == value(a@) * value(b@),
{
    let mut r: Vec<u8> = Vec::new();
    let mut i: usize = a.len();
    assert(a@.skip(i as int) =~= Seq::<u8>::empty());
    assert(0 * value(b@) == 0);
    while i > 0
        invariant
            all_digits(a@),
            all_digits(b@),
            all_digits(r@),
            trimmed(r@),
            i <= a@.len(),
            value(r@) == value(a@.skip(i as int)) * value(b@),
        decreases i,
    {
        let ghost before: Seq<u8> = r@;
        i -= 1;
        r.insert(0, 0);
        proof {
            assert(r@.drop_first() =~= before);
            assert(a@.skip(i as int).drop_first() =~= a@.skip(i + 1));
        }
        let part: Vec<u8> = scale(b, a[i]);
        proof {
            let x = a@[i as int];
            let rest = value(a@.skip(i + 1));
            let y = value(b@);
            assert((x + 10 * rest) * y == 10 * (rest * y) + y * x) by (nonlinear_arith);
        }
        r = self::add(&r, &part);
    }
    assert(a@.skip(0) =~= a@);
    r
}

} // verus!
