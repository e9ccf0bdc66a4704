//! Characters, order of strings, and decimal rendering.

use vstd::prelude::*;
use vstd::string::*;

verus! {

/// Whether `c` is one of the characters with the Unicode property
/// `White_Space`.
pub open spec fn white_space(c: char) -> bool {
    ||| '\u{9}' <= c <= '\u{d}'
    ||| c == ' '
    ||| c == '\u{85}'
    ||| c == '\u{a0}'
    ||| c == '\u{1680}'
    ||| '\u{2000}' <= c <= '\u{200a}'
    ||| c == '\u{2028}'
    ||| c == '\u{2029}'
    ||| c == '\u{202f}'
    ||| c == '\u{205f}'
    ||| c == '\u{3000}'
}

/// Whether `c` is an ASCII digit.
pub open spec fn ascii_digit(c: char) -> bool {
    '0' <= c <= '9'
}

/// Whether `c` is white space.
pub fn is_white_space(c: char) -> (b: bool)
    ensures
        b == white_space(c),
{
    ('\u{9}' <= c && c <= '\u{d}') || c == ' ' || c == '\u{85}' || c == '\u{a0}' || c == '\u{1680}'
        || ('\u{2000}' <= c && c <= '\u{200a}') || c == '\u{2028}' || c == '\u{2029}' || c
        == '\u{202f}' || c == '\u{205f}' || c == '\u{3000}'
}

/// Whether `c` is an ASCII digit.
pub fn is_digit(c: char) -> (b: bool)
    ensures
        b == ascii_digit(c),
{
    '0' <= c && c <= '9'
}

/// The characters of a string.
pub fn chars_of(s: &str) -> (v: Vec<char>)
    ensures
        v@ == s@,
{
    let mut v: Vec<char> = Vec::new();
    for c in it: s.chars()
        invariant
            v@ == s@.take(it.index() as int),
            it.seq() == s@,
    {
        v.push(c);
    }
    v
}

/// The order of strings: by the first character that differs, and a proper
/// prefix comes first.
pub open spec fn text_lt(a: Seq<char>, b: Seq<char>) -> bool
    decreases a.len(),
{
    if b.len() == 0 {
        false
    } else if a.len() == 0 {
        true
    } else if a[0] != b[0] {
        a[0] < b[0]
    } else {
        text_lt(a.drop_first(), b.drop_first())
    }
}

/// No string comes before itself.
pub proof fn lemma_text_lt_irreflexive(a: Seq<char>)
    ensures
        !text_lt(a, a),
    decreases a.len(),
{
    if a.len() > 0 {
        lemma_text_lt_irreflexive(a.drop_first());
    }
}

/// Of two different strings, one comes before the other.
pub proof fn lemma_text_lt_total(a: Seq<char>, b: Seq<char>)
    ensures
        text_lt(a, b) || text_lt(b, a) || a == b,
    decreases a.len(),
{
    if a.len() > 0 && b.len() > 0 && a[0] == b[0] {
        lemma_text_lt_total(a.drop_first(), b.drop_first());
        if a.drop_first() == b.drop_first() {
            assert(a =~= seq![a[0]] + a.drop_first());
            assert(b =~= seq![b[0]] + b.drop_first());
        }
    } else if a.len() == 0 && b.len() == 0 {
        assert(a =~= b);
    }
}

/// What comes before an earlier string comes before a later one.
pub proof fn lemma_text_lt_transitive(a: Seq<char>, b: Seq<char>, c: Seq<char>)
    requires
        text_lt(a, b),
        text_lt(b, c),
    ensures
        text_lt(a, c),
    decreases a.len(),
{
    if a.len() > 0 && a[0] == b[0] && b[0] == c[0] {
        lemma_text_lt_transitive(a.drop_first(), b.drop_first(), c.drop_first());
    }
}

/// Whether one string comes before another.
pub fn comes_before(a: &str, b: &str) -> (r: bool)
    ensures
        r == text_lt(a@, b@),
{
    let x: Vec<char> = chars_of(a);
    let y: Vec<char> = chars_of(b);
    let mut i: usize = 0;
    assert(a@.skip(0) =~= a@);
    assert(b@.skip(0) =~= b@);
    while i < x.len() && i < y.len() && x[i] == y[i]
        invariant
            x@ == a@,
            y@ == b@,
            i <= x@.len(),
            i <= y@.len(),
            text_lt(a@, b@) == text_lt(a@.skip(i as int), b@.skip(i as int)),
        decreases x@.len() - i,
    {
        assert(a@.skip(i as int).drop_first() =~= a@.skip(i + 1));
        assert(b@.skip(i as int).drop_first() =~= b@.skip(i + 1));
        i += 1;
    }
    if i >= y.len() {
        false
    } else if i >= x.len() {
        true
    } else {
        x[i] < y[i]
    }
}

/// The character of a decimal digit.
pub open spec fn digit_char(d: nat) -> char {
    ('0' as nat + d) as char
}

/// The decimal digits of a number, most significant first.
pub open spec fn decimal(n: nat) -> Seq<char>
    decreases n,
{
    if n < 10 {
        seq![digit_char(n)]
    } else {
        decimal(n / 10).push(digit_char(n % 10))
    }
}

/// Appends one decimal digit.
pub fn push_digit(out: &mut String, d: u8)
    requires
        d < 10,
    ensures
        final(out)@ == old(out)@.push(digit_char(d as nat)),
{
    proof {
        reveal_strlit("0");
        reveal_strlit("1");
        reveal_strlit("2");
        reveal_strlit("3");
        reveal_strlit("4");
        reveal_strlit("5");
        reveal_strlit("6");
        reveal_strlit("7");
        reveal_strlit("8");
        reveal_strlit("9");
    }
    let ghost before: Seq<char> = out@;
    match d {
        0 => out.append("0"),
        1 => out.append("1"),
        2 => out.append("2"),
        3 => out.append("3"),
        4 => out.append("4"),
        5 => out.append("5"),
        6 => out.append("6"),
        7 => out.append("7"),
        8 => out.append("8"),
        _ => out.append("9"),
    }
    assert(out@ =~= before.push(digit_char(d as nat)));
}

/// Appends the decimal digits of a number.
pub fn push_decimal(out: &mut String, n: u128)
    ensures
        final(out)@ == old(out)@ + decimal(n as nat),
    decreases n,
{
    let ghost before: Seq<char> = out@;
    if n >= 10 {
        push_decimal(out, n / 10);
    }
    push_digit(out, (n % 10) as u8);
    assert(out@ =~= before + decimal(n as nat));
}

/// Whether two strings agree before place `n`, and the first one ends there
/// while the second goes on, or has the smaller character there.
pub open spec fn parts_at(a: Seq<char>, b: Seq<char>, n: int) -> bool {
    &&& 0 <= n <= a.len()
    &&& n < b.len()
    &&& forall|k: int| 0 <= k < n ==> a[k] == #[trigger] b[k]
    &&& n < a.len() ==> a[n] < b[n]
}

/// One string comes before another exactly when it is a proper prefix of it, or
/// has the smaller character at the first place where they differ.
pub proof fn law_first_difference_decides(a: Seq<char>, b: Seq<char>)
    ensures
        text_lt(a, b) == exists|n: int| parts_at(a, b, n),
    decreases a.len(),
{
    if b.len() > 0 && a.len() > 0 && a[0] == b[0] {
        let x = a.drop_first();
        let y = b.drop_first();
        law_first_difference_decides(x, y);
        if text_lt(x, y) {
            let n = choose|n: int| parts_at(x, y, n);
            assert forall|k: int| 0 <= k < n + 1 implies a[k] == #[trigger] b[k] by {
                if k > 0 {
                    assert(x[k - 1] == y[k - 1]);
                }
            }
            assert(parts_at(a, b, n + 1));
        }
        if exists|n: int| parts_at(a, b, n) {
            let n = choose|n: int| parts_at(a, b, n);
            assert forall|k: int| 0 <= k < n - 1 implies x[k] == #[trigger] y[k] by {
                assert(a[k + 1] == b[k + 1]);
            }
            assert(n > 0);
            assert(parts_at(x, y, n - 1));
        }
    } else if b.len() > 0 {
        if text_lt(a, b) {
            assert(parts_at(a, b, 0));
        }
        if exists|n: int| parts_at(a, b, n) {
            let n = choose|n: int| parts_at(a, b, n);
            if n > 0 {
                assert(a[0] == b[0]);
            }
        }
    }
}

/// The code points of white space: five control characters from the tab on, the
/// blank, the next line and the no-break space, eleven blanks of typesetting in
/// a row, and six others.
pub open spec fn blank_code(n: int) -> bool {
    ||| n == 9 || n == 10 || n == 11 || n == 12 || n == 13
    ||| n == 32 || n == 133 || n == 160 || n == 5760
    ||| n == 8192 || n == 8193 || n == 8194 || n == 8195 || n == 8196 || n == 8197
    ||| n == 8198 || n == 8199 || n == 8200 || n == 8201 || n == 8202
    ||| n == 8232 || n == 8233 || n == 8239 || n == 8287 || n == 12288
}

/// White space is what has one of these code points. No digit is white space.
pub proof fn law_white_space_is_listed(c: char)
    ensures
        white_space(c) == blank_code(c as int),
        white_space(c) ==> !ascii_digit(c),
{
}

} // verus!
