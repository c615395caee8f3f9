//! Numbers and names as text.

use vstd::prelude::*;

verus! {

/// The decimal digit of a number below ten.
pub open spec fn digit_char(d: nat) -> char {
    (48 + d) as char
}

/// A natural number in decimal, without leading zeros.
pub open spec fn dec_nat(n: nat) -> Seq<char>
    decreases n,
{
    if n < 10 {
        seq![digit_char(n)]
    } else {
        dec_nat(n / 10).push(digit_char(n % 10))
    }
}

/// An integer in decimal, with a minus sign in front of a negative one.
pub open spec fn dec_int(i: int) -> Seq<char> {
    if i < 0 {
        seq!['-'] + dec_nat((-i) as nat)
    } else {
        dec_nat(i as nat)
    }
}

/// A natural number in decimal, with zeros in front up to a width.
pub open spec fn dec_padded(n: nat, width: nat) -> Seq<char> {
    let digits = dec_nat(n);
    if digits.len() < width {
        Seq::new((width - digits.len()) as nat, |i: int| '0') + digits
    } else {
        digits
    }
}

fn digit_str(d: u64) -> (s: &'static str)
    requires
        d < 10,
    ensures
        s@ == seq![digit_char(d as nat)],
{
    proof {
        reveal_strlit("0");
        reveal_strlit("1");
        reveal_strlit("2");
        reveal_strlit("3");
        reveal_strlit("4");
        reveal_strlit("5");
        reveal_strlit("6");
        reveal_strlit("7");
        reveal_strlit("8");
        reveal_strlit("9");
    }
    let s: &'static str = if d == 0 {
        "0"
    } else if d == 1 {
        "1"
    } else if d == 2 {
        "2"
    } else if d == 3 {
        "3"
    } else if d == 4 {
        "4"
    } else if d == 5 {
        "5"
    } else if d == 6 {
        "6"
    } else if d == 7 {
        "7"
    } else if d == 8 {
        "8"
    } else {
        "9"
    };
    assert(s@ =~= seq![digit_char(d as nat)]);
    s
}

/// Append a number in decimal.
pub fn append_nat(text: &mut String, n: u64)
    ensures
        final(text)@ == old(text)@ + dec_nat(n as nat),
    decreases n,
{
    let ghost before = text@;
    if n >= 10 {
        append_nat(text, n / 10);
    }
    text.append(digit_str(n % 10));
    assert(text@ =~= before + dec_nat(n as nat));
}

/// Append an integer in decimal.
pub fn append_int(text: &mut String, i: i64)
    ensures
        final(text)@ == old(text)@ + dec_int(i as int),
{
    let ghost before = text@;
    if i < 0 {
        proof {
            reveal_strlit("-");
        }
        text.append("-");
        let magnitude: u64 = (-(i + 1)) as u64 + 1;
        append_nat(text, magnitude);
        assert(text@ =~= before + dec_int(i as int));
    } else {
        append_nat(text, i as u64);
    }
}

/// Append a number in decimal, with zeros in front up to four digits.
pub fn append_four_digits(text: &mut String, n: u32)
    ensures
        final(text)@ == old(text)@ + dec_padded(n as nat, 4),
{
    let ghost before = text@;
    proof {
        reveal_strlit("0");
        lemma_dec_len(n as nat);
    }
    if n < 1000 {
        text.append("0");
    }
    if n < 100 {
        text.append("0");
    }
    if n < 10 {
        text.append("0");
    }
    append_nat(text, n as u64);
    assert(text@ =~= before + dec_padded(n as nat, 4));
}

proof fn lemma_dec_len(n: nat)
    ensures
        n < 10 ==> dec_nat(n).len() == 1,
        10 <= n < 100 ==> dec_nat(n).len() == 2,
        100 <= n < 1000 ==> dec_nat(n).len() == 3,
        n >= 1000 ==> dec_nat(n).len() >= 4,
{
    reveal_with_fuel(dec_nat, 4);
    if n >= 1000 {
        lemma_dec_nonempty(n / 1000);
        assert(dec_nat(n) == dec_nat(n / 10).push(digit_char(n % 10)));
        assert(dec_nat(n / 10) == dec_nat(n / 10 / 10).push(digit_char((n / 10) % 10)));
        assert(dec_nat(n / 10 / 10) == dec_nat(n / 10 / 10 / 10).push(
            digit_char((n / 10 / 10) % 10),
        ));
        lemma_dec_nonempty(n / 10 / 10 / 10);
    }
}

proof fn lemma_dec_nonempty(n: nat)
    ensures
        dec_nat(n).len() > 0,
{
}

proof fn lemma_dec_nat_digits(n: nat)
    ensures
        forall|i: int| 0 <= i < dec_nat(n).len() ==> '0' <= #[trigger] dec_nat(n)[i] <= '9',
    decreases n,
{
    if n >= 10 {
        lemma_dec_nat_digits(n / 10);
        let front = dec_nat(n / 10);
        assert forall|i: int| 0 <= i < dec_nat(n).len() implies '0' <= #[trigger] dec_nat(n)[i]
            <= '9' by {
            if i < front.len() {
                assert(dec_nat(n)[i] == front[i]);
            }
        }
    }
}

/// Different numbers have different decimals.
pub proof fn lemma_dec_nat_injective(n: nat, m: nat)
    requires
        dec_nat(n) == dec_nat(m),
    ensures
        n == m,
    decreases n,
{
    let (a, b) = (dec_nat(n), dec_nat(m));
    if n < 10 && m < 10 {
        assert(a[0] == b[0]);
    } else if n < 10 {
        lemma_dec_nonempty(m / 10);
        assert(a.len() == 1);
    } else if m < 10 {
        lemma_dec_nonempty(n / 10);
        assert(b.len() == 1);
    } else {
        assert(a.last() == b.last());
        assert(a.drop_last() =~= dec_nat(n / 10));
        assert(b.drop_last() =~= dec_nat(m / 10));
        lemma_dec_nat_injective(n / 10, m / 10);
    }
}

/// Different integers have different decimals, and none holds a dot.
pub proof fn lemma_dec_int(i: int, j: int)
    ensures
        dec_int(i) == dec_int(j) ==> i == j,
        forall|k: int| 0 <= k < dec_int(i).len() ==> #[trigger] dec_int(i)[k] != '.',
{
    let (m, n) = (
        if i < 0 {
            -i
        } else {
            i
        } as nat,
        if j < 0 {
            -j
        } else {
            j
        } as nat,
    );
    lemma_dec_nat_digits(m);
    lemma_dec_nat_digits(n);
    lemma_dec_nonempty(m);
    lemma_dec_nonempty(n);
    if dec_int(i) == dec_int(j) {
        assert(dec_int(i)[0] == dec_int(j)[0]);
        assert((i < 0) == (j < 0));
        if i < 0 {
            assert(dec_int(i).skip(1) =~= dec_nat(m));
            assert(dec_int(j).skip(1) =~= dec_nat(n));
        }
        lemma_dec_nat_injective(m, n);
    }
}

/// Two texts that agree, and whose first parts have no dot before the dot that
/// ends them, agree in their first parts and in the rest.
pub proof fn lemma_split_at_dot(a: Seq<char>, b: Seq<char>, r: Seq<char>, s: Seq<char>)
    requires
        a + seq!['.'] + r == b + seq!['.'] + s,
        forall|k: int| 0 <= k < a.len() ==> #[trigger] a[k] != '.',
        forall|k: int| 0 <= k < b.len() ==> #[trigger] b[k] != '.',
    ensures
        a == b,
        r == s,
{
    let t = a + seq!['.'] + r;
    let u = b + seq!['.'] + s;
    if a.len() < b.len() {
        assert(t[a.len() as int] == '.');
        assert(u[a.len() as int] == b[a.len() as int]);
    } else if b.len() < a.len() {
        assert(u[b.len() as int] == '.');
        assert(t[b.len() as int] == a[b.len() as int]);
    }
    assert(a =~= t.take(a.len() as int));
    assert(b =~= u.take(a.len() as int));
    assert(r =~= t.skip(a.len() as int + 1));
    assert(s =~= u.skip(a.len() as int + 1));
}

/// The number that decimal digits stand for.
pub open spec fn dec_value(digits: Seq<char>) -> int
    decreases digits.len(),
{
    if digits.len() == 0 {
        0
    } else {
        10 * dec_value(digits.drop_last()) + (digits.last() as int - 48)
    }
}

/// The decimal of a number is made of digits, stands for the number, and has no
/// zero in front of another digit.
pub proof fn law_decimal_reads_back(n: nat)
    ensures
        dec_value(dec_nat(n)) == n,
        forall|i: int| 0 <= i < dec_nat(n).len() ==> '0' <= #[trigger] dec_nat(n)[i] <= '9',
        dec_nat(n).len() > 0,
        dec_nat(n)[0] == '0' ==> dec_nat(n).len() == 1,
    decreases n,
{
    lemma_dec_nat_digits(n);
    let t = dec_nat(n);
    if n < 10 {
        assert(t.drop_last() =~= Seq::empty());
        assert(dec_value(t.drop_last()) == 0);
    } else {
        law_decimal_reads_back(n / 10);
        assert(t.drop_last() =~= dec_nat(n / 10));
        assert(t[0] == dec_nat(n / 10)[0]);
        if dec_nat(n / 10)[0] == '0' {
            let u = dec_nat(n / 10);
            assert(u.drop_last() =~= Seq::empty());
            assert(dec_value(u.drop_last()) == 0);
            assert(dec_value(u) == 0);
        }
    }
}

/// The decimal of an integer stands for it: a negative one has a minus sign and
/// then the digits of its distance from zero.
pub proof fn law_integer_reads_back(i: int)
    ensures
        dec_int(i).len() > 0,
        i >= 0 ==> dec_value(dec_int(i)) == i && '0' <= dec_int(i)[0] <= '9',
        i < 0 ==> dec_int(i)[0] == '-' && dec_value(dec_int(i).skip(1)) == -i,
{
    if i < 0 {
        law_decimal_reads_back((-i) as nat);
        assert(dec_int(i).skip(1) =~= dec_nat((-i) as nat));
    } else {
        law_decimal_reads_back(i as nat);
    }
}

/// Zeros in front change nothing of what digits stand for.
proof fn lemma_zeros_in_front(k: nat, digits: Seq<char>)
    ensures
        dec_value(Seq::new(k, |i: int| '0') + digits) == dec_value(digits),
    decreases k + digits.len(),
{
    let zeros = Seq::new(k, |i: int| '0');
    let all = zeros + digits;
    if digits.len() > 0 {
        assert(all.drop_last() =~= zeros + digits.drop_last());
        lemma_zeros_in_front(k, digits.drop_last());
    } else if k > 0 {
        let fewer = Seq::new((k - 1) as nat, |i: int| '0');
        assert(all.drop_last() =~= fewer + digits);
        lemma_zeros_in_front((k - 1) as nat, digits);
    } else {
        assert(all =~= digits);
    }
}

/// A padded decimal stands for its number, is at least as wide as asked, and has
/// a zero in front only where it would be narrower.
pub proof fn law_padded_reads_back(n: nat, width: nat)
    ensures
        dec_value(dec_padded(n, width)) == n,
        dec_padded(n, width).len() >= width,
        dec_padded(n, width).len() > width && dec_padded(n, width).len() > 1
            ==> dec_padded(n, width)[0] != '0',
        forall|i: int|
            0 <= i < dec_padded(n, width).len() ==> '0' <= #[trigger] dec_padded(n, width)[i]
                <= '9',
{
    law_decimal_reads_back(n);
    let digits = dec_nat(n);
    if digits.len() < width {
        lemma_zeros_in_front((width - digits.len()) as nat, digits);
        assert forall|i: int| 0 <= i < dec_padded(n, width).len() implies '0'
            <= #[trigger] dec_padded(n, width)[i] <= '9' by {
            let z = (width - digits.len()) as int;
            if i >= z {
                assert(dec_padded(n, width)[i] == digits[i - z]);
            }
        }
    }
}

} // verus!
