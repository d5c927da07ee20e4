use vstd::prelude::*;

verus! {

/// The ASCII decimal text of `n`, without leading zeros (what `format!("{}", n)` writes).
pub open spec fn decimal_text(n: nat) -> Seq<u8>
    decreases n,
{
    if n < 10 {
        seq![(48 + n) as u8]
    } else {
        decimal_text(n / 10).push((48 + n % 10) as u8)
    }
}

/// Decimal text is made of ASCII digits only.
pub proof fn lemma_decimal_text_digits(n: nat)
    ensures
        decimal_text(n).len() > 0,
        forall|i: int| 0 <= i < decimal_text(n).len() ==> 48 <= #[trigger] decimal_text(n)[i] <= 57,
    decreases n,
{
    if n >= 10 {
        lemma_decimal_text_digits(n / 10);
    }
}

/// The number that the ASCII digits `s` spell in base ten, most significant first.
pub open spec fn digits_value(s: Seq<u8>) -> nat
    decreases s.len(),
{
    if s.len() == 0 {
        0
    } else {
        digits_value(s.drop_last()) * 10 + (s.last() - 48) as nat
    }
}

/// The decimal text of `n` spells `n`, and starts with a zero only where `n` is zero.
pub proof fn lemma_decimal_text_value(n: nat)
    ensures
        digits_value(decimal_text(n)) == n,
        decimal_text(n)[0] == 48 <==> n == 0,
    decreases n,
{
    lemma_decimal_text_digits(n);
    if n >= 10 {
        lemma_decimal_text_value(n / 10);
        lemma_decimal_text_digits(n / 10);
        let t = decimal_text(n);
        assert(t.drop_last() =~= decimal_text(n / 10));
        assert(t[0] == decimal_text(n / 10)[0]);
        assert((n / 10) * 10 + n % 10 == n);
        assert(t.last() == (48 + n % 10) as u8);
        assert(((48 + n % 10) as u8) as int == 48 + n % 10);
        assert(digits_value(t) == digits_value(t.drop_last()) * 10 + (t.last() - 48) as nat);
    } else {
        let t = decimal_text(n);
        assert(t.drop_last() =~= Seq::<u8>::empty());
        assert(((48 + n) as u8) as int == 48 + n);
        assert(digits_value(t) == digits_value(t.drop_last()) * 10 + (t.last() - 48) as nat);
    }
}

/// The ASCII decimal text of `n`.
pub fn decimal(n: usize) -> (res: Vec<u8>)
    ensures
        res@ == decimal_text(n as nat),
{
    let mut m = n;
    let mut rev: Vec<u8> = Vec::new();
    while m >= 10
        invariant
            decimal_text(n as nat) == decimal_text(m as nat) + rev@.reverse(),
        decreases m,
    {
        let d = (m % 10) as u8;
        proof {
            assert(decimal_text(m as nat) == decimal_text((m / 10) as nat).push((48 + m % 10) as u8));
            assert(rev@.push((48 + d) as u8).reverse() =~= seq![(48 + d) as u8] + rev@.reverse());
            assert(decimal_text(m as nat) + rev@.reverse() =~= decimal_text((m / 10) as nat) + rev@.push((48 + d) as u8).reverse());
        }
        rev.push(48 + d);
        m = m / 10;
    }
    proof {
        assert(rev@.push((48 + m) as u8).reverse() =~= seq![(48 + m) as u8] + rev@.reverse());
    }
    rev.push((48 + m) as u8);
    let mut out: Vec<u8> = Vec::new();
    let k = rev.len();
    let mut i = k;
    while i > 0
        invariant
            i <= k,
            k == rev@.len(),
            out@ == rev@.reverse().subrange(0, (k - i) as int),
        decreases i,
    {
        i = i - 1;
        out.push(rev[i]);
        proof {
            assert(out@ =~= rev@.reverse().subrange(0, (k - i) as int));
        }
    }
    proof {
        assert(out@ =~= rev@.reverse());
    }
    out
}

} // verus!
