//! Arbitrary-precision non-negative integers.
//!
//! A [`BigNat`] stores its value as little-endian decimal digits with no
//! leading zero, so zero is the empty digit vector. The operations here
//! are exactly the ones password generation needs: building a value from
//! a machine integer or a decimal string, subtracting with underflow
//! detection, and reading a value back once it is known to be small.

use vstd::prelude::*;

verus! {

/// Ten to the power `n`.
pub open spec fn pow10(n: nat) -> nat
    decreases n,
{
    if n == 0 {
        1
    } else {
        10 * pow10((n - 1) as nat)
    }
}

/// Every entry of `s` is a decimal digit.
pub open spec fn digits_ok(s: Seq<u8>) -> bool {
    forall|i: int| 0 <= i < s.len() ==> s[i] < 10
}

/// The value of a little-endian decimal digit sequence.
pub open spec fn digits_value(s: Seq<u8>) -> nat
    decreases s.len(),
{
    if s.len() == 0 {
        0
    } else {
        (s[0] + 10 * digits_value(s.skip(1))) as nat
    }
}

/// An arbitrary-precision non-negative integer.
#[derive(Clone, Debug)]
pub struct BigNat {
    digits: Vec<u8>,
}

/// The character is a decimal digit.
pub open spec fn is_decimal_char(c: char) -> bool {
    48 <= c as u32 && c as u32 <= 57
}

/// The string is a decimal numeral: non-empty and digits throughout.
pub open spec fn is_decimal_string(s: Seq<char>) -> bool {
    s.len() > 0 && forall|i: int| 0 <= i < s.len() ==> is_decimal_char(#[trigger] s[i])
}

/// The value of a decimal numeral, most significant digit first.
pub open spec fn decimal_value(s: Seq<char>) -> nat
    decreases s.len(),
{
    if s.len() == 0 {
        0
    } else {
        (decimal_value(s.drop_last()) * 10 + (s.last() as u32 - 48)) as nat
    }
}

/// Peeling the most significant digit off a numeral.
proof fn lemma_decimal_head(t: Seq<char>)
    requires
        t.len() > 0,
        forall|i: int| 0 <= i < t.len() ==> is_decimal_char(#[trigger] t[i]),
    ensures
        decimal_value(t) == (t[0] as u32 - 48) * pow10((t.len() - 1) as nat) + decimal_value(
            t.skip(1),
        ),
    decreases t.len(),
{
    if t.len() == 1 {
        assert(t.drop_last() =~= Seq::<char>::empty());
        assert(t.skip(1) =~= Seq::<char>::empty());
        assert(decimal_value(t.drop_last()) == 0);
        assert(decimal_value(t.skip(1)) == 0);
        assert(pow10(0) == 1);
    } else {
        let l = t.len() as int;
        lemma_decimal_head(t.drop_last());
        assert(t.drop_last()[0] == t[0]);
        assert(t.drop_last().skip(1) =~= t.skip(1).drop_last());
        assert(t.skip(1)[t.skip(1).len() - 1] == t[l - 1]);
        assert(is_decimal_char(t[0]));
        assert(is_decimal_char(t[l - 1]));
        assert(pow10((t.len() - 1) as nat) == 10 * pow10((t.len() - 2) as nat));
        let d0 = t[0] as u32 - 48;
        let dlast = t[l - 1] as u32 - 48;
        assert(decimal_value(t) == decimal_value(t.drop_last()) * 10 + dlast);
        assert(decimal_value(t.skip(1)) == decimal_value(t.skip(1).drop_last()) * 10 + dlast);
        assert(decimal_value(t.drop_last()) == d0 * pow10((t.len() - 2) as nat) + decimal_value(
            t.skip(1).drop_last(),
        ));
        assert((d0 * pow10((t.len() - 2) as nat)) * 10 == d0 * (10 * pow10(
            (t.len() - 2) as nat,
        ))) by (nonlinear_arith);
    }
}

/// Relies on `str::as_bytes`: it returns the UTF-8 bytes of the string.
/// When they are all below 128 the string is ASCII, one character per
/// byte with the same code; when some byte is 128 or above, some
/// character of the string is not ASCII either.
#[verifier::external_body]
fn ascii_bytes(s: &str) -> (v: Vec<u8>)
    ensures
        (forall|i: int| 0 <= i < v@.len() ==> #[trigger] v@[i] < 128) ==> (s@.len() == v@.len()
            && forall|i: int| 0 <= i < v@.len() ==> s@[i] == (#[trigger] v@[i]) as char),
        !(forall|i: int| 0 <= i < v@.len() ==> #[trigger] v@[i] < 128) ==> (exists|j: int|
            0 <= j < s@.len() && (#[trigger] s@[j]) as u32 >= 128),
{
    s.as_bytes().to_vec()
}

pub proof fn lemma_pow10_pos(n: nat)
    ensures
        pow10(n) >= 1,
    decreases n,
{
    if n > 0 {
        lemma_pow10_pos((n - 1) as nat);
    }
}

pub proof fn lemma_pow10_mono(m: nat, n: nat)
    requires
        m <= n,
    ensures
        pow10(m) <= pow10(n),
    decreases n,
{
    if m < n {
        lemma_pow10_mono(m, (n - 1) as nat);
    }
}

/// Appending a digit at the most-significant end adds `d * pow10(len)`.
pub proof fn lemma_value_push(s: Seq<u8>, d: u8)
    ensures
        digits_value(s.push(d)) == digits_value(s) + d * pow10(s.len()),
    decreases s.len(),
{
    if s.len() == 0 {
        assert(s.push(d).skip(1) =~= Seq::<u8>::empty());
        assert(s.push(d)[0] == d);
        assert(digits_value(s.push(d)) == d + 10 * digits_value(s.push(d).skip(1)));
        assert(digits_value(s.push(d).skip(1)) == 0);
        assert(digits_value(s) == 0);
        assert(pow10(s.len()) == 1);
    } else {
        assert(s.push(d).skip(1) =~= s.skip(1).push(d));
        lemma_value_push(s.skip(1), d);
        assert(s.push(d)[0] == s[0]);
        assert(digits_value(s.push(d)) == s[0] + 10 * digits_value(s.push(d).skip(1)));
        assert(digits_value(s) == s[0] + 10 * digits_value(s.skip(1)));
        assert(pow10(s.len()) == 10 * pow10((s.len() - 1) as nat));
        assert(10 * (digits_value(s.skip(1)) + d * pow10((s.len() - 1) as nat)) == 10
            * digits_value(s.skip(1)) + d * (10 * pow10((s.len() - 1) as nat)))
            by (nonlinear_arith);
    }
}

/// A digit sequence is below `pow10` of its length.
pub proof fn lemma_value_bound(s: Seq<u8>)
    requires
        digits_ok(s),
    ensures
        digits_value(s) < pow10(s.len()),
    decreases s.len(),
{
    if s.len() > 0 {
        lemma_value_bound(s.skip(1));
    }
}

/// A digit sequence with a non-zero most-significant digit reaches
/// `pow10` of its length less one.
pub proof fn lemma_value_lower(s: Seq<u8>)
    requires
        digits_ok(s),
        s.len() > 0,
        s.last() != 0,
    ensures
        digits_value(s) >= pow10((s.len() - 1) as nat),
    decreases s.len(),
{
    if s.len() == 1 {
    } else {
        assert(s.skip(1).last() == s.last());
        lemma_value_lower(s.skip(1));
    }
}

/// One step of a prefix of a digit sequence.
pub proof fn lemma_value_prefix(s: Seq<u8>, i: int)
    requires
        0 <= i < s.len(),
    ensures
        digits_value(s.subrange(0, i + 1)) == digits_value(s.subrange(0, i)) + s[i] * pow10(
            i as nat,
        ),
{
    assert(s.subrange(0, i + 1) =~= s.subrange(0, i).push(s[i]));
    lemma_value_push(s.subrange(0, i), s[i]);
}

impl BigNat {
    /// The digit vector is canonical: decimal digits, no leading zero.
    pub closed spec fn wf(&self) -> bool {
        digits_ok(self.digits@) && (self.digits@.len() > 0 ==> self.digits@.last() != 0)
    }

    /// The mathematical value.
    pub closed spec fn value(&self) -> nat {
        digits_value(self.digits@)
    }

    /// Build a value from a machine integer.
    pub fn from_u64(v: u64) -> (r: BigNat)
        ensures
            r.wf(),
            r.value() == v as nat,
    {
        let mut digits: Vec<u8> = Vec::new();
        let mut x: u64 = v;
        proof {
            assert(digits@.len() == 0);
            assert(digits_value(digits@) == 0);
            assert(pow10(0) == 1);
        }
        while x > 0
            invariant
                digits_ok(digits@),
                (digits@.len() > 0 && x == 0) ==> digits@.last() != 0,
                digits_value(digits@) + (x as nat) * pow10(digits@.len()) == v as nat,
            decreases x,
        {
            let d: u8 = (x % 10) as u8;
            proof {
                lemma_value_push(digits@, d);
                assert((x as nat) * pow10(digits@.len()) == d * pow10(digits@.len()) + ((x
                    / 10) as nat) * (10 * pow10(digits@.len()))) by (nonlinear_arith)
                    requires
                        d == x as nat % 10,
                        x as nat == 10 * ((x as nat) / 10) + (x as nat) % 10,
                ;
            }
            digits.push(d);
            x = x / 10;
        }
        BigNat { digits }
    }

    /// Parse a decimal numeral. Anything but a non-empty all-digit
    /// string is rejected; leading zeros are accepted.
    pub fn from_decimal_str(s: &str) -> (r: Option<BigNat>)
        ensures
            match r {
                Some(b) => b.wf() && is_decimal_string(s@) && b.value() == decimal_value(s@),
                None => !is_decimal_string(s@),
            },
    {
        let bytes = ascii_bytes(s);
        let n = bytes.len();
        if n == 0 {
            return None;
        }
        let mut i: usize = 0;
        while i < n
            invariant
                n == bytes@.len(),
                i <= n,
                forall|k: int| 0 <= k < i ==> 48 <= #[trigger] bytes@[k] <= 57,
                (forall|k: int| 0 <= k < bytes@.len() ==> #[trigger] bytes@[k] < 128) ==> (
                s@.len() == bytes@.len() && forall|k: int|
                    0 <= k < bytes@.len() ==> s@[k] == (#[trigger] bytes@[k]) as char),
                !(forall|k: int| 0 <= k < bytes@.len() ==> #[trigger] bytes@[k] < 128) ==> (
                exists|j: int| 0 <= j < s@.len() && (#[trigger] s@[j]) as u32 >= 128),
            decreases n - i,
        {
            let b = bytes[i];
            if b < 48 || b > 57 {
                proof {
                    if forall|k: int| 0 <= k < bytes@.len() ==> #[trigger] bytes@[k] < 128 {
                        assert(s@[i as int] == bytes@[i as int] as char);
                        assert((bytes@[i as int] as char) as u32 == bytes@[i as int] as u32);
                        assert(!is_decimal_char(s@[i as int]));
                    } else {
                        let j = choose|j: int|
                            0 <= j < s@.len() && (#[trigger] s@[j]) as u32 >= 128;
                        assert(!is_decimal_char(s@[j]));
                    }
                }
                return None;
            }
            i += 1;
        }
        proof {
            assert(forall|k: int| 0 <= k < bytes@.len() ==> #[trigger] bytes@[k] < 128);
            assert(s@.len() == bytes@.len());
            assert forall|q: int|
                0 <= q < s@.len() implies is_decimal_char(#[trigger] s@[q]) && s@[q]
                    == bytes@[q] as char by {
                assert(bytes@[q] < 128);
                assert(s@[q] == bytes@[q] as char);
                assert((bytes@[q] as char) as u32 == bytes@[q] as u32);
            }
        }
        let mut digits: Vec<u8> = Vec::new();
        let mut k: usize = n;
        proof {
            assert(s@.subrange(n as int, n as int) =~= Seq::<char>::empty());
        }
        while k > 0
            invariant
                n == bytes@.len(),
                s@.len() == n,
                k <= n,
                forall|q: int| 0 <= q < n ==> 48 <= #[trigger] bytes@[q] <= 57,
                forall|q: int| 0 <= q < n ==> s@[q] == (#[trigger] bytes@[q]) as char,
                forall|q: int| 0 <= q < s@.len() ==> is_decimal_char(#[trigger] s@[q]),
                digits@.len() == n - k,
                digits_ok(digits@),
                digits_value(digits@) == decimal_value(s@.subrange(k as int, n as int)),
            decreases k,
        {
            k -= 1;
            let d = bytes[k] - 48;
            proof {
                let t = s@.subrange(k as int, n as int);
                assert(t[0] == s@[k as int]);
                assert(forall|q: int| 0 <= q < t.len() ==> is_decimal_char(#[trigger] t[q]));
                lemma_decimal_head(t);
                assert(t.skip(1) =~= s@.subrange(k + 1, n as int));
                assert((bytes@[k as int] as char) as u32 == bytes@[k as int] as u32);
                lemma_value_push(digits@, d);
            }
            digits.push(d);
        }
        proof {
            assert(s@.subrange(0, n as int) =~= s@);
        }
        while digits.len() > 0 && digits[digits.len() - 1] == 0
            invariant
                digits_ok(digits@),
                digits_value(digits@) == decimal_value(s@),
                s@.len() == n,
                forall|q: int| 0 <= q < s@.len() ==> is_decimal_char(#[trigger] s@[q]),
            decreases digits@.len(),
        {
            proof {
                assert(digits@.drop_last().push(digits@.last()) =~= digits@);
                lemma_value_push(digits@.drop_last(), digits@.last());
                assert(digits@.subrange(0, digits@.len() - 1) =~= digits@.drop_last());
            }
            digits.pop();
        }
        Some(BigNat { digits })
    }

    /// An independent copy with the same value.
    pub fn duplicate(&self) -> (r: BigNat)
        requires
            self.wf(),
        ensures
            r.wf(),
            r.value() == self.value(),
    {
        let mut digits: Vec<u8> = Vec::new();
        let mut i: usize = 0;
        while i < self.digits.len()
            invariant
                i <= self.digits@.len(),
                digits@ =~= self.digits@.subrange(0, i as int),
            decreases self.digits@.len() - i,
        {
            digits.push(self.digits[i]);
            i += 1;
        }
        proof {
            assert(digits@ =~= self.digits@);
        }
        BigNat { digits }
    }

    /// Subtract `other`, or report that it is larger.
    pub fn checked_sub(&self, other: &BigNat) -> (r: Option<BigNat>)
        requires
            self.wf(),
            other.wf(),
        ensures
            match r {
                Some(d) => d.wf() && d.value() + other.value() == self.value(),
                None => self.value() < other.value(),
            },
    {
        let alen = self.digits.len();
        if other.digits.len() > alen {
            proof {
                lemma_value_bound(self.digits@);
                lemma_value_lower(other.digits@);
                lemma_pow10_mono(alen as nat, (other.digits@.len() - 1) as nat);
            }
            return None;
        }
        // Pad the subtrahend's digits to the minuend's width.
        let mut b: Vec<u8> = Vec::new();
        let mut i: usize = 0;
        while i < other.digits.len()
            invariant
                i <= other.digits@.len(),
                b@ =~= other.digits@.subrange(0, i as int),
            decreases other.digits@.len() - i,
        {
            b.push(other.digits[i]);
            i += 1;
        }
        proof {
            assert(b@ =~= other.digits@);
        }
        while b.len() < alen
            invariant
                digits_ok(b@),
                b@.len() <= alen,
                digits_value(b@) == other.value(),
            decreases alen - b@.len(),
        {
            proof {
                lemma_value_push(b@, 0);
            }
            b.push(0);
        }
        // School subtraction with a borrow.
        let mut out: Vec<u8> = Vec::new();
        let mut borrow: u8 = 0;
        let mut i: usize = 0;
        while i < alen
            invariant
                alen == self.digits@.len(),
                b@.len() == alen,
                out@.len() == i,
                i <= alen,
                digits_ok(self.digits@),
                digits_ok(b@),
                digits_ok(out@),
                borrow <= 1,
                digits_value(b@) == other.value(),
                digits_value(out@) + digits_value(b@.subrange(0, i as int)) == digits_value(
                    self.digits@.subrange(0, i as int),
                ) + (borrow as nat) * pow10(i as nat),
            decreases alen - i,
        {
            let da: u8 = self.digits[i];
            let db: u8 = b[i];
            let sub: u8 = db + borrow;
            let ghost borrow_in: u8 = borrow;
            let d: u8;
            if da >= sub {
                d = da - sub;
                borrow = 0;
            } else {
                d = da + 10 - sub;
                borrow = 1;
            }
            proof {
                lemma_value_prefix(self.digits@, i as int);
                lemma_value_prefix(b@, i as int);
                lemma_value_push(out@, d);
                let p = pow10(i as nat);
                assert(d * p + db * p + (borrow_in as nat) * p == da * p + (borrow as nat) * (10
                    * p)) by (nonlinear_arith)
                    requires
                        d + db + borrow_in == da + 10 * borrow,
                ;
            }
            out.push(d);
            i += 1;
        }
        proof {
            assert(self.digits@.subrange(0, alen as int) =~= self.digits@);
            assert(b@.subrange(0, alen as int) =~= b@);
        }
        if borrow == 1 {
            proof {
                lemma_value_bound(out@);
            }
            return None;
        }
        // Drop leading zeros to restore the canonical form.
        while out.len() > 0 && out[out.len() - 1] == 0
            invariant
                digits_ok(out@),
                digits_value(out@) + other.value() == self.value(),
            decreases out@.len(),
        {
            proof {
                assert(out@.drop_last().push(out@.last()) =~= out@);
                lemma_value_push(out@.drop_last(), out@.last());
                assert(out@.subrange(0, out@.len() - 1) =~= out@.drop_last());
            }
            out.pop();
        }
        Some(BigNat { digits: out })
    }

    /// Read back a value already known to be below the chunk bound.
    pub fn to_small(&self) -> (r: usize)
        requires
            self.wf(),
            self.value() < 127,
        ensures
            r == self.value(),
    {
        proof {
            if self.digits@.len() >= 4 {
                lemma_value_lower(self.digits@);
                lemma_pow10_mono(3, (self.digits@.len() - 1) as nat);
                assert(pow10(0) == 1);
                assert(pow10(1) == 10);
                assert(pow10(2) == 100);
                assert(pow10(3) == 1000);
            }
        }
        let n = self.digits.len();
        if n == 0 {
            0
        } else if n == 1 {
            proof {
                let s = self.digits@;
                assert(digits_value(s) == s[0] + 10 * digits_value(s.skip(1)));
                assert(digits_value(s.skip(1)) == 0);
            }
            self.digits[0] as usize
        } else if n == 2 {
            proof {
                let s = self.digits@;
                assert(s.skip(1)[0] == s[1]);
                assert(digits_value(s) == s[0] + 10 * digits_value(s.skip(1)));
                assert(digits_value(s.skip(1)) == s[1] + 10 * digits_value(s.skip(1).skip(1)));
                assert(digits_value(s.skip(1).skip(1)) == 0);
            }
            self.digits[0] as usize + 10 * (self.digits[1] as usize)
        } else {
            proof {
                let s = self.digits@;
                assert(s.skip(1)[0] == s[1]);
                assert(s.skip(1).skip(1)[0] == s.skip(1)[1]);
                assert(s.skip(1)[1] == s[2]);
                assert(digits_value(s) == s[0] + 10 * digits_value(s.skip(1)));
                assert(digits_value(s.skip(1)) == s[1] + 10 * digits_value(s.skip(1).skip(1)));
                assert(digits_value(s.skip(1).skip(1)) == s[2] + 10 * digits_value(
                    s.skip(1).skip(1).skip(1),
                ));
                assert(digits_value(s.skip(1).skip(1).skip(1)) == 0);
            }
            self.digits[0] as usize + 10 * (self.digits[1] as usize) + 100 * (
            self.digits[2] as usize)
        }
    }
}

} // verus!
