//! The three password character categories.
//!
//! Each category is an ordered list of ASCII codes built from fixed
//! inclusive byte ranges: letters (`A`-`Z`, `a`-`z`), symbols (four
//! punctuation ranges) and digits (`0`-`9`). The three categories are
//! pairwise disjoint, which is what makes the character counts of a
//! generated password exact.

use vstd::prelude::*;

verus! {

/// The ASCII codes of one inclusive range, in order.
pub open spec fn spec_range_bytes(lo: u8, hi: u8) -> Seq<u8> {
    if lo > hi {
        Seq::empty()
    } else {
        Seq::new((hi - lo + 1) as nat, |i: int| (lo + i) as u8)
    }
}

/// The ASCII codes of a list of ranges, concatenated in input order.
pub open spec fn spec_gen(ranges: Seq<(u8, u8)>) -> Seq<u8>
    decreases ranges.len(),
{
    if ranges.len() == 0 {
        Seq::empty()
    } else {
        spec_gen(ranges.drop_last()) + spec_range_bytes(ranges.last().0, ranges.last().1)
    }
}

/// The letter category: `A`-`Z` then `a`-`z`.
pub open spec fn letters_seq() -> Seq<u8> {
    spec_gen(seq![(65u8, 90u8), (97u8, 122u8)])
}

/// The symbol category: the four ASCII punctuation ranges.
pub open spec fn symbols_seq() -> Seq<u8> {
    spec_gen(seq![(33u8, 47u8), (58u8, 64u8), (91u8, 96u8), (123u8, 126u8)])
}

/// The digit category: `0`-`9`.
pub open spec fn digits_seq() -> Seq<u8> {
    spec_gen(seq![(48u8, 57u8)])
}

/// The byte is a letter code.
pub open spec fn is_letter_byte(b: u8) -> bool {
    (65 <= b && b <= 90) || (97 <= b && b <= 122)
}

/// The byte is a symbol code.
pub open spec fn is_symbol_byte(b: u8) -> bool {
    (33 <= b && b <= 47) || (58 <= b && b <= 64) || (91 <= b && b <= 96) || (123 <= b && b
        <= 126)
}

/// The byte is a digit code.
pub open spec fn is_digit_byte(b: u8) -> bool {
    48 <= b && b <= 57
}

/// The character is a letter.
pub open spec fn is_letter_char(c: char) -> bool {
    (65 <= c as u32 && c as u32 <= 90) || (97 <= c as u32 && c as u32 <= 122)
}

/// The character is a symbol.
pub open spec fn is_symbol_char(c: char) -> bool {
    (33 <= c as u32 && c as u32 <= 47) || (58 <= c as u32 && c as u32 <= 64) || (91 <= c as u32
        && c as u32 <= 96) || (123 <= c as u32 && c as u32 <= 126)
}

/// The character is a decimal digit.
pub open spec fn is_digit_char(c: char) -> bool {
    48 <= c as u32 && c as u32 <= 57
}

/// How many characters of `s` are letters.
pub open spec fn count_letters(s: Seq<char>) -> nat
    decreases s.len(),
{
    if s.len() == 0 {
        0
    } else {
        count_letters(s.drop_last()) + if is_letter_char(s.last()) {
            1nat
        } else {
            0nat
        }
    }
}

/// How many characters of `s` are symbols.
pub open spec fn count_symbols(s: Seq<char>) -> nat
    decreases s.len(),
{
    if s.len() == 0 {
        0
    } else {
        count_symbols(s.drop_last()) + if is_symbol_char(s.last()) {
            1nat
        } else {
            0nat
        }
    }
}

/// How many characters of `s` are digits.
pub open spec fn count_digits(s: Seq<char>) -> nat
    decreases s.len(),
{
    if s.len() == 0 {
        0
    } else {
        count_digits(s.drop_last()) + if is_digit_char(s.last()) {
            1nat
        } else {
            0nat
        }
    }
}

/// How many bytes of `s` are letter codes.
pub open spec fn bcount_letters(s: Seq<u8>) -> nat
    decreases s.len(),
{
    if s.len() == 0 {
        0
    } else {
        bcount_letters(s.drop_last()) + if is_letter_byte(s.last()) {
            1nat
        } else {
            0nat
        }
    }
}

/// How many bytes of `s` are symbol codes.
pub open spec fn bcount_symbols(s: Seq<u8>) -> nat
    decreases s.len(),
{
    if s.len() == 0 {
        0
    } else {
        bcount_symbols(s.drop_last()) + if is_symbol_byte(s.last()) {
            1nat
        } else {
            0nat
        }
    }
}

/// How many bytes of `s` are digit codes.
pub open spec fn bcount_digits(s: Seq<u8>) -> nat
    decreases s.len(),
{
    if s.len() == 0 {
        0
    } else {
        bcount_digits(s.drop_last()) + if is_digit_byte(s.last()) {
            1nat
        } else {
            0nat
        }
    }
}

/// Every letter code is a letter byte, and the list has all 52 of them.
pub proof fn lemma_letters_seq()
    ensures
        letters_seq().len() == 52,
        forall|i: int| 0 <= i < 52 ==> is_letter_byte(#[trigger] letters_seq()[i]),
{
    let r = seq![(65u8, 90u8), (97u8, 122u8)];
    assert(r.drop_last() =~= seq![(65u8, 90u8)]);
    assert(r.drop_last().drop_last() =~= Seq::<(u8, u8)>::empty());
    assert(spec_gen(r.drop_last().drop_last()) == Seq::<u8>::empty());
    assert(spec_gen(r.drop_last()) == Seq::<u8>::empty() + spec_range_bytes(65, 90));
    assert(spec_gen(r) == spec_gen(r.drop_last()) + spec_range_bytes(97, 122));
    assert(Seq::<u8>::empty() + spec_range_bytes(65, 90) =~= spec_range_bytes(65, 90));
    assert(letters_seq().len() == 52);
    assert forall|i: int| 0 <= i < 52 implies is_letter_byte(#[trigger] letters_seq()[i]) by {
        if i < 26 {
            assert(letters_seq()[i] == spec_range_bytes(65, 90)[i]);
        } else {
            assert(letters_seq()[i] == spec_range_bytes(97, 122)[i - 26]);
        }
    }
}

/// Every symbol code is a symbol byte, and the list has all 32 of them.
pub proof fn lemma_symbols_seq()
    ensures
        symbols_seq().len() == 32,
        forall|i: int| 0 <= i < 32 ==> is_symbol_byte(#[trigger] symbols_seq()[i]),
{
    let r = seq![(33u8, 47u8), (58u8, 64u8), (91u8, 96u8), (123u8, 126u8)];
    let r3 = r.drop_last();
    let r2 = r3.drop_last();
    let r1 = r2.drop_last();
    assert(r1.drop_last() =~= Seq::<(u8, u8)>::empty());
    assert(spec_gen(r1.drop_last()) == Seq::<u8>::empty());
    assert(spec_gen(r1) == Seq::<u8>::empty() + spec_range_bytes(33, 47));
    assert(spec_gen(r2) == spec_gen(r1) + spec_range_bytes(58, 64));
    assert(spec_gen(r3) == spec_gen(r2) + spec_range_bytes(91, 96));
    assert(spec_gen(r) == spec_gen(r3) + spec_range_bytes(123, 126));
    assert(symbols_seq().len() == 32);
    assert forall|i: int| 0 <= i < 32 implies is_symbol_byte(#[trigger] symbols_seq()[i]) by {
        if i < 15 {
            assert(symbols_seq()[i] == spec_range_bytes(33, 47)[i]);
        } else if i < 22 {
            assert(symbols_seq()[i] == spec_range_bytes(58, 64)[i - 15]);
        } else if i < 28 {
            assert(symbols_seq()[i] == spec_range_bytes(91, 96)[i - 22]);
        } else {
            assert(symbols_seq()[i] == spec_range_bytes(123, 126)[i - 28]);
        }
    }
}

/// Every digit code is a digit byte, and the list has all 10 of them.
pub proof fn lemma_digits_seq()
    ensures
        digits_seq().len() == 10,
        forall|i: int| 0 <= i < 10 ==> is_digit_byte(#[trigger] digits_seq()[i]),
{
    let r = seq![(48u8, 57u8)];
    assert(r.drop_last() =~= Seq::<(u8, u8)>::empty());
    assert(spec_gen(r.drop_last()) == Seq::<u8>::empty());
    assert(spec_gen(r) == Seq::<u8>::empty() + spec_range_bytes(48, 57));
    assert(digits_seq().len() == 10);
    assert forall|i: int| 0 <= i < 10 implies is_digit_byte(#[trigger] digits_seq()[i]) by {
        assert(digits_seq()[i] == spec_range_bytes(48, 57)[i]);
    }
}

/// The category counts of a concatenation add up.
pub proof fn lemma_byte_counts_add(a: Seq<u8>, b: Seq<u8>)
    ensures
        bcount_letters(a + b) == bcount_letters(a) + bcount_letters(b),
        bcount_symbols(a + b) == bcount_symbols(a) + bcount_symbols(b),
        bcount_digits(a + b) == bcount_digits(a) + bcount_digits(b),
    decreases b.len(),
{
    if b.len() == 0 {
        assert(a + b =~= a);
    } else {
        lemma_byte_counts_add(a, b.drop_last());
        assert((a + b).drop_last() =~= a + b.drop_last());
        assert((a + b).last() == b.last());
    }
}

/// A sequence of letter codes counts only as letters.
pub proof fn lemma_byte_counts_uniform_letters(s: Seq<u8>)
    requires
        forall|i: int| 0 <= i < s.len() ==> is_letter_byte(#[trigger] s[i]),
    ensures
        bcount_letters(s) == s.len(),
        bcount_symbols(s) == 0,
        bcount_digits(s) == 0,
    decreases s.len(),
{
    if s.len() != 0 {
        lemma_byte_counts_uniform_letters(s.drop_last());
    }
}

/// A sequence of symbol codes counts only as symbols.
pub proof fn lemma_byte_counts_uniform_symbols(s: Seq<u8>)
    requires
        forall|i: int| 0 <= i < s.len() ==> is_symbol_byte(#[trigger] s[i]),
    ensures
        bcount_symbols(s) == s.len(),
        bcount_letters(s) == 0,
        bcount_digits(s) == 0,
    decreases s.len(),
{
    if s.len() != 0 {
        lemma_byte_counts_uniform_symbols(s.drop_last());
    }
}

/// A sequence of digit codes counts only as digits.
pub proof fn lemma_byte_counts_uniform_digits(s: Seq<u8>)
    requires
        forall|i: int| 0 <= i < s.len() ==> is_digit_byte(#[trigger] s[i]),
    ensures
        bcount_digits(s) == s.len(),
        bcount_letters(s) == 0,
        bcount_symbols(s) == 0,
    decreases s.len(),
{
    if s.len() != 0 {
        lemma_byte_counts_uniform_digits(s.drop_last());
    }
}

/// Decoding ASCII bytes to characters keeps the category counts.
pub proof fn lemma_counts_via_chars(v: Seq<u8>, s: Seq<char>)
    requires
        s.len() == v.len(),
        forall|i: int| 0 <= i < v.len() ==> s[i] == (#[trigger] v[i]) as char,
    ensures
        count_letters(s) == bcount_letters(v),
        count_symbols(s) == bcount_symbols(v),
        count_digits(s) == bcount_digits(v),
    decreases v.len(),
{
    if v.len() != 0 {
        lemma_counts_via_chars(v.drop_last(), s.drop_last());
        assert(s.last() == v.last() as char);
        assert((v.last() as char) as u32 == v.last() as u32);
    }
}

/// Sequences with the same multiset of bytes have the same category
/// counts: a permutation moves characters, it never changes how many of
/// each kind there are.
pub proof fn lemma_byte_counts_permutation(s: Seq<u8>, t: Seq<u8>)
    requires
        s.to_multiset() == t.to_multiset(),
    ensures
        bcount_letters(s) == bcount_letters(t),
        bcount_symbols(s) == bcount_symbols(t),
        bcount_digits(s) == bcount_digits(t),
    decreases s.len(),
{
    broadcast use vstd::multiset::group_multiset_axioms;
    broadcast use vstd::seq_lib::group_to_multiset_ensures;

    if s.len() == 0 {
        assert(s.to_multiset().len() == 0);
        assert(t.len() == 0);
    } else {
        let v = s.last();
        assert(s.contains(v));
        assert(t.to_multiset().count(v) > 0);
        assert(t.contains(v));
        let j = choose|j: int| 0 <= j < t.len() && t[j] == v;
        let s1 = s.drop_last();
        let t1 = t.remove(j);
        assert(s1.push(v) =~= s);
        assert(s1.push(v).to_multiset() =~= s1.to_multiset().insert(v));
        assert(t.remove(j).to_multiset() =~= t.to_multiset().remove(t[j]));
        assert(s1.to_multiset() =~= s.to_multiset().remove(v));
        assert(s1.to_multiset() == t1.to_multiset());
        lemma_byte_counts_permutation(s1, t1);
        let ta = t.subrange(0, j);
        let tb = t.subrange(j + 1, t.len() as int);
        assert(t =~= ta + (seq![v] + tb));
        assert(t1 =~= ta + tb);
        lemma_byte_counts_add(ta, seq![v] + tb);
        lemma_byte_counts_add(seq![v], tb);
        lemma_byte_counts_add(ta, tb);
        assert(seq![v].drop_last() =~= Seq::<u8>::empty());
        assert(seq![v].last() == v);
        let dl: nat = if is_letter_byte(v) {
            1
        } else {
            0
        };
        let ds: nat = if is_symbol_byte(v) {
            1
        } else {
            0
        };
        let dd: nat = if is_digit_byte(v) {
            1
        } else {
            0
        };
        assert(bcount_letters(seq![v].drop_last()) == 0);
        assert(bcount_symbols(seq![v].drop_last()) == 0);
        assert(bcount_digits(seq![v].drop_last()) == 0);
        assert(bcount_letters(seq![v]) == dl);
        assert(bcount_symbols(seq![v]) == ds);
        assert(bcount_digits(seq![v]) == dd);
        assert(bcount_letters(s) == bcount_letters(s1) + dl);
        assert(bcount_symbols(s) == bcount_symbols(s1) + ds);
        assert(bcount_digits(s) == bcount_digits(s1) + dd);
        assert(bcount_letters(t) == bcount_letters(ta) + bcount_letters(seq![v])
            + bcount_letters(tb));
        assert(bcount_symbols(t) == bcount_symbols(ta) + bcount_symbols(seq![v])
            + bcount_symbols(tb));
        assert(bcount_digits(t) == bcount_digits(ta) + bcount_digits(seq![v]) + bcount_digits(
            tb,
        ));
    }
}

/// Membership in the letter list means being a letter code.
pub proof fn lemma_letters_member(b: u8)
    requires
        letters_seq().contains(b),
    ensures
        is_letter_byte(b),
{
    lemma_letters_seq();
    let k = choose|k: int| 0 <= k < letters_seq().len() && letters_seq()[k] == b;
    assert(is_letter_byte(letters_seq()[k]));
}

/// Membership in the symbol list means being a symbol code.
pub proof fn lemma_symbols_member(b: u8)
    requires
        symbols_seq().contains(b),
    ensures
        is_symbol_byte(b),
{
    lemma_symbols_seq();
    let k = choose|k: int| 0 <= k < symbols_seq().len() && symbols_seq()[k] == b;
    assert(is_symbol_byte(symbols_seq()[k]));
}

/// Membership in the digit list means being a digit code.
pub proof fn lemma_digits_member(b: u8)
    requires
        digits_seq().contains(b),
    ensures
        is_digit_byte(b),
{
    lemma_digits_seq();
    let k = choose|k: int| 0 <= k < digits_seq().len() && digits_seq()[k] == b;
    assert(is_digit_byte(digits_seq()[k]));
}

/// Ranges that stay below 128 generate only bytes below 128.
pub proof fn lemma_spec_gen_upper(ranges: Seq<(u8, u8)>)
    requires
        forall|i: int| 0 <= i < ranges.len() ==> (#[trigger] ranges[i]).1 < 128,
    ensures
        forall|k: int| 0 <= k < spec_gen(ranges).len() ==> #[trigger] spec_gen(ranges)[k] < 128,
    decreases ranges.len(),
{
    if ranges.len() != 0 {
        lemma_spec_gen_upper(ranges.drop_last());
        let lo = ranges.last().0;
        let hi = ranges.last().1;
        assert(ranges[ranges.len() - 1].1 < 128);
        assert forall|k: int| 0 <= k < spec_gen(ranges).len() implies #[trigger] spec_gen(
            ranges,
        )[k] < 128 by {
            let pre = spec_gen(ranges.drop_last());
            if k >= pre.len() {
                assert(spec_gen(ranges)[k] == spec_range_bytes(lo, hi)[k - pre.len()]);
            }
        }
    }
}

/// Build the ordered code list of a list of inclusive byte ranges.
pub fn gen_bytes(range_list: &Vec<(u8, u8)>) -> (r: Vec<u8>)
    ensures
        r@ == spec_gen(range_list@),
{
    let mut out: Vec<u8> = Vec::new();
    let mut k: usize = 0;
    proof {
        assert(range_list@.subrange(0, 0) =~= Seq::<(u8, u8)>::empty());
    }
    while k < range_list.len()
        invariant
            k <= range_list@.len(),
            out@ == spec_gen(range_list@.subrange(0, k as int)),
        decreases range_list@.len() - k,
    {
        let pair = range_list[k];
        let lo = pair.0;
        let hi = pair.1;
        let ghost pre = out@;
        if lo <= hi {
            let mut c: u32 = lo as u32;
            while c <= hi as u32
                invariant
                    lo <= hi,
                    lo as u32 <= c <= hi as u32 + 1,
                    out@ =~= pre + spec_range_bytes(lo, hi).subrange(0, c - lo),
                decreases hi as int + 1 - c,
            {
                proof {
                    assert(spec_range_bytes(lo, hi).subrange(0, c - lo + 1) =~= spec_range_bytes(
                        lo,
                        hi,
                    ).subrange(0, c - lo).push((c as int) as u8));
                }
                out.push(c as u8);
                c = c + 1;
            }
            proof {
                assert(spec_range_bytes(lo, hi).subrange(0, hi - lo + 1) =~= spec_range_bytes(
                    lo,
                    hi,
                ));
            }
        } else {
            proof {
                assert(spec_range_bytes(lo, hi) =~= Seq::<u8>::empty());
                assert(out@ =~= pre + spec_range_bytes(lo, hi));
            }
        }
        proof {
            assert(range_list@.subrange(0, k + 1).drop_last() =~= range_list@.subrange(
                0,
                k as int,
            ));
            assert(range_list@.subrange(0, k + 1).last() == range_list@[k as int]);
        }
        k = k + 1;
    }
    proof {
        assert(range_list@.subrange(0, range_list@.len() as int) =~= range_list@);
    }
    out
}

} // verus!
