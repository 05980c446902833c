//! The password generator itself.
//!
//! A [`RandomPassword`] holds the requested total length and the
//! requested number of symbol and digit characters, all as
//! arbitrary-precision values; the remaining positions are letters.
//! Generation decomposes each category count into chunks of at most
//! `UNIT` (127), samples one random character per sampled index, joins
//! the three category segments and shuffles the whole buffer in place.

use vstd::prelude::*;
use crate::bignat::BigNat;
use crate::bignat::decimal_value;
use crate::bignat::is_decimal_string;
use crate::charset::{
    bcount_digits, bcount_letters, bcount_symbols, count_digits, count_letters, count_symbols,
    digits_seq, gen_bytes, is_digit_byte, is_letter_byte, is_symbol_byte, lemma_byte_counts_add,
    lemma_byte_counts_permutation, lemma_byte_counts_uniform_digits,
    lemma_byte_counts_uniform_letters, lemma_byte_counts_uniform_symbols, lemma_counts_via_chars,
    lemma_digits_member, lemma_digits_seq, lemma_letters_member, lemma_letters_seq,
    lemma_spec_gen_upper, lemma_symbols_member, lemma_symbols_seq, letters_seq, spec_gen,
    symbols_seq,
};
use crate::rng::rand_index;
use crate::shuffle::shuffle_bytes;

verus! {

/// Why a request was refused at construction.
#[derive(Clone, Copy, Debug, PartialEq, Eq)]
pub enum PasswordError {
    /// An argument was negative or not a non-negative integer.
    InvalidInput,
    /// The length is smaller than the symbol and digit counts together.
    InsufficientLength,
}

/// The sum of a list of chunk sizes.
pub open spec fn chunk_sum(s: Seq<usize>) -> nat
    decreases s.len(),
{
    if s.len() == 0 {
        0
    } else {
        (chunk_sum(s.drop_last()) + s.last()) as nat
    }
}

proof fn lemma_chunk_sum_prefix(s: Seq<usize>, i: int)
    requires
        0 <= i < s.len(),
    ensures
        chunk_sum(s.subrange(0, i + 1)) == chunk_sum(s.subrange(0, i)) + s[i],
{
    assert(s.subrange(0, i + 1).drop_last() =~= s.subrange(0, i));
    assert(s.subrange(0, i + 1).last() == s[i]);
}

/// A password request: total length and minimum symbol and digit
/// counts, plus the most recently generated content.
#[derive(Clone, Debug)]
pub struct RandomPassword {
    length: BigNat,
    sbl_cnt: BigNat,
    num_cnt: BigNat,
    content: String,
}

/// Relies on `String::from_utf8`: bytes below 128 are ASCII, so decoding
/// cannot fail and yields one character per byte with the same code.
#[verifier::external_body]
fn ascii_to_string(v: Vec<u8>) -> (s: String)
    requires
        forall|i: int| 0 <= i < v@.len() ==> v@[i] < 128,
    ensures
        s@.len() == v@.len(),
        forall|i: int| 0 <= i < v@.len() ==> s@[i] == (#[trigger] v@[i]) as char,
{
    match String::from_utf8(v) {
        Ok(s) => s,
        Err(_) => String::new(),
    }
}

impl RandomPassword {
    /// All three counts are canonical and the length covers the symbol
    /// and digit counts together.
    pub closed spec fn wf(&self) -> bool {
        &&& self.length.wf()
        &&& self.sbl_cnt.wf()
        &&& self.num_cnt.wf()
        &&& self.sbl_cnt.value() + self.num_cnt.value() <= self.length.value()
    }

    /// The requested total length.
    pub closed spec fn spec_length(&self) -> nat {
        self.length.value()
    }

    /// The requested number of symbol characters.
    pub closed spec fn spec_symbols(&self) -> nat {
        self.sbl_cnt.value()
    }

    /// The requested number of digit characters.
    pub closed spec fn spec_numbers(&self) -> nat {
        self.num_cnt.value()
    }

    /// The cached content of the last generation.
    pub closed spec fn spec_content(&self) -> Seq<char> {
        self.content@
    }

    /// Validate a request given as machine integers. Negative values
    /// are invalid input; a length below the sum of the two counts is
    /// insufficient.
    pub fn new(length: i64, sbl_cnt: i64, num_cnt: i64) -> (r: Result<
        RandomPassword,
        PasswordError,
    >)
        ensures
            (length < 0 || sbl_cnt < 0 || num_cnt < 0) <==> r == Err::<
                RandomPassword,
                PasswordError,
            >(PasswordError::InvalidInput),
            (0 <= length && 0 <= sbl_cnt && 0 <= num_cnt && length < sbl_cnt + num_cnt) <==> r
                == Err::<RandomPassword, PasswordError>(PasswordError::InsufficientLength),
            (0 <= length && 0 <= sbl_cnt && 0 <= num_cnt && sbl_cnt + num_cnt <= length) ==> (r
                matches Ok(rp) && rp.wf() && rp.spec_length() == length as nat && rp.spec_symbols()
                == sbl_cnt as nat && rp.spec_numbers() == num_cnt as nat && rp.spec_content()
                == Seq::<char>::empty()),
    {
        if length < 0 || sbl_cnt < 0 || num_cnt < 0 {
            return Err(PasswordError::InvalidInput);
        }
        let l = BigNat::from_u64(length as u64);
        let s = BigNat::from_u64(sbl_cnt as u64);
        let n = BigNat::from_u64(num_cnt as u64);
        Self::from_counts(l, s, n)
    }

    /// Validate a request given as decimal numerals, for magnitudes
    /// beyond any machine integer. A string that is not a non-empty
    /// run of digits (a sign, a letter, the empty string) is invalid
    /// input.
    pub fn new_from_str(length: &str, sbl_cnt: &str, num_cnt: &str) -> (r: Result<
        RandomPassword,
        PasswordError,
    >)
        ensures
            !(is_decimal_string(length@) && is_decimal_string(sbl_cnt@) && is_decimal_string(
                num_cnt@,
            )) <==> r == Err::<RandomPassword, PasswordError>(PasswordError::InvalidInput),
            (is_decimal_string(length@) && is_decimal_string(sbl_cnt@) && is_decimal_string(
                num_cnt@,
            ) && decimal_value(length@) < decimal_value(sbl_cnt@) + decimal_value(num_cnt@)) <==> r
                == Err::<RandomPassword, PasswordError>(PasswordError::InsufficientLength),
            (is_decimal_string(length@) && is_decimal_string(sbl_cnt@) && is_decimal_string(
                num_cnt@,
            ) && decimal_value(sbl_cnt@) + decimal_value(num_cnt@) <= decimal_value(length@)) ==> (
            r matches Ok(rp) && rp.wf() && rp.spec_length() == decimal_value(length@)
                && rp.spec_symbols() == decimal_value(sbl_cnt@) && rp.spec_numbers()
                == decimal_value(num_cnt@) && rp.spec_content() == Seq::<char>::empty()),
    {
        let l = match BigNat::from_decimal_str(length) {
            Some(b) => b,
            None => {
                return Err(PasswordError::InvalidInput);
            },
        };
        let s = match BigNat::from_decimal_str(sbl_cnt) {
            Some(b) => b,
            None => {
                return Err(PasswordError::InvalidInput);
            },
        };
        let n = match BigNat::from_decimal_str(num_cnt) {
            Some(b) => b,
            None => {
                return Err(PasswordError::InvalidInput);
            },
        };
        Self::from_counts(l, s, n)
    }

    /// Validate a request given as arbitrary-precision counts. Only the
    /// size relation can fail here.
    pub fn from_counts(length: BigNat, sbl_cnt: BigNat, num_cnt: BigNat) -> (r: Result<
        RandomPassword,
        PasswordError,
    >)
        requires
            length.wf(),
            sbl_cnt.wf(),
            num_cnt.wf(),
        ensures
            sbl_cnt.value() + num_cnt.value() <= length.value() ==> (r matches Ok(rp) && rp.wf()
                && rp.spec_length() == length.value() && rp.spec_symbols() == sbl_cnt.value()
                && rp.spec_numbers() == num_cnt.value() && rp.spec_content()
                == Seq::<char>::empty()),
            (length.value() < sbl_cnt.value() + num_cnt.value()) <==> r == Err::<
                RandomPassword,
                PasswordError,
            >(PasswordError::InsufficientLength),
    {
        match length.checked_sub(&sbl_cnt) {
            None => Err(PasswordError::InsufficientLength),
            Some(rest) => match rest.checked_sub(&num_cnt) {
                None => Err(PasswordError::InsufficientLength),
                Some(_) => Ok(
                    RandomPassword { length, sbl_cnt, num_cnt, content: String::new() },
                ),
            },
        }
    }

    /// Decompose a count into chunks: emit `UNIT` (127) while the rest
    /// is at least `UNIT`, then emit the remainder, so at least one
    /// chunk always comes out and the chunks sum to the count exactly.
    #[allow(non_snake_case)]
    pub fn _DIV_UNIT(n: &BigNat) -> (r: Vec<usize>)
        requires
            n.wf(),
        ensures
            r@.len() >= 1,
            chunk_sum(r@) == n.value(),
            forall|i: int| 0 <= i < r@.len() ==> #[trigger] r@[i] <= 127,
            forall|i: int| 0 <= i < r@.len() - 1 ==> #[trigger] r@[i] == 127,
            r@[r@.len() - 1] < 127,
    {
        let unit = BigNat::from_u64(127);
        let mut cur = n.duplicate();
        let mut ret: Vec<usize> = Vec::new();
        loop
            invariant
                unit.wf(),
                unit.value() == 127,
                cur.wf(),
                chunk_sum(ret@) + cur.value() == n.value(),
                forall|i: int| 0 <= i < ret@.len() ==> #[trigger] ret@[i] == 127,
            decreases cur.value(),
        {
            match cur.checked_sub(&unit) {
                Some(rest) => {
                    proof {
                        assert(ret@.push(127usize).drop_last() =~= ret@);
                    }
                    ret.push(127);
                    cur = rest;
                },
                None => {
                    let last = cur.to_small();
                    proof {
                        assert(ret@.push(last).drop_last() =~= ret@);
                    }
                    ret.push(last);
                    return ret;
                },
            }
        }
    }

    /// Draw `n` independent uniform indices below `cnt`.
    #[allow(non_snake_case)]
    pub fn _RAND_IDX(n: usize, cnt: usize) -> (r: Vec<usize>)
        requires
            cnt > 0,
        ensures
            r@.len() == n,
            forall|i: int| 0 <= i < r@.len() ==> #[trigger] r@[i] < cnt,
    {
        let mut idx_s: Vec<usize> = Vec::new();
        let mut k: usize = 0;
        while k < n
            invariant
                cnt > 0,
                k <= n,
                idx_s@.len() == k,
                forall|i: int| 0 <= i < idx_s@.len() ==> #[trigger] idx_s@[i] < cnt,
            decreases n - k,
        {
            let idx = rand_index(cnt);
            idx_s.push(idx);
            k += 1;
        }
        idx_s
    }

    /// Build the character set of a list of inclusive ASCII ranges, one
    /// single-character string per code, ranges in input order.
    #[allow(non_snake_case)]
    pub fn _GEN(range_list: Vec<(u8, u8)>) -> (r: Vec<String>)
        requires
            forall|i: int| 0 <= i < range_list@.len() ==> (#[trigger] range_list@[i]).1 < 128,
        ensures
            r@.len() == spec_gen(range_list@).len(),
            forall|i: int|
                0 <= i < r@.len() ==> (#[trigger] r@[i])@ == seq![spec_gen(range_list@)[i] as char],
    {
        let bytes = gen_bytes(&range_list);
        proof {
            lemma_spec_gen_upper(range_list@);
        }
        let mut out: Vec<String> = Vec::new();
        let mut i: usize = 0;
        while i < bytes.len()
            invariant
                bytes@ == spec_gen(range_list@),
                forall|k: int| 0 <= k < bytes@.len() ==> #[trigger] bytes@[k] < 128,
                i <= bytes@.len(),
                out@.len() == i,
                forall|k: int|
                    0 <= k < i ==> (#[trigger] out@[k])@ == seq![bytes@[k] as char],
            decreases bytes@.len() - i,
        {
            let mut one: Vec<u8> = Vec::new();
            one.push(bytes[i]);
            let s = ascii_to_string(one);
            proof {
                assert(one@[0] == bytes@[i as int]);
                assert(s@[0] == one@[0] as char);
                assert(s@ =~= seq![bytes@[i as int] as char]);
            }
            out.push(s);
            i += 1;
        }
        out
    }

    /// The three character sets: letters, symbols, digits.
    #[allow(non_snake_case)]
    pub fn _DATA() -> (r: (Vec<String>, Vec<String>, Vec<String>))
        ensures
            r.0@.len() == letters_seq().len(),
            forall|i: int|
                0 <= i < r.0@.len() ==> (#[trigger] r.0@[i])@ == seq![letters_seq()[i] as char],
            r.1@.len() == symbols_seq().len(),
            forall|i: int|
                0 <= i < r.1@.len() ==> (#[trigger] r.1@[i])@ == seq![symbols_seq()[i] as char],
            r.2@.len() == digits_seq().len(),
            forall|i: int|
                0 <= i < r.2@.len() ==> (#[trigger] r.2@[i])@ == seq![digits_seq()[i] as char],
    {
        let lr: Vec<(u8, u8)> = vec![(65, 90), (97, 122)];
        let sr: Vec<(u8, u8)> = vec![(33, 47), (58, 64), (91, 96), (123, 126)];
        let dr: Vec<(u8, u8)> = vec![(48, 57)];
        proof {
            assert(lr@ =~= seq![(65u8, 90u8), (97u8, 122u8)]);
            assert(sr@ =~= seq![(33u8, 47u8), (58u8, 64u8), (91u8, 96u8), (123u8, 126u8)]);
            assert(dr@ =~= seq![(48u8, 57u8)]);
        }
        (Self::_GEN(lr), Self::_GEN(sr), Self::_GEN(dr))
    }

    /// Append `count` characters of one category to the buffer: the
    /// count is decomposed into chunks, each chunk samples its indices,
    /// and every sampled index picks one byte of `data`.
    fn fill_category(count: &BigNat, data: &Vec<u8>, out: &mut Vec<u8>)
        requires
            count.wf(),
            data@.len() > 0,
        ensures
            final(out)@.len() == old(out)@.len() + count.value(),
            final(out)@.subrange(0, old(out)@.len() as int) == old(out)@,
            forall|k: int|
                old(out)@.len() <= k < final(out)@.len() ==> data@.contains(
                    #[trigger] final(out)@[k],
                ),
    {
        let chunks = Self::_DIV_UNIT(count);
        let ghost base = out@.len() as int;
        let mut ci: usize = 0;
        proof {
            assert(chunks@.subrange(0, 0) =~= Seq::<usize>::empty());
            assert(out@.subrange(0, base) =~= out@);
        }
        while ci < chunks.len()
            invariant
                data@.len() > 0,
                ci <= chunks@.len(),
                chunk_sum(chunks@) == count.value(),
                out@.len() == base + chunk_sum(chunks@.subrange(0, ci as int)),
                base == old(out)@.len(),
                out@.subrange(0, base) == old(out)@,
                forall|k: int| base <= k < out@.len() ==> data@.contains(#[trigger] out@[k]),
            decreases chunks@.len() - ci,
        {
            let idxs = Self::_RAND_IDX(chunks[ci], data.len());
            let mut t: usize = 0;
            while t < idxs.len()
                invariant
                    data@.len() > 0,
                    t <= idxs@.len(),
                    forall|q: int| 0 <= q < idxs@.len() ==> #[trigger] idxs@[q] < data@.len(),
                    out@.len() == base + chunk_sum(chunks@.subrange(0, ci as int)) + t,
                    base == old(out)@.len(),
                    out@.subrange(0, base) == old(out)@,
                    forall|k: int| base <= k < out@.len() ==> data@.contains(#[trigger] out@[k]),
                decreases idxs@.len() - t,
            {
                let b = data[idxs[t]];
                proof {
                    assert(data@.contains(data@[idxs@[t as int] as int]));
                    assert(out@.push(b).subrange(0, base) =~= out@.subrange(0, base));
                }
                out.push(b);
                t += 1;
            }
            proof {
                lemma_chunk_sum_prefix(chunks@, ci as int);
            }
            ci += 1;
        }
        proof {
            assert(chunks@.subrange(0, chunks@.len() as int) =~= chunks@);
        }
    }

    /// Assemble the pre-shuffle password bytes: the letter segment,
    /// then the symbol segment, then the digit segment, each of exactly
    /// its requested count, drawn from its own character set.
    #[allow(non_snake_case)]
    fn _PWD(letters: (&BigNat, &Vec<u8>), symbols: (&BigNat, &Vec<u8>), numbers: (
        &BigNat,
        &Vec<u8>,
    )) -> (r: Vec<u8>)
        requires
            letters.0.wf(),
            symbols.0.wf(),
            numbers.0.wf(),
            letters.1@ == letters_seq(),
            symbols.1@ == symbols_seq(),
            numbers.1@ == digits_seq(),
        ensures
            r@.len() == letters.0.value() + symbols.0.value() + numbers.0.value(),
            bcount_letters(r@) == letters.0.value(),
            bcount_symbols(r@) == symbols.0.value(),
            bcount_digits(r@) == numbers.0.value(),
            forall|k: int| 0 <= k < r@.len() ==> #[trigger] r@[k] < 128,
    {
        proof {
            lemma_letters_seq();
            lemma_symbols_seq();
            lemma_digits_seq();
        }
        let mut buf: Vec<u8> = Vec::new();
        Self::fill_category(letters.0, letters.1, &mut buf);
        let ghost endl = buf@.len() as int;
        Self::fill_category(symbols.0, symbols.1, &mut buf);
        let ghost ends = buf@.len() as int;
        Self::fill_category(numbers.0, numbers.1, &mut buf);
        proof {
            let pre = buf@;
            let sl = pre.subrange(0, endl);
            let ss = pre.subrange(endl, ends);
            let sn = pre.subrange(ends, pre.len() as int);
            assert(pre.subrange(0, ends).subrange(0, endl) == sl);
            assert forall|k: int| 0 <= k < sl.len() implies is_letter_byte(#[trigger] sl[k]) by {
                assert(letters.1@.contains(pre.subrange(0, ends)[k]));
                lemma_letters_member(sl[k]);
            }
            assert forall|k: int| 0 <= k < ss.len() implies is_symbol_byte(#[trigger] ss[k]) by {
                assert(symbols.1@.contains(pre.subrange(0, ends)[endl + k]));
                lemma_symbols_member(ss[k]);
            }
            assert forall|k: int| 0 <= k < sn.len() implies is_digit_byte(#[trigger] sn[k]) by {
                assert(numbers.1@.contains(pre[ends + k]));
                lemma_digits_member(sn[k]);
            }
            lemma_byte_counts_uniform_letters(sl);
            lemma_byte_counts_uniform_symbols(ss);
            lemma_byte_counts_uniform_digits(sn);
            assert(pre =~= sl + (ss + sn));
            lemma_byte_counts_add(sl, ss + sn);
            lemma_byte_counts_add(ss, sn);
            assert forall|k: int| 0 <= k < pre.len() implies #[trigger] pre[k] < 128 by {
                if k < endl {
                    assert(is_letter_byte(sl[k]));
                } else if k < ends {
                    assert(is_symbol_byte(ss[k - endl]));
                } else {
                    assert(is_digit_byte(sn[k - ends]));
                }
            }
        }
        buf
    }

    /// Generate a fresh password: exactly the requested length, with
    /// exactly the requested number of symbol and digit characters and
    /// letters everywhere else, in an order randomized by an in-place
    /// shuffle. The result is also cached in the request.
    pub fn show(&mut self) -> (r: String)
        requires
            old(self).wf(),
        ensures
            final(self).wf(),
            final(self).spec_length() == old(self).spec_length(),
            final(self).spec_symbols() == old(self).spec_symbols(),
            final(self).spec_numbers() == old(self).spec_numbers(),
            final(self).spec_content() == r@,
            r@.len() == old(self).spec_length(),
            count_symbols(r@) == old(self).spec_symbols(),
            count_digits(r@) == old(self).spec_numbers(),
            count_letters(r@) == old(self).spec_length() - old(self).spec_symbols() - old(
                self,
            ).spec_numbers(),
    {
        let letters: Vec<u8>;
        let symbols: Vec<u8>;
        let digits: Vec<u8>;
        let lr: Vec<(u8, u8)> = vec![(65, 90), (97, 122)];
        let sr: Vec<(u8, u8)> = vec![(33, 47), (58, 64), (91, 96), (123, 126)];
        let dr: Vec<(u8, u8)> = vec![(48, 57)];
        proof {
            assert(lr@ =~= seq![(65u8, 90u8), (97u8, 122u8)]);
            assert(sr@ =~= seq![(33u8, 47u8), (58u8, 64u8), (91u8, 96u8), (123u8, 126u8)]);
            assert(dr@ =~= seq![(48u8, 57u8)]);
        }
        letters = gen_bytes(&lr);
        symbols = gen_bytes(&sr);
        digits = gen_bytes(&dr);
        // The letter count is what the symbol and digit counts leave.
        let rest = match self.length.checked_sub(&self.sbl_cnt) {
            Some(d) => d,
            None => {
                // The invariant puts the symbol count within the length.
                return vstd::pervasive::unreached();
            },
        };
        let letter_cnt = match rest.checked_sub(&self.num_cnt) {
            Some(d) => d,
            None => {
                // Likewise for the digit count within what remains.
                return vstd::pervasive::unreached();
            },
        };
        let mut buf = Self::_PWD(
            (&letter_cnt, &letters),
            (&self.sbl_cnt, &symbols),
            (&self.num_cnt, &digits),
        );
        let ghost pre = buf@;
        shuffle_bytes(&mut buf);
        proof {
            lemma_byte_counts_permutation(pre, buf@);
            assert forall|k: int| 0 <= k < buf@.len() implies #[trigger] buf@[k] < 128 by {
                broadcast use vstd::seq_lib::group_to_multiset_ensures;

                assert(buf@.contains(buf@[k]));
                assert(buf@.to_multiset().count(buf@[k]) > 0);
                assert(pre.contains(buf@[k]));
            }
        }
        let ghost post = buf@;
        let out = ascii_to_string(buf);
        proof {
            lemma_counts_via_chars(post, out@);
        }
        self.content = out.clone();
        out
    }
}

} // verus!
