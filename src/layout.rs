//! Names of segment files: segment `k` of a collection is the file
//! `<k>.log`, `k` written in decimal.
use vstd::prelude::*;
use vstd::string::StringSliceAdditionalSpecFns;

verus! {

/// Whether every byte is an ASCII decimal digit.
pub open spec fn spec_all_digits(s: Seq<u8>) -> bool {
    forall|i: int| 0 <= i < s.len() ==> 48 <= #[trigger] s[i] <= 57
}

/// The number that a run of decimal digits writes.
pub open spec fn spec_decimal(s: Seq<u8>) -> int
    decreases s.len(),
{
    if s.len() == 0 {
        0
    } else {
        spec_decimal(s.drop_last()) * 10 + (s.last() - 48)
    }
}

/// The bytes `.log`.
pub open spec fn spec_log_suffix() -> Seq<u8> {
    seq![46u8, 108u8, 111u8, 103u8]
}

/// Whether `name` is the file name of a segment: decimal digits followed by
/// `.log`, the number fitting in a `usize`.
pub open spec fn spec_is_log_name(name: Seq<u8>) -> bool {
    &&& name.len() > 4
    &&& name.subrange(name.len() - 4, name.len() as int) == spec_log_suffix()
    &&& spec_all_digits(name.subrange(0, name.len() - 4))
    &&& spec_decimal(name.subrange(0, name.len() - 4)) <= usize::MAX
}

proof fn lemma_decimal_nonneg(s: Seq<u8>)
    requires
        spec_all_digits(s),
    ensures
        spec_decimal(s) >= 0,
    decreases s.len(),
{
    if s.len() > 0 {
        assert(spec_all_digits(s.drop_last())) by {
            assert forall|i: int| 0 <= i < s.drop_last().len() implies 48 <= #[trigger] s.drop_last()[i] <= 57 by {
                assert(s.drop_last()[i] == s[i]);
            }
        }
        lemma_decimal_nonneg(s.drop_last());
    }
}

proof fn lemma_decimal_grows(s: Seq<u8>, t: Seq<u8>)
    requires
        spec_all_digits(s + t),
    ensures
        spec_decimal(s + t) >= spec_decimal(s),
    decreases t.len(),
{
    if t.len() > 0 {
        assert((s + t).drop_last() =~= s + t.drop_last());
        assert(spec_all_digits(s + t.drop_last())) by {
            assert forall|i: int| 0 <= i < (s + t.drop_last()).len() implies 48 <= #[trigger] (s + t.drop_last())[i] <= 57 by {
                assert((s + t.drop_last())[i] == (s + t)[i]);
            }
        }
        lemma_decimal_grows(s, t.drop_last());
        lemma_decimal_nonneg(s + t.drop_last());
        assert(48 <= (s + t).last() <= 57);
    } else {
        assert(s + t =~= s);
    }
}

/// The segment index that a file name gives, if it is a segment's name.
pub fn log_file_index(name: &str) -> (r: Option<usize>)
    ensures
        r is Some <==> spec_is_log_name(name.spec_bytes()),
        r is Some ==> r.unwrap() == spec_decimal(name.spec_bytes().subrange(0, name.spec_bytes().len() - 4)),
{
    let b = name.as_bytes();
    let n = b.len();
    if n <= 4 || b[n - 4] != 46 || b[n - 3] != 108 || b[n - 2] != 111 || b[n - 1] != 103 {
        proof {
            if n > 4 {
                let tail = b@.subrange(n - 4, n as int);
                if tail == spec_log_suffix() {
                    assert(tail[0] == b@[n - 4]);
                    assert(tail[1] == b@[n - 3]);
                    assert(tail[2] == b@[n - 2]);
                    assert(tail[3] == b@[n - 1]);
                }
            }
        }
        return None;
    }
    assert(b@.subrange(n - 4, n as int) =~= spec_log_suffix());
    let ghost digits = b@.subrange(0, n - 4);
    let mut value: usize = 0;
    let mut i: usize = 0;
    while i < n - 4
        invariant
            b@ == name.spec_bytes(),
            b@.subrange(n - 4, n as int) == spec_log_suffix(),
            n == b@.len(),
            n > 4,
            digits == b@.subrange(0, n - 4),
            0 <= i <= n - 4,
            spec_all_digits(digits.take(i as int)),
            value == spec_decimal(digits.take(i as int)),
        decreases n - 4 - i,
    {
        let c = b[i];
        assert(digits.take(i + 1).drop_last() =~= digits.take(i as int));
        assert(digits.take(i + 1).last() == c);
        if c < 48 || c > 57 {
            proof {
                assert(digits[i as int] == c);
                assert(!spec_all_digits(digits));
            }
            return None;
        }
        let d = (c - 48) as usize;
        assert(spec_all_digits(digits.take(i + 1))) by {
            assert forall|k: int| 0 <= k < i + 1 implies 48 <= #[trigger] digits.take(i + 1)[k] <= 57 by {
                if k < i {
                    assert(digits.take(i + 1)[k] == digits.take(i as int)[k]);
                }
            }
        }
        if value > (usize::MAX - d) / 10 {
            proof {
                assert(spec_decimal(digits.take(i + 1)) > usize::MAX) by (nonlinear_arith)
                    requires
                        spec_decimal(digits.take(i + 1)) == value * 10 + d,
                        value > (usize::MAX - d) / 10,
                        0 <= d <= 9,
                ;
                assert(digits =~= digits.take(i + 1) + digits.skip(i + 1));
                if spec_all_digits(digits) {
                    lemma_decimal_grows(digits.take(i + 1), digits.skip(i + 1));
                }
            }
            return None;
        }
        assert(value * 10 + d <= usize::MAX) by (nonlinear_arith)
            requires
                value <= (usize::MAX - d) / 10,
                0 <= d <= 9,
        ;
        value = value * 10 + d;
        i = i + 1;
    }
    assert(digits.take(n - 4) =~= digits);
    Some(value)
}

} // verus!
