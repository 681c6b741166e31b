//! Decimal tokens of the wire encoding: unsigned and signed numbers as
//! ASCII digit runs, their parsers, and the round-trip proofs that tie
//! the two together.

use vstd::prelude::*;

verus! {

/// ASCII decimal digits of `n`, most significant first, no sign and no
/// leading zero (a single `'0'` for zero).
pub open spec fn spec_digits(n: nat) -> Seq<u8>
    decreases n,
{
    if n < 10 {
        seq![(48 + n) as u8]
    } else {
        spec_digits(n / 10).push((48 + n % 10) as u8)
    }
}

/// ASCII bytes `'0'` through `'9'`.
pub open spec fn is_digit(b: u8) -> bool {
    48 <= b <= 57
}

/// Every byte of the run is a decimal digit.
pub open spec fn all_digits(s: Seq<u8>) -> bool {
    forall|i: int| 0 <= i < s.len() ==> is_digit(#[trigger] s[i])
}

/// Value of a digit run read as a decimal number (zero for the empty
/// run).
pub open spec fn digits_val(s: Seq<u8>) -> nat
    decreases s.len(),
{
    if s.len() == 0 {
        0
    } else {
        (digits_val(s.drop_last()) * 10 + (s.last() - 48)) as nat
    }
}

/// What parsing an unsigned token yields: the digits' value when the
/// token is a non-empty digit run whose value fits a `u64`, nothing
/// otherwise.
pub open spec fn spec_parse_u64(s: Seq<u8>) -> Option<u64> {
    if s.len() >= 1 && all_digits(s) && digits_val(s) <= u64::MAX {
        Some(digits_val(s) as u64)
    } else {
        None
    }
}

/// A signed token: the digits of the magnitude, led by `'-'` when
/// negative.
pub open spec fn spec_sint(v: int) -> Seq<u8> {
    if v >= 0 {
        spec_digits(v as nat)
    } else {
        seq![45u8] + spec_digits((-v) as nat)
    }
}

/// What parsing a signed token yields: a leading `'-'` negates the
/// magnitude; the magnitude must fit a `u64`.
pub open spec fn spec_parse_sint(s: Seq<u8>) -> Option<int> {
    if s.len() >= 1 && s[0] == 45 {
        match spec_parse_u64(s.skip(1)) {
            Some(n) => Some(-(n as int)),
            None => None,
        }
    } else {
        match spec_parse_u64(s) {
            Some(n) => Some(n as int),
            None => None,
        }
    }
}

/// No byte of the run is the frame delimiter.
pub open spec fn no_zero_byte(s: Seq<u8>) -> bool {
    forall|i: int| 0 <= i < s.len() ==> #[trigger] s[i] != 0
}

/// The digits of a number are digits: non-empty, ASCII `'0'` to `'9'`.
pub proof fn lemma_digits_are_digits(n: nat)
    ensures
        spec_digits(n).len() >= 1,
        all_digits(spec_digits(n)),
    decreases n,
{
    if n < 10 {
    } else {
        lemma_digits_are_digits(n / 10);
        let s = spec_digits(n);
        let p = spec_digits(n / 10);
        assert forall|i: int| 0 <= i < s.len() implies is_digit(#[trigger] s[i]) by {
            if i < p.len() {
                assert(s[i] == p[i]);
            } else {
                assert(s[i] == (48 + n % 10) as u8);
            }
        }
    }
}

/// Reading the digits of `n` back as a decimal yields `n`.
pub proof fn lemma_digits_val(n: nat)
    ensures
        digits_val(spec_digits(n)) == n,
    decreases n,
{
    if n < 10 {
        let s = spec_digits(n);
        assert(s =~= seq![(48 + n) as u8]);
        assert(s.len() == 1);
        assert(s.last() == (48 + n) as u8);
        assert(s.drop_last() =~= Seq::<u8>::empty());
        assert(digits_val(Seq::<u8>::empty()) == 0);
        assert(digits_val(s) == (digits_val(s.drop_last()) * 10 + (s.last() - 48)) as nat);
    } else {
        lemma_digits_val(n / 10);
        let s = spec_digits(n);
        let p = spec_digits(n / 10);
        assert(s.drop_last() =~= p);
        assert(s.last() == (48 + n % 10) as u8);
        assert(digits_val(s) == (digits_val(s.drop_last()) * 10 + (s.last() - 48)) as nat);
        assert(n / 10 * 10 + n % 10 == n);
    }
}

/// Extending a digit run on the right never shrinks its value.
pub proof fn lemma_digits_val_prefix(s: Seq<u8>, i: int)
    requires
        0 <= i <= s.len(),
        all_digits(s),
    ensures
        digits_val(s.take(i)) <= digits_val(s),
    decreases s.len() - i,
{
    if i < s.len() {
        lemma_digits_val_prefix(s, i + 1);
        assert(s.take(i + 1).drop_last() =~= s.take(i));
        assert(digits_val(s.take(i + 1)) == digits_val(s.take(i)) * 10 + (s[i] - 48));
        assert(digits_val(s.take(i)) * 10 >= digits_val(s.take(i))) by (nonlinear_arith);
    } else {
        assert(s.take(i) =~= s);
    }
}

/// Digit runs never contain the delimiter, a space, or a minus sign.
pub proof fn lemma_digit_run_bytes(s: Seq<u8>)
    requires
        all_digits(s),
    ensures
        no_zero_byte(s),
        forall|i: int| 0 <= i < s.len() ==> #[trigger] s[i] != 32,
        forall|i: int| 0 <= i < s.len() ==> #[trigger] s[i] != 45,
{
}

/// Parsing the unsigned token of `n` yields `n`.
pub proof fn lemma_parse_digits_round_trip(n: u64)
    ensures
        spec_parse_u64(spec_digits(n as nat)) == Some(n),
{
    lemma_digits_are_digits(n as nat);
    lemma_digits_val(n as nat);
}

/// Parsing the signed token of `v` yields `v`.
pub proof fn lemma_parse_sint_round_trip(v: int)
    requires
        -(u64::MAX as int) <= v <= u64::MAX as int,
    ensures
        spec_parse_sint(spec_sint(v)) == Some(v),
{
    if v >= 0 {
        lemma_parse_digits_round_trip(v as u64);
        lemma_digits_are_digits(v as nat);
        assert(is_digit(spec_sint(v)[0]));
    } else {
        let m: u64 = (-v) as u64;
        lemma_parse_digits_round_trip(m);
        lemma_digits_are_digits(m as nat);
        let s = spec_sint(v);
        assert(s.skip(1) =~= spec_digits(m as nat));
        assert(s[0] == 45);
        assert(s.len() >= 2);
    }
}

/// Appends the decimal digits of `n`.
pub fn push_digits(out: &mut Vec<u8>, n: u64)
    ensures
        final(out)@ == old(out)@ + spec_digits(n as nat),
    decreases n,
{
    if n < 10 {
        out.push(48 + n as u8);
        assert(out@ =~= old(out)@ + spec_digits(n as nat));
    } else {
        push_digits(out, n / 10);
        out.push(48 + (n % 10) as u8);
        assert(out@ =~= old(out)@ + spec_digits(n as nat));
    }
}

/// Appends the signed decimal token of `v`.
pub fn push_sint(out: &mut Vec<u8>, v: i64)
    requires
        v > i64::MIN,
    ensures
        final(out)@ == old(out)@ + spec_sint(v as int),
{
    if v >= 0 {
        push_digits(out, v as u64);
    } else {
        out.push(45);
        push_digits(out, (-v) as u64);
        assert(out@ =~= old(out)@ + spec_sint(v as int));
    }
}

/// Parses `s[from..to]` as an unsigned decimal token.
pub fn parse_u64_range(s: &[u8], from: usize, to: usize) -> (r: Option<u64>)
    requires
        from <= to <= s@.len(),
    ensures
        r == spec_parse_u64(s@.subrange(from as int, to as int)),
{
    let tok = Ghost(s@.subrange(from as int, to as int));
    if from == to {
        return None;
    }
    let mut val: u64 = 0;
    let mut i: usize = from;
    while i < to
        invariant
            from <= i <= to <= s@.len(),
            tok@ == s@.subrange(from as int, to as int),
            all_digits(tok@.take(i - from)),
            val == digits_val(tok@.take(i - from)),
            digits_val(tok@.take(i - from)) <= u64::MAX,
        decreases to - i,
    {
        let b: u8 = s[i];
        if b < 48 || b > 57 {
            assert(!is_digit(tok@[i - from]));
            return None;
        }
        let d: u64 = (b - 48) as u64;
        proof {
            assert(tok@.take(i - from + 1).drop_last() =~= tok@.take(i - from));
            assert(tok@.take(i - from + 1).last() == tok@[i - from]);
        }
        if val > (u64::MAX - d) / 10 {
            proof {
                let j: int = i - from + 1;
                assert(digits_val(tok@.take(j)) == val * 10 + d);
                assert(val * 10 + d > u64::MAX) by (nonlinear_arith)
                    requires
                        val > (u64::MAX - d) / 10,
                        0 <= d <= 9,
                ;
                if all_digits(tok@) {
                    lemma_digits_val_prefix(tok@, j);
                    assert(digits_val(tok@) > u64::MAX);
                }
            }
            return None;
        }
        proof {
            assert(val * 10 + d <= u64::MAX) by (nonlinear_arith)
                requires
                    val <= (u64::MAX - d) / 10,
                    0 <= d <= 9,
            ;
        }
        val = val * 10 + d;
        i = i + 1;
    }
    proof {
        assert(tok@.take(to - from) =~= tok@);
    }
    Some(val)
}

/// Parses `s[from..to]` as a signed decimal token.
pub fn parse_sint_range(s: &[u8], from: usize, to: usize) -> (r: Option<i64>)
    requires
        from <= to <= s@.len(),
    ensures
        ({
            let p = spec_parse_sint(s@.subrange(from as int, to as int));
            match r {
                Some(v) => p == Some(v as int),
                None => match p {
                    Some(w) => w > i64::MAX || w < -(i64::MAX as int),
                    None => true,
                },
            }
        }),
{
    let tok = Ghost(s@.subrange(from as int, to as int));
    if from < to && s[from] == 45 {
        proof {
            assert(tok@.skip(1) =~= s@.subrange(from + 1, to as int));
        }
        match parse_u64_range(s, from + 1, to) {
            Some(n) => {
                if n <= 9_223_372_036_854_775_807u64 {
                    Some(-(n as i64))
                } else {
                    None
                }
            },
            None => None,
        }
    } else {
        match parse_u64_range(s, from, to) {
            Some(n) => {
                if n <= 9_223_372_036_854_775_807u64 {
                    Some(n as i64)
                } else {
                    None
                }
            },
            None => None,
        }
    }
}

/// First position of `b` in `s[from..]`, or the length when absent.
pub open spec fn find_byte_from(s: Seq<u8>, b: u8, from: int) -> int
    decreases s.len() - from,
{
    if from < 0 || from >= s.len() {
        s.len() as int
    } else if s[from] == b {
        from
    } else {
        find_byte_from(s, b, from + 1)
    }
}

/// Where [`find_byte_from`] stops: on `b`, past everything before it.
pub proof fn lemma_find_byte_from(s: Seq<u8>, b: u8, from: int)
    requires
        0 <= from <= s.len(),
    ensures
        from <= find_byte_from(s, b, from) <= s.len(),
        find_byte_from(s, b, from) < s.len() ==> s[find_byte_from(s, b, from)] == b,
        forall|i: int| from <= i < find_byte_from(s, b, from) ==> #[trigger] s[i] != b,
    decreases s.len() - from,
{
    if from < s.len() && s[from] != b {
        lemma_find_byte_from(s, b, from + 1);
    }
}

/// Pins [`find_byte_from`] down: when nothing in `[from, j)` is `b` and
/// `j` is either a `b` or the end, the search stops exactly at `j`.
pub proof fn lemma_find_byte_exact(s: Seq<u8>, b: u8, from: int, j: int)
    requires
        0 <= from <= j <= s.len(),
        forall|i: int| from <= i < j ==> #[trigger] s[i] != b,
        j < s.len() ==> s[j] == b,
    ensures
        find_byte_from(s, b, from) == j,
    decreases j - from,
{
    if from < j {
        lemma_find_byte_exact(s, b, from + 1, j);
    }
}

/// Searching a suffix finds the same byte, shifted by the cut.
pub proof fn lemma_find_byte_skip(s: Seq<u8>, b: u8, k: int, from: int)
    requires
        0 <= k <= from <= s.len(),
    ensures
        find_byte_from(s, b, from) == k + find_byte_from(s.skip(k), b, from - k),
    decreases s.len() - from,
{
    assert(s.skip(k).len() == s.len() - k);
    if from < s.len() {
        assert(s.skip(k)[from - k] == s[from]);
        if s[from] != b {
            lemma_find_byte_skip(s, b, k, from + 1);
        }
    }
}

/// Finds the first `b` at or after `from`, as [`find_byte_from`] does.
pub fn find_byte(s: &[u8], b: u8, from: usize) -> (r: usize)
    requires
        from <= s@.len(),
    ensures
        r == find_byte_from(s@, b, from as int),
        from <= r <= s@.len(),
{
    proof {
        lemma_find_byte_from(s@, b, from as int);
    }
    let mut i: usize = from;
    while i < s.len()
        invariant
            from <= i <= s@.len(),
            forall|k: int| from <= k < i ==> #[trigger] s@[k] != b,
            find_byte_from(s@, b, from as int) == find_byte_from(s@, b, i as int),
        decreases s@.len() - i,
    {
        if s[i] == b {
            return i;
        }
        i = i + 1;
    }
    i
}

} // verus!
