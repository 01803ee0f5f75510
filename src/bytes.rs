//! Byte-sequence helpers shared by the codecs: searching for a delimiter and
//! decimal numerals.
use vstd::prelude::*;

verus! {

/// The index of the first `x` in `s` at or after `i`, if any.
pub open spec fn find_from(s: Seq<u8>, x: u8, i: int) -> Option<int>
    decreases s.len() - i,
{
    if i < 0 || i >= s.len() {
        None
    } else if s[i] == x {
        Some(i)
    } else {
        find_from(s, x, i + 1)
    }
}

/// The index of the first `x` in `s`, if any.
pub open spec fn find(s: Seq<u8>, x: u8) -> Option<int> {
    find_from(s, x, 0)
}

/// What `find_from` returns, stated without recursion.
pub proof fn lemma_find_from(s: Seq<u8>, x: u8, i: int)
    requires
        0 <= i,
    ensures
        match find_from(s, x, i) {
            Some(k) => i <= k < s.len() && s[k] == x && forall|j: int| i <= j < k ==> s[j] != x,
            None => forall|j: int| i <= j < s.len() ==> s[j] != x,
        },
    decreases s.len() - i,
{
    if i < s.len() && s[i] != x {
        lemma_find_from(s, x, i + 1);
    }
}

/// The first `x` at or after `i` is the one at `k`.
pub proof fn lemma_find_from_at(s: Seq<u8>, x: u8, i: int, k: int)
    requires
        0 <= i <= k < s.len(),
        s[k] == x,
        forall|j: int| i <= j < k ==> s[j] != x,
    ensures
        find_from(s, x, i) == Some(k),
    decreases k - i,
{
    if i < k {
        lemma_find_from_at(s, x, i + 1, k);
    }
}

/// No `x` at or after `i`.
pub proof fn lemma_find_from_none(s: Seq<u8>, x: u8, i: int)
    requires
        0 <= i,
        forall|j: int| i <= j < s.len() ==> s[j] != x,
    ensures
        find_from(s, x, i) is None,
    decreases s.len() - i,
{
    if i < s.len() {
        lemma_find_from_none(s, x, i + 1);
    }
}

/// Searching a suffix is searching the whole from further on.
pub proof fn lemma_find_shift(s: Seq<u8>, x: u8, i: int, j: int)
    requires
        0 <= i <= s.len(),
        0 <= j,
    ensures
        find_from(s.subrange(i, s.len() as int), x, j) == match find_from(s, x, i + j) {
            Some(k) => Some(k - i),
            None => None,
        },
    decreases s.len() - (i + j),
{
    if i + j < s.len() {
        lemma_find_shift(s, x, i, j + 1);
    }
}

/// Finds the first `x` in `s` at or after `from`.
pub fn find_byte(s: &[u8], x: u8, from: usize) -> (r: Option<usize>)
    ensures
        match r {
            Some(k) => find_from(s@, x, from as int) == Some(k as int),
            None => find_from(s@, x, from as int) is None,
        },
{
    let mut i = from;
    while i < s.len()
        invariant
            from <= i,
            forall|j: int| from <= j < i ==> s@[j] != x,
        decreases s.len() - i,
    {
        if s[i] == x {
            proof {
                lemma_find_from_at(s@, x, from as int, i as int);
            }
            return Some(i);
        }
        i = i + 1;
    }
    proof {
        lemma_find_from_none(s@, x, from as int);
    }
    None
}

/// Appends the bytes of `b` to `out`.
pub fn append_bytes(out: &mut Vec<u8>, b: &[u8])
    ensures
        final(out)@ == old(out)@ + b@,
{
    let ghost start = out@;
    let mut i: usize = 0;
    while i < b.len()
        invariant
            i <= b@.len(),
            out@ == start + b@.subrange(0, i as int),
        decreases b.len() - i,
    {
        out.push(b[i]);
        i = i + 1;
        assert(out@ =~= start + b@.subrange(0, i as int));
    }
    assert(b@.subrange(0, b@.len() as int) =~= b@);
}

/// Whether `b` is an ASCII decimal digit.
pub open spec fn is_digit(b: u8) -> bool {
    48 <= b <= 57
}

/// Whether `s` is a non-empty run of ASCII decimal digits.
pub open spec fn is_numeral(s: Seq<u8>) -> bool {
    s.len() > 0 && forall|i: int| 0 <= i < s.len() ==> is_digit(#[trigger] s[i])
}

/// The number that a run of digits denotes (most significant first).
pub open spec fn numeral_value(s: Seq<u8>) -> nat
    decreases s.len(),
{
    if s.len() == 0 {
        0
    } else {
        numeral_value(s.drop_last()) * 10 + (s.last() - 48) as nat
    }
}

/// The shortest decimal numeral of `n`.
pub open spec fn decimal(n: nat) -> Seq<u8>
    decreases n,
{
    if n < 10 {
        seq![(48 + n) as u8]
    } else {
        decimal(n / 10).push((48 + n % 10) as u8)
    }
}

/// The decimal numeral of `n` is a numeral denoting `n`.
pub proof fn lemma_decimal(n: nat)
    ensures
        is_numeral(decimal(n)),
        numeral_value(decimal(n)) == n,
        forall|i: int| 0 <= i < decimal(n).len() ==> decimal(n)[i] != 0 && decimal(n)[i] != 32,
    decreases n,
{
    if n >= 10 {
        lemma_decimal(n / 10);
        let d = decimal(n / 10);
        assert(decimal(n).drop_last() =~= d);
        assert(decimal(n).last() == (48 + n % 10) as u8);
        assert(numeral_value(decimal(n)) == numeral_value(d) * 10 + n % 10);
        assert forall|i: int| 0 <= i < decimal(n).len() implies is_digit(#[trigger] decimal(n)[i]) by {
            if i < d.len() {
                assert(decimal(n)[i] == d[i]);
            }
        }
    } else {
        assert(decimal(n).drop_last() =~= Seq::<u8>::empty());
        assert(numeral_value(Seq::<u8>::empty()) == 0);
        assert(decimal(n).last() == (48 + n) as u8);
        assert(numeral_value(decimal(n)) == n);
    }
}

/// A longer run of digits denotes at least as much as its prefix.
pub proof fn lemma_numeral_value_prefix(s: Seq<u8>, i: int)
    requires
        0 <= i <= s.len(),
        forall|j: int| 0 <= j < s.len() ==> is_digit(#[trigger] s[j]),
    ensures
        numeral_value(s.subrange(0, i)) <= numeral_value(s),
    decreases s.len() - i,
{
    if i < s.len() {
        lemma_numeral_value_prefix(s, i + 1);
        assert(s.subrange(0, i + 1).drop_last() =~= s.subrange(0, i));
        assert(is_digit(s[i]));
        assert(numeral_value(s.subrange(0, i + 1)) == numeral_value(s.subrange(0, i)) * 10 + (
        s[i] - 48) as nat);
    } else {
        assert(s.subrange(0, i) =~= s);
    }
}

/// Appends the decimal numeral of `n` to `out`.
pub fn push_decimal(out: &mut Vec<u8>, n: usize)
    ensures
        final(out)@ == old(out)@ + decimal(n as nat),
    decreases n,
{
    if n < 10 {
        out.push(48 + n as u8);
        assert(decimal(n as nat) =~= seq![(48 + n) as u8]);
    } else {
        push_decimal(out, n / 10);
        out.push(48 + (n % 10) as u8);
    }
}

/// Whether every byte of `s` is a digit.
pub fn all_digits(s: &[u8]) -> (r: bool)
    ensures
        r == forall|i: int| 0 <= i < s@.len() ==> is_digit(#[trigger] s@[i]),
{
    let mut i: usize = 0;
    while i < s.len()
        invariant
            i <= s@.len(),
            forall|j: int| 0 <= j < i ==> is_digit(#[trigger] s@[j]),
        decreases s.len() - i,
    {
        if s[i] < 48 || s[i] > 57 {
            return false;
        }
        i = i + 1;
    }
    true
}

/// The value of a run of digits, if it is at most `limit`; `None` if it is
/// larger.
pub fn numeral_at_most(s: &[u8], limit: usize) -> (r: Option<usize>)
    requires
        forall|i: int| 0 <= i < s@.len() ==> is_digit(#[trigger] s@[i]),
    ensures
        match r {
            Some(v) => v as nat == numeral_value(s@),
            None => numeral_value(s@) > limit,
        },
{
    let mut v: usize = 0;
    let mut i: usize = 0;
    while i < s.len()
        invariant
            i <= s@.len(),
            v <= limit,
            v as nat == numeral_value(s@.subrange(0, i as int)),
            forall|j: int| 0 <= j < s@.len() ==> is_digit(#[trigger] s@[j]),
        decreases s.len() - i,
    {
        let d = (s[i] - 48) as usize;
        assert(s@.subrange(0, i + 1).drop_last() =~= s@.subrange(0, i as int));
        assert(numeral_value(s@.subrange(0, i + 1)) == v * 10 + d);
        if v > limit / 10 {
            assert(v * 10 + d > limit) by (nonlinear_arith)
                requires v > limit / 10, d >= 0;
            proof {
                lemma_numeral_value_prefix(s@, i + 1);
            }
            assert(s@.subrange(0, s@.len() as int) =~= s@);
            return None;
        }
        assert(v * 10 <= limit) by (nonlinear_arith)
            requires v <= limit / 10;
        if d > limit - v * 10 {
            proof {
                lemma_numeral_value_prefix(s@, i + 1);
            }
            assert(s@.subrange(0, s@.len() as int) =~= s@);
            return None;
        }
        v = v * 10 + d;
        i = i + 1;
    }
    assert(s@.subrange(0, s@.len() as int) =~= s@);
    Some(v)
}

} // verus!
