//! Byte-level text helpers shared by the lyric parser and the analyzer
//! configuration builder: ASCII classification, decimal digit runs, decimal
//! values, whitespace trimming, and decimal formatting.

use vstd::prelude::*;

verus! {

/// ASCII decimal digit.
pub open spec fn is_ascii_digit(b: u8) -> bool {
    48 <= b && b <= 57
}

/// ASCII whitespace, as trimmed from lyric text.
pub open spec fn is_ascii_space(b: u8) -> bool {
    b == 32 || (9 <= b && b <= 13)
}

/// Length of the maximal run of ASCII digits starting at position `i`.
pub open spec fn digit_run(s: Seq<u8>, i: int) -> int
    decreases s.len() - i when i <= s.len()
{
    if 0 <= i && i < s.len() && is_ascii_digit(s[i]) {
        1 + digit_run(s, i + 1)
    } else {
        0
    }
}

pub proof fn lemma_digit_run_bounds(s: Seq<u8>, i: int)
    requires
        0 <= i <= s.len(),
    ensures
        0 <= digit_run(s, i) <= s.len() - i,
        forall|p: int| i <= p < i + digit_run(s, i) ==> is_ascii_digit(#[trigger] s[p]),
        i + digit_run(s, i) < s.len() ==> !is_ascii_digit(s[i + digit_run(s, i)]),
    decreases s.len() - i,
{
    if i < s.len() && is_ascii_digit(s[i]) {
        lemma_digit_run_bounds(s, i + 1);
    }
}

/// Value of a sequence of ASCII digits read as a decimal number.
pub open spec fn dec_val(s: Seq<u8>) -> int
    decreases s.len(),
{
    if s.len() == 0 {
        0
    } else {
        dec_val(s.drop_last()) * 10 + (s.last() - 48)
    }
}

pub proof fn lemma_dec_val_nonneg(s: Seq<u8>)
    requires
        forall|p: int| 0 <= p < s.len() ==> is_ascii_digit(#[trigger] s[p]),
    ensures
        dec_val(s) >= 0,
    decreases s.len(),
{
    if s.len() > 0 {
        assert(forall|p: int| 0 <= p < s.drop_last().len() ==> is_ascii_digit(
            #[trigger] s.drop_last()[p],
        ));
        lemma_dec_val_nonneg(s.drop_last());
    }
}

/// Exec counterpart of `digit_run`: scans the maximal digit run from `i`.
pub fn digit_run_from(v: &Vec<u8>, i: usize) -> (r: usize)
    requires
        i <= v@.len(),
    ensures
        r == digit_run(v@, i as int),
        i + r <= v@.len(),
{
    let n = v.len();
    let mut j = i;
    while j < n && v[j] >= 48 && v[j] <= 57
        invariant
            i <= j <= n,
            n == v@.len(),
            digit_run(v@, i as int) == (j - i) + digit_run(v@, j as int),
        decreases n - j,
    {
        assert(digit_run(v@, j as int) == 1 + digit_run(v@, j + 1));
        j = j + 1;
    }
    assert(digit_run(v@, j as int) == 0);
    j - i
}

/// A digit sequence's value is at least the value of any of its prefixes.
pub proof fn lemma_dec_prefix_monotone(s: Seq<u8>, k: int)
    requires
        0 <= k <= s.len(),
        forall|p: int| 0 <= p < s.len() ==> is_ascii_digit(#[trigger] s[p]),
    ensures
        dec_val(s.take(k)) <= dec_val(s),
    decreases s.len() - k,
{
    if k < s.len() {
        let t = s.take(k + 1);
        assert(t.drop_last() =~= s.take(k));
        assert(forall|p: int| 0 <= p < t.len() ==> is_ascii_digit(#[trigger] t[p]));
        lemma_dec_val_nonneg(s.take(k));
        assert(dec_val(s.take(k)) <= dec_val(t));
        lemma_dec_prefix_monotone(s, k + 1);
        assert(s.take(s.len() as int) =~= s);
    } else {
        assert(s.take(k) =~= s);
    }
}

/// Reads the decimal value of `v[from..to]`, a run of ASCII digits.
/// Returns `None` when the value exceeds `cap`.
pub fn parse_dec_capped(v: &Vec<u8>, from: usize, to: usize, cap: u64) -> (r: Option<u64>)
    requires
        from <= to <= v@.len(),
        forall|p: int| from <= p < to ==> is_ascii_digit(#[trigger] v@[p]),
        cap <= 0xFFFF_FFFF,
    ensures
        dec_val(v@.subrange(from as int, to as int)) <= cap <==> r is Some,
        r matches Some(x) ==> x == dec_val(v@.subrange(from as int, to as int)),
{
    let ghost whole = v@.subrange(from as int, to as int);
    assert(forall|p: int| 0 <= p < whole.len() ==> is_ascii_digit(#[trigger] whole[p]));
    let mut acc: u64 = 0;
    let mut p = from;
    while p < to
        invariant
            from <= p <= to <= v@.len(),
            forall|q: int| from <= q < to ==> is_ascii_digit(#[trigger] v@[q]),
            cap <= 0xFFFF_FFFF,
            acc <= cap,
            whole == v@.subrange(from as int, to as int),
            forall|q: int| 0 <= q < whole.len() ==> is_ascii_digit(#[trigger] whole[q]),
            acc == dec_val(v@.subrange(from as int, p as int)),
        decreases to - p,
    {
        let ghost pre = v@.subrange(from as int, p as int);
        let ghost cur = v@.subrange(from as int, p + 1);
        assert(cur.drop_last() =~= pre);
        assert(cur.last() == v@[p as int]);
        let d = v[p];
        assert(is_ascii_digit(d));
        let next = acc * 10 + (d - 48) as u64;
        assert(next == dec_val(cur));
        if next > cap {
            proof {
                lemma_dec_prefix_monotone(whole, p + 1 - from);
                assert(whole.take(p + 1 - from) =~= cur);
            }
            return None;
        }
        acc = next;
        p = p + 1;
    }
    assert(v@.subrange(from as int, p as int) =~= whole);
    Some(acc)
}

/// Leading ASCII whitespace removed.
pub open spec fn trim_start(s: Seq<u8>) -> Seq<u8>
    decreases s.len(),
{
    if s.len() > 0 && is_ascii_space(s[0]) {
        trim_start(s.drop_first())
    } else {
        s
    }
}

/// Trailing ASCII whitespace removed.
pub open spec fn trim_end(s: Seq<u8>) -> Seq<u8>
    decreases s.len(),
{
    if s.len() > 0 && is_ascii_space(s.last()) {
        trim_end(s.drop_last())
    } else {
        s
    }
}

/// ASCII whitespace removed from both ends.
pub open spec fn trim(s: Seq<u8>) -> Seq<u8> {
    trim_end(trim_start(s))
}

proof fn lemma_trim_start_skip(s: Seq<u8>, lo: int)
    requires
        0 <= lo <= s.len(),
        forall|p: int| 0 <= p < lo ==> is_ascii_space(#[trigger] s[p]),
        lo < s.len() ==> !is_ascii_space(s[lo]),
    ensures
        trim_start(s) =~= s.skip(lo),
    decreases lo,
{
    if lo > 0 {
        assert(is_ascii_space(s[0]));
        let t = s.drop_first();
        assert(forall|p: int| 0 <= p < lo - 1 ==> is_ascii_space(#[trigger] t[p]));
        lemma_trim_start_skip(t, lo - 1);
        assert(t.skip(lo - 1) =~= s.skip(lo));
    } else {
        assert(s.skip(0) =~= s);
    }
}

proof fn lemma_trim_end_take(s: Seq<u8>, hi: int)
    requires
        0 <= hi <= s.len(),
        forall|p: int| hi <= p < s.len() ==> is_ascii_space(#[trigger] s[p]),
        hi > 0 ==> !is_ascii_space(s[hi - 1]),
    ensures
        trim_end(s) =~= s.take(hi),
    decreases s.len() - hi,
{
    if hi < s.len() {
        assert(is_ascii_space(s.last()));
        let t = s.drop_last();
        assert(forall|p: int| hi <= p < t.len() ==> is_ascii_space(#[trigger] t[p]));
        lemma_trim_end_take(t, hi);
        assert(t.take(hi) =~= s.take(hi));
    } else {
        assert(s.take(hi) =~= s);
    }
}

/// Exec test for `is_ascii_space`.
pub fn is_space_byte(b: u8) -> (r: bool)
    ensures
        r == is_ascii_space(b),
{
    b == 32 || (9 <= b && b <= 13)
}

/// The bytes of `v[from..to]` with ASCII whitespace trimmed from both ends.
pub fn trimmed_range(v: &Vec<u8>, from: usize, to: usize) -> (r: Vec<u8>)
    requires
        from <= to <= v@.len(),
    ensures
        r@ == trim(v@.subrange(from as int, to as int)),
{
    let ghost s = v@.subrange(from as int, to as int);
    let mut lo = from;
    while lo < to && is_space_byte(v[lo])
        invariant
            from <= lo <= to <= v@.len(),
            s == v@.subrange(from as int, to as int),
            forall|p: int| from <= p < lo ==> is_ascii_space(#[trigger] v@[p]),
        decreases to - lo,
    {
        lo = lo + 1;
    }
    let mut hi = to;
    while hi > lo && is_space_byte(v[hi - 1])
        invariant
            from <= lo <= hi <= to <= v@.len(),
            s == v@.subrange(from as int, to as int),
            forall|p: int| from <= p < lo ==> is_ascii_space(#[trigger] v@[p]),
            lo < to ==> !is_ascii_space(v@[lo as int]),
            forall|p: int| hi <= p < to ==> is_ascii_space(#[trigger] v@[p]),
        decreases hi,
    {
        hi = hi - 1;
    }
    proof {
        lemma_trim_start_skip(s, lo - from);
        lemma_trim_end_take(s.skip(lo - from), hi - lo);
        assert(s.skip(lo - from).take(hi - lo) =~= v@.subrange(lo as int, hi as int));
    }
    let mut r: Vec<u8> = Vec::new();
    let mut p = lo;
    while p < hi
        invariant
            lo <= p <= hi <= v@.len(),
            r@ =~= v@.subrange(lo as int, p as int),
        decreases hi - p,
    {
        r.push(v[p]);
        p = p + 1;
    }
    assert(r@ =~= v@.subrange(lo as int, hi as int));
    assert(trim(s) =~= v@.subrange(lo as int, hi as int));
    r
}

/// Decimal digit bytes of `n`, most significant first, without leading zeros
/// (a single `0` for zero).
pub open spec fn dec_digits(n: int) -> Seq<u8>
    decreases n,
{
    if n <= 0 {
        seq![48u8]
    } else if n < 10 {
        seq![(48 + n) as u8]
    } else {
        dec_digits(n / 10).push((48 + n % 10) as u8)
    }
}

/// The reversed digit accumulator together with the remaining quotient `m`
/// stands for `n`.
pub open spec fn rev_digits_ok(rev: Seq<u8>, m: int, n: int) -> bool
    decreases rev.len(),
{
    if rev.len() == 0 {
        m == n
    } else {
        &&& is_ascii_digit(rev.last())
        &&& rev_digits_ok(rev.drop_last(), m * 10 + (rev.last() - 48), n)
    }
}

proof fn lemma_rev_digits_to_dec(rev: Seq<u8>, m: int, n: int)
    requires
        m >= 0,
        rev_digits_ok(rev, m, n),
        m == 0 ==> rev.len() > 0 && rev.last() != 48,
    ensures
        m > 0 ==> dec_digits(m) + rev.reverse() =~= dec_digits(n),
        m == 0 ==> rev.reverse() =~= dec_digits(n),
    decreases rev.len(),
{
    if rev.len() == 0 {
        assert(m == n);
        assert(rev.reverse() =~= Seq::<u8>::empty());
        assert(dec_digits(m) + rev.reverse() =~= dec_digits(n));
    } else {
        let d = (rev.last() - 48) as int;
        let m2 = m * 10 + d;
        assert(0 <= d <= 9);
        assert(m2 > 0) by {
            if m > 0 {
                assert(m * 10 >= 10) by (nonlinear_arith)
                    requires m >= 1;
            } else {
                assert(d >= 1);
            }
        }
        lemma_rev_digits_to_dec(rev.drop_last(), m2, n);
        assert(rev.reverse() =~= seq![rev.last()] + rev.drop_last().reverse());
        if m > 0 {
            assert(m2 / 10 == m && m2 % 10 == d) by (nonlinear_arith)
                requires
                    m2 == m * 10 + d,
                    0 <= d <= 9,
                    m >= 0,
            ;
            assert(m2 >= 10) by (nonlinear_arith)
                requires m2 == m * 10 + d, m >= 1, d >= 0;
            assert(dec_digits(m2) =~= dec_digits(m).push((48 + d) as u8));
            assert(dec_digits(m) + rev.reverse() =~= dec_digits(m2) + rev.drop_last().reverse());
        } else {
            assert(m2 == d && 1 <= d <= 9);
            assert(dec_digits(m2) =~= seq![(48 + d) as u8]);
            assert(rev.reverse() =~= dec_digits(m2) + rev.drop_last().reverse());
        }
    }
}

/// Formats `n` in decimal ASCII.
pub fn format_dec(n: u64) -> (r: Vec<u8>)
    ensures
        r@ == dec_digits(n as int),
{
    if n == 0 {
        let mut r: Vec<u8> = Vec::new();
        r.push(48);
        assert(r@ =~= dec_digits(0));
        return r;
    }
    let mut rev: Vec<u8> = Vec::new();
    let mut m = n;
    while m > 0
        invariant
            m <= n,
            n > 0,
            m > 0 || rev@.len() > 0,
            rev_digits_ok(rev@, m as int, n as int),
            m == 0 && rev@.len() > 0 ==> rev@.last() != 48,
        decreases m,
    {
        let ghost old_rev = rev@;
        let d: u8 = 48 + (m % 10) as u8;
        rev.push(d);
        proof {
            assert(rev@.drop_last() =~= old_rev);
            assert(m as int == (m as int / 10) * 10 + (m as int % 10)) by (nonlinear_arith);
            assert(rev_digits_ok(rev@, m as int / 10, n as int));
        }
        m = m / 10;
    }
    let mut r: Vec<u8> = Vec::new();
    let mut i = rev.len();
    while i > 0
        invariant
            i <= rev@.len(),
            r@ =~= rev@.subrange(i as int, rev@.len() as int).reverse(),
        decreases i,
    {
        i = i - 1;
        let b = rev[i];
        r.push(b);
        proof {
            let prev = rev@.subrange(i + 1, rev@.len() as int).reverse();
            let now = rev@.subrange(i as int, rev@.len() as int).reverse();
            assert(now =~= prev.push(rev@[i as int]));
        }
    }
    proof {
        assert(rev@.subrange(0, rev@.len() as int) =~= rev@);
        lemma_rev_digits_to_dec(rev@, 0, n as int);
        assert(r@ =~= dec_digits(n as int));
    }
    r
}

/// Views of a sequence of byte vectors.
pub open spec fn views(ls: Seq<Vec<u8>>) -> Seq<Seq<u8>> {
    ls.map_values(|v: Vec<u8>| v@)
}

/// Byte-for-byte copy of `v[from..to]`.
pub fn copy_range(v: &Vec<u8>, from: usize, to: usize) -> (r: Vec<u8>)
    requires
        from <= to <= v@.len(),
    ensures
        r@ == v@.subrange(from as int, to as int),
{
    let mut r: Vec<u8> = Vec::new();
    let mut p = from;
    while p < to
        invariant
            from <= p <= to <= v@.len(),
            r@ =~= v@.subrange(from as int, p as int),
        decreases to - p,
    {
        r.push(v[p]);
        p = p + 1;
    }
    assert(r@ =~= v@.subrange(from as int, to as int));
    r
}

/// Appends a copy of `src` to `dst`.
pub fn append_bytes(dst: &mut Vec<u8>, src: &Vec<u8>)
    ensures
        final(dst)@ == old(dst)@ + src@,
{
    let ghost base = dst@;
    let mut p: usize = 0;
    while p < src.len()
        invariant
            p <= src@.len(),
            dst@ =~= base + src@.take(p as int),
        decreases src@.len() - p,
    {
        dst.push(src[p]);
        p = p + 1;
    }
    assert(dst@ =~= base + src@);
}

/// Byte-wise equality of two vectors.
pub fn bytes_eq(a: &Vec<u8>, b: &Vec<u8>) -> (r: bool)
    ensures
        r == (a@ == b@),
{
    if a.len() != b.len() {
        assert(a@ != b@);
        return false;
    }
    let mut i: usize = 0;
    while i < a.len()
        invariant
            i <= a@.len(),
            a@.len() == b@.len(),
            forall|p: int| 0 <= p < i ==> a@[p] == b@[p],
        decreases a@.len() - i,
    {
        if a[i] != b[i] {
            assert(a@ != b@);
            return false;
        }
        i = i + 1;
    }
    assert(a@ =~= b@);
    true
}

} // verus!
