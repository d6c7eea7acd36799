//! Byte-level ASCII helpers shared by the parser and the renderers:
//! whitespace classification, lower-casing, trimming, searching, and
//! decimal conversion.

use vstd::prelude::*;

verus! {

/// ASCII whitespace, as the request-line tokenizer understands it.
pub open spec fn is_ws(b: u8) -> bool {
    b == 32 || b == 9 || b == 10 || b == 11 || b == 12 || b == 13
}

/// Lower-case a single ASCII byte; other bytes pass through.
pub open spec fn spec_lower_byte(b: u8) -> u8 {
    if 65 <= b && b <= 90 {
        (b + 32) as u8
    } else {
        b
    }
}

/// Lower-case every byte of a sequence.
pub open spec fn spec_lower(s: Seq<u8>) -> Seq<u8> {
    s.map_values(|b: u8| spec_lower_byte(b))
}

pub fn ws_byte(b: u8) -> (r: bool)
    ensures
        r == is_ws(b),
{
    b == 32 || b == 9 || b == 10 || b == 11 || b == 12 || b == 13
}

pub fn lower_byte(b: u8) -> (r: u8)
    ensures
        r == spec_lower_byte(b),
{
    if 65 <= b && b <= 90 {
        b + 32
    } else {
        b
    }
}

/// Lower-cased copy of a byte vector.
pub fn to_lower(v: &Vec<u8>) -> (r: Vec<u8>)
    ensures
        r@ == spec_lower(v@),
{
    let mut r: Vec<u8> = Vec::new();
    let mut i: usize = 0;
    while i < v.len()
        invariant
            i <= v.len(),
            r@ == spec_lower(v@.take(i as int)),
        decreases v.len() - i,
    {
        r.push(lower_byte(v[i]));
        proof {
            assert(spec_lower(v@.take(i + 1 as int)) =~= spec_lower(v@.take(i as int)).push(
                spec_lower_byte(v@[i as int]),
            ));
        }
        i = i + 1;
    }
    proof {
        assert(v@.take(v@.len() as int) =~= v@);
    }
    r
}

/// Byte-wise equality of two vectors.
pub fn bytes_eq(a: &Vec<u8>, b: &Vec<u8>) -> (r: bool)
    ensures
        r == (a@ == b@),
{
    if a.len() != b.len() {
        proof {
            assert(a@ != b@);
        }
        return false;
    }
    let mut i: usize = 0;
    while i < a.len()
        invariant
            a@.len() == b@.len(),
            i <= a.len(),
            forall|j: int| 0 <= j < i ==> a@[j] == b@[j],
        decreases a.len() - i,
    {
        if a[i] != b[i] {
            return false;
        }
        i = i + 1;
    }
    proof {
        assert(a@ =~= b@);
    }
    true
}

/// Copy of `v[a..b]`.
pub fn subvec(v: &Vec<u8>, a: usize, b: usize) -> (r: Vec<u8>)
    requires
        a <= b <= v@.len(),
    ensures
        r@ == v@.subrange(a as int, b as int),
{
    let mut r: Vec<u8> = Vec::new();
    let mut i: usize = a;
    while i < b
        invariant
            a <= i <= b <= v@.len(),
            r@ == v@.subrange(a as int, i as int),
        decreases b - i,
    {
        r.push(v[i]);
        proof {
            assert(v@.subrange(a as int, i + 1 as int) =~= v@.subrange(a as int, i as int).push(
                v@[i as int],
            ));
        }
        i = i + 1;
    }
    r
}

/// Append all of `src` onto `dst`.
pub fn push_all(dst: &mut Vec<u8>, src: &Vec<u8>)
    ensures
        final(dst)@ == old(dst)@ + src@,
{
    let mut i: usize = 0;
    while i < src.len()
        invariant
            i <= src.len(),
            dst@ == old(dst)@ + src@.take(i as int),
        decreases src.len() - i,
    {
        dst.push(src[i]);
        proof {
            assert(old(dst)@ + src@.take(i + 1 as int) =~= (old(dst)@ + src@.take(i as int)).push(
                src@[i as int],
            ));
        }
        i = i + 1;
    }
    proof {
        assert(src@.take(src@.len() as int) =~= src@);
    }
}

/// Index of the first non-whitespace byte at or after `i`, or the length.
pub open spec fn first_non_ws(s: Seq<u8>, i: int) -> int
    decreases s.len() - i,
{
    if i < 0 || i >= s.len() {
        s.len() as int
    } else if !is_ws(s[i]) {
        i
    } else {
        first_non_ws(s, i + 1)
    }
}

/// Index of the first whitespace byte at or after `i`, or the length.
pub open spec fn first_ws(s: Seq<u8>, i: int) -> int
    decreases s.len() - i,
{
    if i < 0 || i >= s.len() {
        s.len() as int
    } else if is_ws(s[i]) {
        i
    } else {
        first_ws(s, i + 1)
    }
}

pub proof fn lemma_first_non_ws(s: Seq<u8>, i: int)
    requires
        0 <= i <= s.len(),
    ensures
        i <= first_non_ws(s, i) <= s.len(),
        forall|j: int| i <= j < first_non_ws(s, i) ==> is_ws(s[j]),
        first_non_ws(s, i) < s.len() ==> !is_ws(s[first_non_ws(s, i)]),
    decreases s.len() - i,
{
    if i < s.len() && is_ws(s[i]) {
        lemma_first_non_ws(s, i + 1);
    }
}

pub proof fn lemma_first_ws(s: Seq<u8>, i: int)
    requires
        0 <= i <= s.len(),
    ensures
        i <= first_ws(s, i) <= s.len(),
        forall|j: int| i <= j < first_ws(s, i) ==> !is_ws(s[j]),
        first_ws(s, i) < s.len() ==> is_ws(s[first_ws(s, i)]),
    decreases s.len() - i,
{
    if i < s.len() && !is_ws(s[i]) {
        lemma_first_ws(s, i + 1);
    }
}

/// Exec search for the first non-whitespace byte at or after `i`.
pub fn scan_non_ws(v: &Vec<u8>, i: usize) -> (r: usize)
    requires
        i <= v@.len(),
    ensures
        r == first_non_ws(v@, i as int),
{
    let mut j: usize = i;
    while j < v.len()
        invariant
            i <= j <= v@.len(),
            first_non_ws(v@, i as int) == first_non_ws(v@, j as int),
        decreases v.len() - j,
    {
        if !ws_byte(v[j]) {
            return j;
        }
        j = j + 1;
    }
    j
}

/// Exec search for the first whitespace byte at or after `i`.
pub fn scan_ws(v: &Vec<u8>, i: usize) -> (r: usize)
    requires
        i <= v@.len(),
    ensures
        r == first_ws(v@, i as int),
{
    let mut j: usize = i;
    while j < v.len()
        invariant
            i <= j <= v@.len(),
            first_ws(v@, i as int) == first_ws(v@, j as int),
        decreases v.len() - j,
    {
        if ws_byte(v[j]) {
            return j;
        }
        j = j + 1;
    }
    j
}

/// One past the last non-whitespace byte, or 0 when all bytes are whitespace.
pub open spec fn trim_end_idx(s: Seq<u8>) -> int
    decreases s.len(),
{
    if s.len() == 0 {
        0
    } else if is_ws(s[s.len() - 1]) {
        trim_end_idx(s.drop_last())
    } else {
        s.len() as int
    }
}

pub proof fn lemma_trim_end_idx(s: Seq<u8>)
    ensures
        0 <= trim_end_idx(s) <= s.len(),
        forall|j: int| trim_end_idx(s) <= j < s.len() ==> is_ws(s[j]),
        trim_end_idx(s) > 0 ==> !is_ws(s[trim_end_idx(s) - 1]),
    decreases s.len(),
{
    if s.len() > 0 && is_ws(s[s.len() - 1]) {
        lemma_trim_end_idx(s.drop_last());
        assert forall|j: int| trim_end_idx(s) <= j < s.len() implies is_ws(s[j]) by {
            if j < s.len() - 1 {
                assert(s.drop_last()[j] == s[j]);
            }
        }
    }
}

/// The input with leading and trailing ASCII whitespace removed.
pub open spec fn spec_trim(s: Seq<u8>) -> Seq<u8> {
    let start = first_non_ws(s, 0);
    if start == s.len() {
        Seq::empty()
    } else {
        s.subrange(start, trim_end_idx(s))
    }
}

/// Trim leading and trailing ASCII whitespace from a byte vector.
pub fn trim(v: &Vec<u8>) -> (r: Vec<u8>)
    ensures
        r@ == spec_trim(v@),
{
    proof {
        lemma_first_non_ws(v@, 0);
        lemma_trim_end_idx(v@);
    }
    let start = scan_non_ws(v, 0);
    if start == v.len() {
        let r: Vec<u8> = Vec::new();
        return r;
    }
    let mut end: usize = 0;
    let mut i: usize = 0;
    while i < v.len()
        invariant
            i <= v@.len(),
            end <= i,
            forall|j: int| end <= j < i ==> is_ws(v@[j]),
            end > 0 ==> !is_ws(v@[end - 1]),
        decreases v.len() - i,
    {
        if !ws_byte(v[i]) {
            end = i + 1;
        }
        i = i + 1;
    }
    proof {
        // both `end` and `trim_end_idx` satisfy the same characterization
        let t = trim_end_idx(v@);
        if end < t {
            assert(is_ws(v@[t - 1]));
        }
        if end > t {
            assert(is_ws(v@[end - 1]));
        }
        assert(end == t);
        // start < end because v[start] is not whitespace
        assert(!is_ws(v@[start as int]));
        if end <= start {
            assert(is_ws(v@[start as int]));
        }
    }
    subvec(v, start, end)
}

/// A decimal digit.
pub open spec fn is_digit(b: u8) -> bool {
    48 <= b && b <= 57
}

pub open spec fn all_digits(s: Seq<u8>) -> bool {
    forall|i: int| 0 <= i < s.len() ==> is_digit(s[i])
}

/// Decimal digits of `n`, most significant first.
pub open spec fn spec_dec_rep(n: nat) -> Seq<u8>
    decreases n,
{
    if n < 10 {
        seq![(48 + n) as u8]
    } else {
        spec_dec_rep(n / 10).push((48 + n % 10) as u8)
    }
}

/// Render `n` in decimal.
pub fn u64_to_dec(n: u64) -> (r: Vec<u8>)
    ensures
        r@ == spec_dec_rep(n as nat),
    decreases n,
{
    if n < 10 {
        let mut r: Vec<u8> = Vec::new();
        r.push(48 + (n as u8));
        proof {
            assert(r@ =~= spec_dec_rep(n as nat));
        }
        r
    } else {
        let mut r = u64_to_dec(n / 10);
        r.push(48 + ((n % 10) as u8));
        r
    }
}

/// Numeric value of a digit string, most significant first.
pub open spec fn dec_val(s: Seq<u8>) -> int
    decreases s.len(),
{
    if s.len() == 0 {
        0
    } else {
        dec_val(s.drop_last()) * 10 + (s.last() - 48)
    }
}

pub proof fn lemma_dec_val_bounds(s: Seq<u8>)
    requires
        all_digits(s),
    ensures
        dec_val(s) >= 0,
    decreases s.len(),
{
    if s.len() > 0 {
        assert(all_digits(s.drop_last()));
        lemma_dec_val_bounds(s.drop_last());
    }
}

pub proof fn lemma_dec_val_monotonic(s: Seq<u8>, i: int)
    requires
        all_digits(s),
        0 <= i <= s.len(),
    ensures
        dec_val(s) >= dec_val(s.take(i)),
    decreases s.len() - i,
{
    if i < s.len() {
        lemma_dec_val_monotonic(s, i + 1);
        assert(all_digits(s.take(i)));
        assert(s.take(i + 1).drop_last() =~= s.take(i));
        lemma_dec_val_bounds(s.take(i));
        assert(dec_val(s.take(i + 1)) == dec_val(s.take(i)) * 10 + (s[i] - 48));
    } else {
        assert(s.take(i) =~= s);
    }
}

/// The value `parse::<u64>` gives a digit string: an optional leading `+`,
/// then at least one digit, with the value within range.
pub open spec fn spec_parse_dec(s: Seq<u8>) -> Option<u64> {
    let t = if s.len() > 0 && s[0] == 43 {
        s.drop_first()
    } else {
        s
    };
    if t.len() == 0 || !all_digits(t) || dec_val(t) > u64::MAX {
        None
    } else {
        Some(dec_val(t) as u64)
    }
}

/// Parse an unsigned decimal number, accepting an optional leading `+`.
pub fn parse_dec(v: &Vec<u8>) -> (r: Option<u64>)
    ensures
        r == spec_parse_dec(v@),
{
    let ghost t: Seq<u8> = if v@.len() > 0 && v@[0] == 43 {
        v@.drop_first()
    } else {
        v@
    };
    let start: usize = if v.len() > 0 && v[0] == 43 {
        1
    } else {
        0
    };
    proof {
        assert(t =~= v@.subrange(start as int, v@.len() as int));
    }
    if v.len() == start {
        return None;
    }
    let mut acc: u64 = 0;
    let mut i: usize = start;
    while i < v.len()
        invariant
            start <= i <= v@.len(),
            t == (if v@.len() > 0 && v@[0] == 43 {
                v@.drop_first()
            } else {
                v@
            }),
            start == (if v@.len() > 0 && v@[0] == 43 {
                1int
            } else {
                0int
            }),
            t =~= v@.subrange(start as int, v@.len() as int),
            all_digits(t.take(i - start)),
            acc == dec_val(t.take(i - start)),
        decreases v.len() - i,
    {
        let b = v[i];
        if !(48 <= b && b <= 57) {
            proof {
                assert(t[i - start] == b);
                assert(!all_digits(t));
            }
            return None;
        }
        let d: u64 = (b - 48) as u64;
        proof {
            assert(t.take(i - start + 1).drop_last() =~= t.take(i - start));
            assert(t.take(i - start + 1).last() == b);
        }
        if acc > (u64::MAX - d) / 10 {
            proof {
                lemma_dec_val_bounds(t.take(i - start));
                assert((u64::MAX - d) / 10 * 10 + (u64::MAX - d) % 10 == u64::MAX - d);
                assert(acc * 10 >= ((u64::MAX - d) / 10 + 1) * 10);
                assert(dec_val(t.take(i - start + 1)) > u64::MAX);
                if all_digits(t) {
                    lemma_dec_val_monotonic(t, i - start + 1);
                }
            }
            return None;
        }
        proof {
            assert(acc * 10 <= (u64::MAX - d) / 10 * 10);
            assert((u64::MAX - d) / 10 * 10 + (u64::MAX - d) % 10 == u64::MAX - d);
        }
        acc = acc * 10 + d;
        i = i + 1;
    }
    proof {
        assert(t.take(v@.len() - start) =~= t);
    }
    Some(acc)
}

} // verus!


verus! {

/// Index of the first occurrence of `t` at or after `i`, or the length.
pub open spec fn first_at(s: Seq<u8>, t: u8, i: int) -> int
    decreases s.len() - i,
{
    if i < 0 || i >= s.len() {
        s.len() as int
    } else if s[i] == t {
        i
    } else {
        first_at(s, t, i + 1)
    }
}

pub proof fn lemma_first_at(s: Seq<u8>, t: u8, i: int)
    requires
        0 <= i <= s.len(),
    ensures
        i <= first_at(s, t, i) <= s.len(),
        forall|j: int| i <= j < first_at(s, t, i) ==> s[j] != t,
        first_at(s, t, i) < s.len() ==> s[first_at(s, t, i)] == t,
    decreases s.len() - i,
{
    if i < s.len() && s[i] != t {
        lemma_first_at(s, t, i + 1);
    }
}

/// Exec search for the first occurrence of `t` at or after `i`.
pub fn scan_for(v: &Vec<u8>, t: u8, i: usize) -> (r: usize)
    requires
        i <= v@.len(),
    ensures
        r == first_at(v@, t, i as int),
{
    let mut j: usize = i;
    while j < v.len()
        invariant
            i <= j <= v@.len(),
            first_at(v@, t, i as int) == first_at(v@, t, j as int),
        decreases v.len() - j,
    {
        if v[j] == t {
            return j;
        }
        j = j + 1;
    }
    j
}

} // verus!

verus! {

pub open spec fn spec_ends_with(s: Seq<u8>, t: Seq<u8>) -> bool {
    s.len() >= t.len() && s.subrange(s.len() - t.len(), s.len() as int) == t
}

pub open spec fn spec_starts_with(s: Seq<u8>, t: Seq<u8>) -> bool {
    s.len() >= t.len() && s.subrange(0, t.len() as int) == t
}

pub fn ends_with(v: &Vec<u8>, t: &Vec<u8>) -> (r: bool)
    ensures
        r == spec_ends_with(v@, t@),
{
    if v.len() < t.len() {
        return false;
    }
    let off = v.len() - t.len();
    let mut i: usize = 0;
    while i < t.len()
        invariant
            v@.len() >= t@.len(),
            v@.len() <= usize::MAX,
            off == v@.len() - t@.len(),
            i <= t@.len(),
            forall|j: int| 0 <= j < i ==> v@[off + j] == t@[j],
        decreases t.len() - i,
    {
        if v[off + i] != t[i] {
            proof {
                assert(v@.subrange(off as int, v@.len() as int)[i as int] != t@[i as int]);
            }
            return false;
        }
        i = i + 1;
    }
    proof {
        assert(v@.subrange(off as int, v@.len() as int) =~= t@);
    }
    true
}

pub fn starts_with(v: &Vec<u8>, t: &Vec<u8>) -> (r: bool)
    ensures
        r == spec_starts_with(v@, t@),
{
    if v.len() < t.len() {
        return false;
    }
    let mut i: usize = 0;
    while i < t.len()
        invariant
            v@.len() >= t@.len(),
            i <= t@.len(),
            forall|j: int| 0 <= j < i ==> v@[j] == t@[j],
        decreases t.len() - i,
    {
        if v[i] != t[i] {
            proof {
                assert(v@.subrange(0, t@.len() as int)[i as int] != t@[i as int]);
            }
            return false;
        }
        i = i + 1;
    }
    proof {
        assert(v@.subrange(0, t@.len() as int) =~= t@);
    }
    true
}

} // verus!
