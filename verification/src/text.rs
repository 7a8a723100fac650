//! Verified byte-level helpers: segment splitting, the index and number
//! grammars, and decimal rendering of array indices.

use vstd::prelude::*;

verus! {

use crate::model::{
    SLASH, MINUS, DOT, D0, D9, is_digit, all_digits, digits_nonempty, is_number,
    is_unsigned_number, digits_val, index_of, dec_digits, index_width, first_slash, split_ne,
    split_path,
};

pub proof fn lemma_index_width_le(n: nat)
    ensures
        index_width(n) <= n,
    decreases n,
{
    if n > 0 {
        lemma_index_width_le(n / 10);
    }
}

/// The byte width budgeted for the decimal rendering of indices up to `n`.
pub fn width_of(n: usize) -> (r: usize)
    ensures
        r as nat == index_width(n as nat),
    decreases n,
{
    if n == 0 {
        0
    } else {
        let w = width_of(n / 10);
        proof {
            lemma_index_width_le(n as nat);
            lemma_index_width_le((n / 10) as nat);
        }
        w + 1
    }
}

/// The views of a sequence of byte vectors.
pub open spec fn seq_views(vs: Seq<Vec<u8>>) -> Seq<Seq<u8>> {
    Seq::new(vs.len(), |i: int| vs[i]@)
}

/// Whether `a` begins with the bytes of `p`.
pub fn starts_with(a: &[u8], p: &[u8]) -> (r: bool)
    ensures
        r == (a@.len() >= p@.len() && a@.subrange(0, p@.len() as int) == p@),
{
    if a.len() < p.len() {
        return false;
    }
    let mut i: usize = 0;
    while i < p.len()
        invariant
            0 <= i <= p@.len() <= a@.len(),
            forall|j: int| 0 <= j < i ==> a@[j] == p@[j],
        decreases p@.len() - i,
    {
        if a[i] != p[i] {
            proof {
                assert(a@.subrange(0, p@.len() as int)[i as int] == a@[i as int]);
            }
            return false;
        }
        i += 1;
    }
    proof {
        assert(a@.subrange(0, p@.len() as int) =~= p@);
    }
    true
}

/// Whether two byte slices hold the same bytes.
pub fn bytes_eq(a: &[u8], b: &[u8]) -> (r: bool)
    ensures
        r == (a@ == b@),
{
    if a.len() != b.len() {
        proof {
            assert(a@.len() != b@.len());
        }
        return false;
    }
    let mut i: usize = 0;
    while i < a.len()
        invariant
            0 <= i <= a.len(),
            a@.len() == b@.len(),
            forall|j: int| 0 <= j < i ==> a@[j] == b@[j],
        decreases a.len() - i,
    {
        if a[i] != b[i] {
            return false;
        }
        i += 1;
    }
    proof {
        assert(a@ =~= b@);
    }
    true
}

/// A copy of `p[a..b]` as an owned vector.
pub fn copy_range(p: &[u8], a: usize, b: usize) -> (r: Vec<u8>)
    requires
        a <= b <= p@.len(),
    ensures
        r@ == p@.subrange(a as int, b as int),
{
    let mut r: Vec<u8> = Vec::new();
    let mut i: usize = a;
    while i < b
        invariant
            a <= i <= b <= p@.len(),
            r@ =~= p@.subrange(a as int, i as int),
        decreases b - i,
    {
        r.push(p[i]);
        proof {
            assert(r@ =~= p@.subrange(a as int, i + 1 as int));
        }
        i += 1;
    }
    r
}

/// Whether `p[a..b]` is one or more decimal digits.
pub fn digits_in(p: &[u8], a: usize, b: usize) -> (r: bool)
    requires
        a <= b <= p@.len(),
    ensures
        r == digits_nonempty(p@.subrange(a as int, b as int)),
{
    if a >= b {
        return false;
    }
    let mut i: usize = a;
    while i < b
        invariant
            a <= i <= b <= p@.len(),
            forall|j: int| a <= j < i ==> is_digit(#[trigger] p@[j]),
        decreases b - i,
    {
        let c = p[i];
        if c < D0 || c > D9 {
            proof {
                assert(!is_digit(p@.subrange(a as int, b as int)[i - a]));
            }
            return false;
        }
        i += 1;
    }
    proof {
        assert forall|j: int| 0 <= j < b - a implies is_digit(
            #[trigger] p@.subrange(a as int, b as int)[j],
        ) by {
            assert(p@.subrange(a as int, b as int)[j] == p@[a + j]);
        }
    }
    true
}

/// Whether the whole of `s` is a valid number encoding.
pub fn check_number(s: &[u8]) -> (r: bool)
    ensures
        r == is_number(s@),
{
    let ghost b: Seq<u8> = if s@.len() > 0 && s@[0] == MINUS {
        s@.subrange(1, s@.len() as int)
    } else {
        s@
    };
    if s.len() == 0 {
        return false;
    }
    let start: usize = if s[0] == MINUS {
        1
    } else {
        0
    };
    proof {
        assert(b =~= s@.subrange(start as int, s@.len() as int));
        if s@.len() > 0 && s@[0] == MINUS {
            assert(is_number(s@) == is_unsigned_number(s@.subrange(1, s@.len() as int)));
        }
        assert(is_number(s@) == is_unsigned_number(b));
    }
    // Find the first dot, if any.
    let mut i: usize = start;
    while i < s.len() && s[i] != DOT
        invariant
            start <= i <= s@.len(),
            forall|j: int| start <= j < i ==> s@[j] != DOT,
        decreases s@.len() - i,
    {
        i += 1;
    }
    if i >= s.len() {
        // No dot: the body must be all digits.
        let r = digits_in(s, start, s.len());
        proof {
            if !r {
                assert forall|k: int|
                    !(0 < k < b.len() && b[k] == DOT && digits_nonempty(
                        #[trigger] b.subrange(0, k),
                    ) && digits_nonempty(b.subrange(k + 1, b.len() as int))) by {
                        if 0 < k < b.len() {
                            assert(b[k] == s@[start + k]);
                        }
                    }
            }
        }
        return r;
    }
    // Dot at `i`: digits strictly on both sides.
    let left = digits_in(s, start, i);
    let right = digits_in(s, i + 1, s.len());
    let r = left && right && i > start;
    proof {
        let kd: int = i - start;
        assert(b[kd] == s@[i as int]);
        assert(b.subrange(0, kd) =~= s@.subrange(start as int, i as int));
        assert(b.subrange(kd + 1, b.len() as int) =~= s@.subrange(
            i + 1 as int,
            s@.len() as int,
        ));
        if r {
            assert(0 < kd < b.len() && b[kd] == DOT && digits_nonempty(b.subrange(0, kd))
                && digits_nonempty(b.subrange(kd + 1, b.len() as int)));
            assert(is_unsigned_number(b));
        } else {
            assert forall|k: int|
                !(0 < k < b.len() && b[k] == DOT && digits_nonempty(#[trigger] b.subrange(0, k))
                    && digits_nonempty(b.subrange(k + 1, b.len() as int))) by {
                if 0 < k < b.len() && b[k] == DOT {
                    if k < kd {
                        assert(s@[start + k] != DOT);
                        assert(b[k] == s@[start + k]);
                    } else if k > kd {
                        assert(b.subrange(0, k)[kd] == b[kd]);
                        assert(!is_digit(b[kd]));
                    }
                }
            }
            if digits_nonempty(b) {
                assert(!is_digit(b[kd]));
            }
        }
    }
    r
}

proof fn lemma_digits_val_prefix(s: Seq<u8>, i: int)
    requires
        0 <= i <= s.len(),
    ensures
        digits_val(s.subrange(0, i)) <= digits_val(s),
    decreases s.len() - i,
{
    if i == s.len() {
        assert(s.subrange(0, i) =~= s);
    } else {
        lemma_digits_val_prefix(s, i + 1);
        let a = s.subrange(0, i);
        let b = s.subrange(0, i + 1);
        assert(b.drop_last() =~= a);
        assert(digits_val(b) == digits_val(a) * 10 + (b.last() - D0) as nat);
        assert(digits_val(a) <= digits_val(a) * 10) by (nonlinear_arith);
    }
}

/// Parse a segment as an array index: one or more decimal digits whose value
/// fits the machine; anything else, including an overflowing value, is `None`.
pub fn parse_index(s: &[u8]) -> (r: Option<usize>)
    ensures
        match index_of(s@) {
            Option::Some(v) => r == if v <= usize::MAX {
                Option::Some(v as usize)
            } else {
                Option::<usize>::None
            },
            Option::None => r is None,
        },
{
    if s.len() == 0 {
        return None;
    }
    let mut acc: usize = 0;
    let mut i: usize = 0;
    while i < s.len()
        invariant
            0 <= i <= s@.len(),
            forall|j: int| 0 <= j < i ==> is_digit(#[trigger] s@[j]),
            acc == digits_val(s@.subrange(0, i as int)),
        decreases s@.len() - i,
    {
        let c = s[i];
        if c < D0 || c > D9 {
            proof {
                assert(!is_digit(s@[i as int]));
            }
            return None;
        }
        let d = (c - D0) as usize;
        proof {
            assert(s@.subrange(0, i + 1 as int).drop_last() =~= s@.subrange(0, i as int));
            lemma_digits_val_prefix(s@, i + 1);
        }
        if acc > (usize::MAX - d) / 10 {
            // The value cannot fit the machine; report it as no valid index.
            proof {
                let next = digits_val(s@.subrange(0, i + 1 as int));
                assert(next == acc * 10 + d);
                assert(acc >= (usize::MAX - d) / 10 + 1);
                assert(((usize::MAX - d) / 10 + 1) * 10 > usize::MAX - d) by (nonlinear_arith);
                assert(acc * 10 >= ((usize::MAX - d) / 10 + 1) * 10) by (nonlinear_arith)
                    requires
                        acc >= (usize::MAX - d) / 10 + 1,
                ;
                assert(next > usize::MAX);
                assert(digits_val(s@) >= next);
            }
            return None;
        }
        acc = acc * 10 + d;
        i += 1;
    }
    proof {
        assert(s@.subrange(0, s@.len() as int) =~= s@);
        assert(digits_nonempty(s@));
    }
    Some(acc)
}

/// Decimal rendering of `i`, no leading zeros.
pub fn render_index(i: usize) -> (r: Vec<u8>)
    ensures
        r@ == dec_digits(i as nat),
    decreases i,
{
    if i < 10 {
        let mut v: Vec<u8> = Vec::new();
        v.push(D0 + i as u8);
        proof {
            assert(v@ =~= dec_digits(i as nat));
        }
        v
    } else {
        let mut v = render_index(i / 10);
        v.push(D0 + (i % 10) as u8);
        v
    }
}

pub proof fn lemma_first_slash_at(s: Seq<u8>, k: int)
    requires
        0 <= k <= s.len(),
        forall|j: int| 0 <= j < k ==> s[j] != SLASH,
        k < s.len() ==> s[k] == SLASH,
    ensures
        first_slash(s) == k,
    decreases k,
{
    if k == 0 {
    } else {
        lemma_first_slash_at(s.drop_first(), k - 1);
    }
}

fn split_from(p: &[u8], start: usize) -> (r: Vec<Vec<u8>>)
    requires
        start <= p@.len(),
    ensures
        seq_views(r@) == split_ne(p@.subrange(start as int, p@.len() as int)),
    decreases p@.len() - start,
{
    let ghost s: Seq<u8> = p@.subrange(start as int, p@.len() as int);
    let mut j: usize = start;
    while j < p.len() && p[j] != SLASH
        invariant
            start <= j <= p@.len(),
            forall|i: int| start <= i < j ==> p@[i] != SLASH,
        decreases p@.len() - j,
    {
        j += 1;
    }
    proof {
        assert forall|i: int| 0 <= i < j - start implies s[i] != SLASH by {
            assert(s[i] == p@[start + i]);
        }
        if j < p@.len() {
            assert(s[j - start] == p@[j as int]);
        }
        lemma_first_slash_at(s, j - start);
    }
    if j >= p.len() {
        let seg = copy_range(p, start, p.len());
        let mut r: Vec<Vec<u8>> = Vec::new();
        r.push(seg);
        proof {
            assert(seq_views(r@) =~= seq![s]);
        }
        r
    } else {
        let seg = copy_range(p, start, j);
        let mut rest = split_from(p, j + 1);
        let mut r: Vec<Vec<u8>> = Vec::new();
        r.push(seg);
        proof {
            assert(seg@ =~= s.subrange(0, j - start));
            assert(p@.subrange(j + 1 as int, p@.len() as int) =~= s.subrange(
                j - start + 1,
                s.len() as int,
            ));
        }
        r.append(&mut rest);
        proof {
            assert(seq_views(r@) =~= seq![s.subrange(0, j - start)] + split_ne(
                s.subrange(j - start + 1, s.len() as int),
            ));
        }
        r
    }
}

/// Split a path text into its segments; the empty text has none.
pub fn split_segments(p: &[u8]) -> (r: Vec<Vec<u8>>)
    ensures
        seq_views(r@) == split_path(p@),
{
    if p.len() == 0 {
        let r: Vec<Vec<u8>> = Vec::new();
        proof {
            assert(seq_views(r@) =~= split_path(p@));
        }
        r
    } else {
        let r = split_from(p, 0);
        proof {
            assert(p@.subrange(0, p@.len() as int) =~= p@);
        }
        r
    }
}

} // verus!
