use vstd::arithmetic::div_mod::{lemma_fundamental_div_mod, lemma_mod_multiples_basic};
use vstd::prelude::*;
use vstd::std_specs::cmp::PartialEqSpec;
use vstd::string::StringSliceAdditionalSpecFns;
use vstd::string::StrSliceExecFns;
use vstd::utf8::encode_utf8;

verus! {

/// The sum 1 + 2 + ... + n of a non-negative `n`.
pub open spec fn triangle(n: int) -> int {
    n * (n + 1) / 2
}

/// Returns 1 + 2 + ... + n, or -1 when `n` is negative.
pub fn gauss(n: i32) -> (r: i32)
    requires
        n < 0 || triangle(n as int) <= i32::MAX,
    ensures
        n < 0 ==> r == -1,
        n >= 0 ==> r == triangle(n as int),
{
    if n < 0 {
        return -1;
    }
    let wide: i64 = n as i64;
    assert(0 <= wide * (wide + 1) <= 0x7fff_ffff * 0x8000_0000) by (nonlinear_arith)
        requires 0 <= wide <= 0x7fff_ffff;
    let s: i64 = wide * (wide + 1) / 2;
    s as i32
}

/// How many elements of `s` lie in the closed range `[lo, hi]`.
pub open spec fn count_in_range(s: Seq<i32>, lo: i32, hi: i32) -> nat
    decreases s.len(),
{
    if s.len() == 0 {
        0
    } else {
        count_in_range(s.drop_last(), lo, hi) + if lo <= s.last() <= hi {
            1nat
        } else {
            0nat
        }
    }
}

/// Returns the number of elements of `ls` that lie in `[s, e]`.
pub fn in_range(ls: &[i32], s: i32, e: i32) -> (r: i32)
    requires
        ls@.len() <= i32::MAX,
    ensures
        r == count_in_range(ls@, s, e),
{
    let mut count: i32 = 0;
    let mut i: usize = 0;
    while i < ls.len()
        invariant
            i <= ls@.len() <= i32::MAX,
            count == count_in_range(ls@.subrange(0, i as int), s, e),
            count <= i,
        decreases ls@.len() - i,
    {
        assert(ls@.subrange(0, i + 1).drop_last() =~= ls@.subrange(0, i as int));
        if ls[i] >= s && ls[i] <= e {
            count += 1;
        }
        i += 1;
    }
    assert(ls@.subrange(0, i as int) =~= ls@);
    count
}

/// Some element of `set` equals `x`.
pub open spec fn has_equal<T: PartialEq>(set: Seq<T>, x: T) -> bool {
    exists|i: int| 0 <= i < set.len() && #[trigger] set[i].eq_spec(&x)
}

/// Every element of `target` equals some element of `set`.
pub open spec fn is_subset<T: PartialEq>(set: Seq<T>, target: Seq<T>) -> bool {
    forall|j: int| 0 <= j < target.len() ==> #[trigger] has_equal(set, target[j])
}

/// Returns whether every element of `target` occurs in `set`.
pub fn subset<T: PartialEq>(set: &[T], target: &[T]) -> (r: bool)
    requires
        T::obeys_eq_spec(),
    ensures
        r == is_subset(set@, target@),
{
    let mut j: usize = 0;
    while j < target.len()
        invariant
            T::obeys_eq_spec(),
            j <= target@.len(),
            forall|jj: int| 0 <= jj < j ==> #[trigger] has_equal(set@, target@[jj]),
        decreases target@.len() - j,
    {
        let mut i: usize = 0;
        let mut found = false;
        while i < set.len() && !found
            invariant
                T::obeys_eq_spec(),
                i <= set@.len(),
                j < target@.len(),
                found ==> i > 0 && set@[i - 1].eq_spec(&target@[j as int]),
                !found ==> forall|ii: int| 0 <= ii < i ==> !(#[trigger] set@[ii].eq_spec(&target@[j as int])),
            decreases set@.len() - i + if found { 0int } else { 1int },
        {
            if set[i] == target[j] {
                found = true;
            }
            i += 1;
        }
        if !found {
            assert(!has_equal(set@, target@[j as int]));
            return false;
        }
        j += 1;
    }
    true
}

/// The number whose binary digits, most significant first, are `bits`.
pub open spec fn binary_value(bits: Seq<i32>) -> int
    decreases bits.len(),
{
    if bits.len() == 0 {
        0
    } else {
        2 * binary_value(bits.drop_last()) + bits.last()
    }
}

/// Two to the power `n`.
pub open spec fn two_to(n: nat) -> int
    decreases n,
{
    if n == 0 {
        1
    } else {
        2 * two_to((n - 1) as nat)
    }
}

proof fn lemma_two_to_grows(m: nat, n: nat)
    requires
        m <= n,
    ensures
        1 <= two_to(m) <= two_to(n),
    decreases n,
{
    if n > m {
        lemma_two_to_grows(m, (n - 1) as nat);
    } else if n > 0 {
        lemma_two_to_grows(0, (n - 1) as nat);
    }
}

/// Converts binary digits, most significant first, to the number they denote.
pub fn to_decimal(ls: &[i32]) -> (r: i32)
    requires
        ls@.len() <= 31,
        forall|i: int| 0 <= i < ls@.len() ==> #[trigger] ls@[i] == 0 || ls@[i] == 1,
    ensures
        r == binary_value(ls@),
{
    let mut acc: i64 = 0;
    let mut i: usize = 0;
    proof {
        reveal_with_fuel(two_to, 32);
        assert(two_to(31) == 0x8000_0000);
    }
    while i < ls.len()
        invariant
            i <= ls@.len() <= 31,
            forall|k: int| 0 <= k < ls@.len() ==> #[trigger] ls@[k] == 0 || ls@[k] == 1,
            acc == binary_value(ls@.subrange(0, i as int)),
            0 <= acc < two_to(i as nat),
            two_to(31) == 0x8000_0000,
        decreases ls@.len() - i,
    {
        assert(ls@.subrange(0, i + 1).drop_last() =~= ls@.subrange(0, i as int));
        assert(two_to((i + 1) as nat) == 2 * two_to(i as nat));
        proof {
            lemma_two_to_grows((i + 1) as nat, 31);
        }
        acc = 2 * acc + ls[i] as i64;
        i += 1;
    }
    assert(ls@.subrange(0, i as int) =~= ls@);
    proof {
        lemma_two_to_grows(i as nat, 31);
    }
    acc as i32
}

/// Returns `lst` rotated left by one: the first element moves to the end.
pub fn rotate(lst: &[i32]) -> (r: Vec<i32>)
    ensures
        r@.len() == lst@.len(),
        forall|i: int| 0 <= i < lst@.len() ==> #[trigger] r@[i] == lst@[(i + 1) % (lst@.len() as int)],
{
    let n: usize = lst.len();
    let mut rotated: Vec<i32> = Vec::with_capacity(n);
    let mut i: usize = 0;
    while i < n
        invariant
            n == lst@.len(),
            i <= n,
            rotated@.len() == i,
            forall|k: int| 0 <= k < i ==> #[trigger] rotated@[k] == lst@[(k + 1) % (n as int)],
        decreases n - i,
    {
        rotated.push(lst[(i + 1) % n]);
        i += 1;
    }
    rotated
}

/// `p` is a prime number.
pub open spec fn is_prime(p: int) -> bool {
    p >= 2 && forall|d: int| 2 <= d < p ==> #[trigger] (p % d) != 0
}

/// The product of the elements of `s`.
pub open spec fn product(s: Seq<u32>) -> int
    decreases s.len(),
{
    if s.len() == 0 {
        1
    } else {
        product(s.drop_last()) * s.last()
    }
}

/// The elements of `s` never decrease.
pub open spec fn non_decreasing(s: Seq<u32>) -> bool {
    forall|i: int, j: int| 0 <= i < j < s.len() ==> s[i] <= s[j]
}

proof fn lemma_divisor_of_multiple(x: int, y: int, d: int)
    requires
        d > 0,
        x % d == 0,
    ensures
        (x * y) % d == 0,
{
    lemma_fundamental_div_mod(x, d);
    let q = x / d;
    assert(x * y == (q * y) * d) by (nonlinear_arith)
        requires x == d * q + 0;
    lemma_mod_multiples_basic(q * y, d);
}

/// Returns the prime factors of `n` in non-decreasing order, each as often as it divides `n`.
pub fn factorize(n: u32) -> (r: Vec<u32>)
    requires
        n >= 2,
    ensures
        product(r@) == n,
        forall|i: int| 0 <= i < r@.len() ==> is_prime(#[trigger] r@[i] as int),
        non_decreasing(r@),
{
    let mut rest: u32 = n;
    let mut factors: Vec<u32> = Vec::new();
    let mut factor: u32 = 2;
    while factor <= rest
        invariant
            1 <= rest,
            2 <= factor,
            product(factors@) * rest == n,
            forall|i: int| 0 <= i < factors@.len() ==> is_prime(#[trigger] factors@[i] as int) && factors@[i] <= factor,
            non_decreasing(factors@),
            forall|d: int| 2 <= d < factor ==> #[trigger] (rest as int % d) != 0,
        decreases rest as int * 0x1_0000_0000 + (0xffff_ffff - factor as int),
    {
        if rest % factor == 0 {
            let ghost old_rest = rest as int;
            let ghost q = old_rest / factor as int;
            proof {
                lemma_fundamental_div_mod(old_rest, factor as int);
                assert(old_rest == factor * q);
                assert forall|d: int| 2 <= d < factor implies #[trigger] (factor as int % d) != 0 by {
                    if factor as int % d == 0 {
                        lemma_divisor_of_multiple(factor as int, q, d);
                    }
                }
                assert forall|d: int| 2 <= d < factor implies #[trigger] (q % d) != 0 by {
                    if q % d == 0 {
                        lemma_divisor_of_multiple(q, factor as int, d);
                        assert(q * factor == old_rest) by (nonlinear_arith)
                            requires old_rest == factor * q;
                    }
                }
                assert(q >= 1) by (nonlinear_arith)
                    requires old_rest == factor * q, old_rest >= factor, factor >= 2;
                assert(q < old_rest) by (nonlinear_arith)
                    requires old_rest == factor * q, factor >= 2, q >= 1;
            }
            let ghost before = factors@;
            factors.push(factor);
            rest = rest / factor;
            proof {
                assert(rest as int == q);
                assert(factors@.drop_last() =~= before);
                assert(product(before) * factor * q == product(before) * old_rest) by (nonlinear_arith)
                    requires old_rest == factor * q;
            }
        } else {
            proof {
                lemma_mod_multiples_basic(1, rest as int);
            }
            factor = factor + 1;
        }
    }
    proof {
        if rest >= 2 {
            lemma_mod_multiples_basic(1, rest as int);
            assert(rest as int % rest as int == 0);
        }
    }
    factors
}

/// `t` occurs in `s` starting at position `i`.
pub open spec fn occurs_at(s: Seq<u8>, t: Seq<u8>, i: int) -> bool {
    0 <= i && i + t.len() <= s.len() && s.subrange(i, i + t.len()) == t
}

fn window_matches(s: &[u8], t: &[u8], i: usize) -> (r: bool)
    requires
        i + t@.len() <= s@.len(),
    ensures
        r == (s@.subrange(i as int, i + t@.len()) == t@),
{
    let n: usize = s.len();
    let mut k: usize = 0;
    while k < t.len()
        invariant
            n == s@.len(),
            i + t@.len() <= s@.len(),
            k <= t@.len(),
            forall|j: int| 0 <= j < k ==> s@[i + j] == #[trigger] t@[j],
        decreases t@.len() - k,
    {
        if s[i + k] != t[k] {
            assert(s@.subrange(i as int, i + t@.len())[k as int] != t@[k as int]);
            return false;
        }
        k += 1;
    }
    assert(s@.subrange(i as int, i + t@.len()) =~= t@);
    true
}

/// Returns whether `target` occurs in `s`, comparing UTF-8 bytes.
pub fn substr(s: &String, target: &str) -> (r: bool)
    ensures
        r == exists|i: int| occurs_at(encode_utf8(s@), target.spec_bytes(), i),
{
    let text: &str = s.as_str();
    let sb: &[u8] = text.as_bytes();
    let tb: &[u8] = target.as_bytes();
    assert(sb@ == encode_utf8(s@));
    if tb.len() > sb.len() {
        assert(forall|k: int| !#[trigger] occurs_at(sb@, tb@, k));
        return false;
    }
    let last: usize = sb.len() - tb.len();
    let mut i: usize = 0;
    loop
        invariant
            sb@ == encode_utf8(s@),
            tb@ == target.spec_bytes(),
            last == sb@.len() - tb@.len(),
            i <= last,
            forall|k: int| 0 <= k < i ==> !#[trigger] occurs_at(sb@, tb@, k),
        decreases last - i,
    {
        if window_matches(sb, tb, i) {
            assert(occurs_at(sb@, tb@, i as int));
            return true;
        }
        if i == last {
            assert(forall|k: int| !#[trigger] occurs_at(sb@, tb@, k));
            return false;
        }
        i += 1;
    }
}

/// Positions `i..j` of `b` hold one character repeated, and the range is not empty.
pub open spec fn is_run(b: Seq<char>, i: int, j: int) -> bool {
    0 <= i < j <= b.len() && forall|k: int| i <= k < j ==> #[trigger] b[k] == b[i]
}

/// `i..j` is a longest run of `b`, and no run as long starts before it.
pub open spec fn is_first_longest_run(b: Seq<char>, i: int, j: int) -> bool {
    &&& is_run(b, i, j)
    &&& forall|p: int, q: int| #[trigger] is_run(b, p, q) ==> q - p <= j - i && (p < i ==> q - p < j - i)
}

/// Returns the first longest stretch of one repeated character in `s`, or `None` when `s`
/// is empty.
pub fn longest_sequence(s: &str) -> (r: Option<&str>)
    ensures
        s@.len() == 0 <==> r is None,
        r matches Some(t) ==> exists|i: int, j: int| is_first_longest_run(s@, i, j) && t@ == s@.subrange(i, j),
{
    let n: usize = s.unicode_len();
    if n == 0 {
        return None;
    }
    let mut start: usize = 0;
    let mut end: usize = 0;
    let mut max_start: usize = 0;
    let mut max_end: usize = 0;
    while end < n
        invariant
            n == s@.len(),
            n > 0,
            0 <= max_start <= max_end <= start <= end <= n,
            forall|k: int| start <= k < end ==> #[trigger] s@[k] == s@[start as int],
            start == 0 || (start < n && s@[start - 1] != s@[start as int]),
            max_start < max_end ==> is_run(s@, max_start as int, max_end as int),
            forall|p: int, q: int|
                #[trigger] is_run(s@, p, q) && q <= start ==> q - p <= max_end - max_start && (p < max_start ==> q
                    - p < max_end - max_start),
        decreases 2 * n - start - end,
    {
        if s.get_char(start) == s.get_char(end) {
            end += 1;
        } else {
            proof {
                assert forall|p: int, q: int| #[trigger] is_run(s@, p, q) && q <= end && p < start implies q <= start by {
                    if q > start {
                        assert(s@[start - 1] == s@[p]);
                        assert(s@[start as int] == s@[p]);
                    }
                }
            }
            if end - start > max_end - max_start {
                max_start = start;
                max_end = end;
            }
            start = end;
        }
    }
    proof {
        assert forall|p: int, q: int| #[trigger] is_run(s@, p, q) && q <= end && p < start implies q <= start by {
            if q > start {
                assert(s@[start - 1] == s@[p]);
                assert(s@[start as int] == s@[p]);
            }
        }
    }
    if end - start > max_end - max_start {
        max_start = start;
        max_end = end;
    }
    assert(is_first_longest_run(s@, max_start as int, max_end as int));
    Some(s.substring_char(max_start, max_end))
}

} // verus!
