//! Natural ("human") ordering of names: runs of decimal digits compare by
//! their numeric value, everything else compares byte-wise, ignoring ASCII case.

use std::cmp::Ordering;
use vstd::prelude::*;
use vstd::string::StringSliceAdditionalSpecFns;

verus! {

/// The outcome of comparing two texts, before it is handed out as a `std::cmp::Ordering`.
#[derive(PartialEq, Eq, Structural, Clone, Copy, Debug)]
pub enum Order {
    Less,
    Equal,
    Greater,
}

/// The outcome with both sides swapped.
pub open spec fn reversed(o: Order) -> Order {
    match o {
        Order::Less => Order::Greater,
        Order::Equal => Order::Equal,
        Order::Greater => Order::Less,
    }
}

/// `std::cmp::Ordering` value corresponding to `o`.
pub open spec fn to_ordering(o: Order) -> Ordering {
    match o {
        Order::Less => Ordering::Less,
        Order::Equal => Ordering::Equal,
        Order::Greater => Ordering::Greater,
    }
}

pub open spec fn byte_is_digit(b: u8) -> bool {
    48 <= b && b <= 57
}

/// ASCII lower-casing of one byte; every other byte is unchanged.
pub open spec fn byte_lower(b: u8) -> u8 {
    if 65 <= b && b <= 90 {
        (b + 32) as u8
    } else {
        b
    }
}

/// Order of two integers.
pub open spec fn order_of(a: int, b: int) -> Order {
    if a < b {
        Order::Less
    } else if a > b {
        Order::Greater
    } else {
        Order::Equal
    }
}

/// Index just past the run of ASCII digits that starts at `i`.
pub open spec fn digit_run_end(s: Seq<u8>, i: int) -> int
    decreases s.len() - i,
{
    if 0 <= i < s.len() && byte_is_digit(s[i]) {
        digit_run_end(s, i + 1)
    } else {
        i
    }
}

/// First index of the digit run `s[a..e)` that is not a leading zero; a run of zeros
/// keeps its last zero.
pub open spec fn significant_start(s: Seq<u8>, a: int, e: int) -> int
    decreases e - a,
{
    if a < e - 1 && s[a] == 48 {
        significant_start(s, a + 1, e)
    } else {
        a
    }
}

/// Lexicographic order of `l[li..li+n)` and `r[ri..ri+n)`.
pub open spec fn lex_order(l: Seq<u8>, li: int, r: Seq<u8>, ri: int, n: int) -> Order
    decreases n,
{
    if n <= 0 {
        Order::Equal
    } else if l[li] < r[ri] {
        Order::Less
    } else if l[li] > r[ri] {
        Order::Greater
    } else {
        lex_order(l, li + 1, r, ri + 1, n - 1)
    }
}

pub proof fn lemma_digit_run_end_bounds(s: Seq<u8>, i: int)
    requires
        0 <= i <= s.len(),
    ensures
        i <= digit_run_end(s, i) <= s.len(),
        i < s.len() && byte_is_digit(s[i]) ==> i < digit_run_end(s, i),
        forall|k: int| i <= k < digit_run_end(s, i) ==> byte_is_digit(#[trigger] s[k]),
        digit_run_end(s, i) < s.len() ==> !byte_is_digit(s[digit_run_end(s, i)]),
    decreases s.len() - i,
{
    if i < s.len() && byte_is_digit(s[i]) {
        lemma_digit_run_end_bounds(s, i + 1);
    }
}

pub proof fn lemma_significant_start_bounds(s: Seq<u8>, a: int, e: int)
    requires
        a < e,
    ensures
        a <= significant_start(s, a, e) < e,
    decreases e - a,
{
    if a < e - 1 && s[a] == 48 {
        lemma_significant_start_bounds(s, a + 1, e);
    }
}

/// Natural order of `l[i..]` against `r[j..]`, where the final tie-break compares the
/// full lengths of `l` and `r`.
pub open spec fn natural_order_from(l: Seq<u8>, r: Seq<u8>, i: int, j: int) -> Order
    decreases l.len() - i + r.len() - j,
{
    if 0 <= i < l.len() && 0 <= j < r.len() {
        if byte_is_digit(l[i]) && byte_is_digit(r[j]) {
            let ie = digit_run_end(l, i);
            let je = digit_run_end(r, j);
            proof {
                lemma_digit_run_end_bounds(l, i);
                lemma_digit_run_end_bounds(r, j);
            }
            let ls = significant_start(l, i, ie);
            let rs = significant_start(r, j, je);
            if ie - ls != je - rs {
                order_of(ie - ls, je - rs)
            } else if lex_order(l, ls, r, rs, ie - ls) != Order::Equal {
                lex_order(l, ls, r, rs, ie - ls)
            } else {
                natural_order_from(l, r, ie, je)
            }
        } else if byte_lower(l[i]) != byte_lower(r[j]) {
            order_of(byte_lower(l[i]) as int, byte_lower(r[j]) as int)
        } else {
            natural_order_from(l, r, i + 1, j + 1)
        }
    } else {
        order_of(l.len() as int, r.len() as int)
    }
}

/// Natural order of two byte strings.
pub open spec fn natural_order(l: Seq<u8>, r: Seq<u8>) -> Order {
    natural_order_from(l, r, 0, 0)
}

/// Computes `natural_order` on two byte slices.
pub fn natural_order_bytes(l: &[u8], r: &[u8]) -> (o: Order)
    ensures
        o == natural_order(l@, r@),
{
    let mut i: usize = 0;
    let mut j: usize = 0;
    while i < l.len() && j < r.len()
        invariant
            i <= l@.len(),
            j <= r@.len(),
            natural_order_from(l@, r@, i as int, j as int) == natural_order(l@, r@),
        decreases l@.len() - i + r@.len() - j,
    {
        let lb = l[i];
        let rb = r[j];
        if 48 <= lb && lb <= 57 && 48 <= rb && rb <= 57 {
            let is0 = i;
            let js0 = j;
            let ghost i0 = i as int;
            let ghost j0 = j as int;
            proof {
                lemma_digit_run_end_bounds(l@, i0);
                lemma_digit_run_end_bounds(r@, j0);
            }
            while i < l.len() && 48 <= l[i] && l[i] <= 57
                invariant
                    i0 <= i <= l@.len(),
                    digit_run_end(l@, i0) == digit_run_end(l@, i as int),
                decreases l@.len() - i,
            {
                i += 1;
            }
            while j < r.len() && 48 <= r[j] && r[j] <= 57
                invariant
                    j0 <= j <= r@.len(),
                    digit_run_end(r@, j0) == digit_run_end(r@, j as int),
                decreases r@.len() - j,
            {
                j += 1;
            }
            assert(digit_run_end(l@, i0) == i);
            assert(digit_run_end(r@, j0) == j);
            let mut a: usize = is0;
            while a + 1 < i && l[a] == 48
                invariant
                    i0 <= a < i,
                    i <= l@.len(),
                    significant_start(l@, i0, i as int) == significant_start(l@, a as int, i as int),
                decreases i - a,
            {
                a += 1;
            }
            let mut b: usize = js0;
            while b + 1 < j && r[b] == 48
                invariant
                    j0 <= b < j,
                    j <= r@.len(),
                    significant_start(r@, j0, j as int) == significant_start(r@, b as int, j as int),
                decreases j - b,
            {
                b += 1;
            }
            let ln = i - a;
            let rn = j - b;
            if ln < rn {
                return Order::Less;
            } else if ln > rn {
                return Order::Greater;
            }
            let mut k: usize = 0;
            assert(significant_start(l@, i0, i as int) == a);
            assert(significant_start(r@, j0, j as int) == b);
            while k < ln
                invariant
                    0 <= i0 < l@.len(),
                    0 <= j0 < r@.len(),
                    byte_is_digit(l@[i0]),
                    byte_is_digit(r@[j0]),
                    digit_run_end(l@, i0) == i,
                    digit_run_end(r@, j0) == j,
                    significant_start(l@, i0, i as int) == a,
                    significant_start(r@, j0, j as int) == b,
                    ln == i - a,
                    ln == j - b,
                    natural_order_from(l@, r@, i0, j0) == natural_order(l@, r@),
                    k <= ln,
                    a + ln == i <= l@.len(),
                    b + ln == j <= r@.len(),
                    lex_order(l@, a as int, r@, b as int, ln as int) == lex_order(
                        l@,
                        a + k,
                        r@,
                        b + k,
                        ln - k,
                    ),
                decreases ln - k,
            {
                let x = l[a + k];
                let y = r[b + k];
                if x < y {
                    return Order::Less;
                } else if x > y {
                    return Order::Greater;
                }
                k += 1;
            }
        } else {
            let x = if 65 <= lb && lb <= 90 { lb + 32 } else { lb };
            let y = if 65 <= rb && rb <= 90 { rb + 32 } else { rb };
            if x < y {
                return Order::Less;
            } else if x > y {
                return Order::Greater;
            }
            i += 1;
            j += 1;
        }
    }
    if l.len() < r.len() {
        Order::Less
    } else if l.len() > r.len() {
        Order::Greater
    } else {
        Order::Equal
    }
}

/// Compares two names in natural order: digit runs by numeric value (a longer
/// significant run is larger, leading zeros are ignored), other bytes after ASCII
/// lower-casing; when one side runs out, the byte lengths of the whole texts decide.
pub fn natural_cmp(left: &str, right: &str) -> (result: Ordering)
    ensures
        result == to_ordering(natural_order(left.spec_bytes(), right.spec_bytes())),
{
    let o = natural_order_bytes(left.as_bytes(), right.as_bytes());
    match o {
        Order::Less => Ordering::Less,
        Order::Equal => Ordering::Equal,
        Order::Greater => Ordering::Greater,
    }
}

proof fn lemma_lex_order_swap(l: Seq<u8>, li: int, r: Seq<u8>, ri: int, n: int)
    ensures
        lex_order(l, li, r, ri, n) == reversed(lex_order(r, ri, l, li, n)),
    decreases n,
{
    if n > 0 {
        lemma_lex_order_swap(l, li + 1, r, ri + 1, n - 1);
    }
}

proof fn lemma_lex_order_same(l: Seq<u8>, li: int, n: int)
    ensures
        lex_order(l, li, l, li, n) == Order::Equal,
    decreases n,
{
    if n > 0 {
        lemma_lex_order_same(l, li + 1, n - 1);
    }
}

proof fn lemma_order_from_swap(l: Seq<u8>, r: Seq<u8>, i: int, j: int)
    ensures
        natural_order_from(l, r, i, j) == reversed(natural_order_from(r, l, j, i)),
    decreases l.len() - i + r.len() - j,
{
    if 0 <= i < l.len() && 0 <= j < r.len() {
        if byte_is_digit(l[i]) && byte_is_digit(r[j]) {
            let ie = digit_run_end(l, i);
            let je = digit_run_end(r, j);
            lemma_digit_run_end_bounds(l, i);
            lemma_digit_run_end_bounds(r, j);
            let ls = significant_start(l, i, ie);
            let rs = significant_start(r, j, je);
            lemma_lex_order_swap(l, ls, r, rs, ie - ls);
            lemma_order_from_swap(l, r, ie, je);
        } else if byte_lower(l[i]) == byte_lower(r[j]) {
            lemma_order_from_swap(l, r, i + 1, j + 1);
        }
    }
}

proof fn lemma_order_from_same(l: Seq<u8>, i: int)
    ensures
        natural_order_from(l, l, i, i) == Order::Equal,
    decreases l.len() - i,
{
    if 0 <= i < l.len() {
        if byte_is_digit(l[i]) {
            let ie = digit_run_end(l, i);
            lemma_digit_run_end_bounds(l, i);
            let ls = significant_start(l, i, ie);
            lemma_lex_order_same(l, ls, ie - ls);
            lemma_order_from_same(l, ie);
        } else {
            lemma_order_from_same(l, i + 1);
        }
    }
}

/// Swapping the two sides of a natural comparison reverses its outcome.
pub proof fn law_natural_order_antisymmetric(a: Seq<u8>, b: Seq<u8>)
    ensures
        natural_order(a, b) == reversed(natural_order(b, a)),
{
    lemma_order_from_swap(a, b, 0, 0);
}

/// Every text is naturally equal to itself.
pub proof fn law_natural_order_reflexive(a: Seq<u8>)
    ensures
        natural_order(a, a) == Order::Equal,
{
    lemma_order_from_same(a, 0);
}

/// ASCII lower-casing of every byte of a text.
pub open spec fn lower_bytes(s: Seq<u8>) -> Seq<u8> {
    s.map_values(|b: u8| byte_lower(b))
}

proof fn lemma_lower_digit_run_end(s: Seq<u8>, i: int)
    requires
        0 <= i <= s.len(),
    ensures
        digit_run_end(lower_bytes(s), i) == digit_run_end(s, i),
    decreases s.len() - i,
{
    if i < s.len() {
        assert(byte_is_digit(lower_bytes(s)[i]) == byte_is_digit(s[i]));
        if byte_is_digit(s[i]) {
            lemma_lower_digit_run_end(s, i + 1);
        }
    }
}

proof fn lemma_lower_significant_start(s: Seq<u8>, a: int, e: int)
    requires
        0 <= a < e <= s.len(),
        forall|k: int| a <= k < e ==> byte_is_digit(#[trigger] s[k]),
    ensures
        significant_start(lower_bytes(s), a, e) == significant_start(s, a, e),
    decreases e - a,
{
    if a < e - 1 {
        assert(lower_bytes(s)[a] == s[a]);
        lemma_lower_significant_start(s, a + 1, e);
    }
}

proof fn lemma_lower_lex_order(l: Seq<u8>, li: int, r: Seq<u8>, ri: int, n: int)
    requires
        0 <= li,
        li + n <= l.len(),
        forall|k: int| li <= k < li + n ==> byte_is_digit(#[trigger] l[k]),
    ensures
        lex_order(lower_bytes(l), li, r, ri, n) == lex_order(l, li, r, ri, n),
    decreases n,
{
    if n > 0 {
        assert(lower_bytes(l)[li] == l[li]);
        lemma_lower_lex_order(l, li + 1, r, ri + 1, n - 1);
    }
}

proof fn lemma_lower_order_from(l: Seq<u8>, r: Seq<u8>, i: int, j: int)
    requires
        0 <= i <= l.len(),
        0 <= j <= r.len(),
    ensures
        natural_order_from(lower_bytes(l), r, i, j) == natural_order_from(l, r, i, j),
    decreases l.len() - i + r.len() - j,
{
    let ll = lower_bytes(l);
    if i < l.len() && j < r.len() {
        assert(ll[i] == byte_lower(l[i]));
        assert(byte_lower(ll[i]) == byte_lower(l[i]));
        assert(byte_is_digit(ll[i]) == byte_is_digit(l[i]));
        if byte_is_digit(l[i]) && byte_is_digit(r[j]) {
            lemma_digit_run_end_bounds(l, i);
            lemma_digit_run_end_bounds(r, j);
            lemma_lower_digit_run_end(l, i);
            let ie = digit_run_end(l, i);
            lemma_lower_significant_start(l, i, ie);
            let ls = significant_start(l, i, ie);
            lemma_significant_start_bounds(l, i, ie);
            lemma_lower_lex_order(l, ls, r, significant_start(r, j, digit_run_end(r, j)), ie - ls);
            lemma_lower_order_from(l, r, ie, digit_run_end(r, j));
        } else {
            lemma_lower_order_from(l, r, i + 1, j + 1);
        }
    }
}

/// Natural order ignores ASCII case: lower-casing one side never changes the outcome.
pub proof fn law_natural_order_ignores_ascii_case(a: Seq<u8>, b: Seq<u8>)
    ensures
        natural_order(lower_bytes(a), b) == natural_order(a, b),
{
    lemma_lower_order_from(a, b, 0, 0);
}

// ---------------------------------------------------------------------------
// Digit runs compare by value
// ---------------------------------------------------------------------------

/// Ten to the `n`.
pub open spec fn ten_pow(n: nat) -> nat
    decreases n,
{
    if n == 0 {
        1
    } else {
        10 * ten_pow((n - 1) as nat)
    }
}

/// Value of the digit bytes `s[a..e)` read in base ten.
pub open spec fn run_value(s: Seq<u8>, a: int, e: int) -> nat
    decreases e - a,
{
    if e <= a {
        0
    } else {
        run_value(s, a, e - 1) * 10 + (s[e - 1] - 48) as nat
    }
}

proof fn lemma_ten_pow_grows(a: nat, b: nat)
    requires
        a <= b,
    ensures
        1 <= ten_pow(a) <= ten_pow(b),
    decreases b,
{
    if b > a {
        lemma_ten_pow_grows(a, (b - 1) as nat);
    } else if a > 0 {
        lemma_ten_pow_grows((a - 1) as nat, (a - 1) as nat);
    }
}

/// The first digit of a run weighs ten to the number of digits after it.
proof fn lemma_run_value_front(s: Seq<u8>, a: int, e: int)
    requires
        0 <= a < e <= s.len(),
        forall|k: int| a <= k < e ==> byte_is_digit(#[trigger] s[k]),
    ensures
        run_value(s, a, e) == (s[a] - 48) * ten_pow((e - a - 1) as nat) + run_value(s, a + 1, e),
    decreases e - a,
{
    assert(byte_is_digit(s[a]) && byte_is_digit(s[e - 1]));
    if e - a == 1 {
        assert(run_value(s, a, a) == 0);
        assert(run_value(s, a + 1, e) == 0);
        assert(ten_pow(0) == 1);
        assert((e - a - 1) as nat == 0);
        assert(run_value(s, a, e) == (s[a] - 48) as nat);
        assert((s[a] - 48) * ten_pow((e - a - 1) as nat) == s[a] - 48);
    } else {
        lemma_run_value_front(s, a, e - 1);
        let d = s[a] - 48;
        let p = ten_pow((e - a - 2) as nat);
        let x = run_value(s, a + 1, e - 1);
        let last = (s[e - 1] - 48) as nat;
        assert(run_value(s, a, e) == (d * p + x) * 10 + last);
        assert(run_value(s, a + 1, e) == x * 10 + last);
        assert(ten_pow((e - a - 1) as nat) == 10 * p);
        assert((d * p + x) * 10 + last == d * (10 * p) + (x * 10 + last)) by (nonlinear_arith);
        assert(run_value(s, a, e) == d * ten_pow((e - a - 1) as nat) + run_value(s, a + 1, e));
    }
}

/// A run of `n` digits is below ten to the `n`, and at least ten to the `n - 1` when its
/// first digit is not zero.
proof fn lemma_run_value_bounds(s: Seq<u8>, a: int, e: int)
    requires
        0 <= a < e <= s.len(),
        forall|k: int| a <= k < e ==> byte_is_digit(#[trigger] s[k]),
    ensures
        run_value(s, a, e) < ten_pow((e - a) as nat),
        s[a] != 48 ==> ten_pow((e - a - 1) as nat) <= run_value(s, a, e),
    decreases e - a,
{
    lemma_run_value_front(s, a, e);
    let d = (s[a] - 48) as int;
    let p = ten_pow((e - a - 1) as nat) as int;
    let x = run_value(s, a + 1, e) as int;
    lemma_ten_pow_grows(0, (e - a - 1) as nat);
    if a + 1 < e {
        lemma_run_value_bounds(s, a + 1, e);
    } else {
        assert(x == 0);
    }
    assert(x < p);
    assert(0 <= d <= 9);
    assert(d * p + x < 10 * p) by (nonlinear_arith)
        requires
            0 <= d <= 9,
            0 <= x < p,
    ;
    if s[a] != 48 {
        assert(p <= d * p + x) by (nonlinear_arith)
            requires
                1 <= d,
                0 <= x,
                0 <= p,
        ;
    }
}

/// Leading zeros do not change the value of a run.
proof fn lemma_run_value_significant(s: Seq<u8>, a: int, e: int)
    requires
        0 <= a < e <= s.len(),
        forall|k: int| a <= k < e ==> byte_is_digit(#[trigger] s[k]),
    ensures
        run_value(s, a, e) == run_value(s, significant_start(s, a, e), e),
    decreases e - a,
{
    if a < e - 1 && s[a] == 48 {
        lemma_run_value_front(s, a, e);
        lemma_run_value_significant(s, a + 1, e);
    }
}

/// Digit runs of the same length compare byte by byte as their values compare.
proof fn lemma_lex_order_value(l: Seq<u8>, li: int, r: Seq<u8>, ri: int, n: int)
    requires
        0 <= li,
        li + n <= l.len(),
        0 <= ri,
        ri + n <= r.len(),
        forall|k: int| li <= k < li + n ==> byte_is_digit(#[trigger] l[k]),
        forall|k: int| ri <= k < ri + n ==> byte_is_digit(#[trigger] r[k]),
    ensures
        lex_order(l, li, r, ri, n) == order_of(run_value(l, li, li + n) as int, run_value(r, ri, ri + n) as int),
    decreases n,
{
    if n > 0 {
        lemma_run_value_front(l, li, li + n);
        lemma_run_value_front(r, ri, ri + n);
        let p = ten_pow((n - 1) as nat) as int;
        let dl = (l[li] - 48) as int;
        let dr = (r[ri] - 48) as int;
        let x = run_value(l, li + 1, li + n) as int;
        let y = run_value(r, ri + 1, ri + n) as int;
        if n > 1 {
            lemma_run_value_bounds(l, li + 1, li + n);
            lemma_run_value_bounds(r, ri + 1, ri + n);
        } else {
            assert(x == 0 && y == 0);
            assert(p == 1);
        }
        assert(0 <= x < p && 0 <= y < p);
        if dl < dr {
            assert(dl * p + x < dr * p + y) by (nonlinear_arith)
                requires
                    dl < dr,
                    0 <= x < p,
                    0 <= y,
            ;
        } else if dl > dr {
            assert(dl * p + x > dr * p + y) by (nonlinear_arith)
                requires
                    dl > dr,
                    0 <= y < p,
                    0 <= x,
            ;
        } else {
            lemma_lex_order_value(l, li + 1, r, ri + 1, n - 1);
        }
    }
}

/// Where two names are compared at the start of a digit run on each side, the runs count
/// by their numeric values, leading zeros aside: different values decide the order, equal
/// values let the comparison go on after the runs.
pub proof fn law_digit_runs_compare_by_value(l: Seq<u8>, r: Seq<u8>, i: int, j: int)
    requires
        0 <= i < l.len(),
        0 <= j < r.len(),
        byte_is_digit(l[i]),
        byte_is_digit(r[j]),
    ensures
        run_value(l, i, digit_run_end(l, i)) != run_value(r, j, digit_run_end(r, j)) ==> natural_order_from(l, r, i, j)
            == order_of(run_value(l, i, digit_run_end(l, i)) as int, run_value(r, j, digit_run_end(r, j)) as int),
        run_value(l, i, digit_run_end(l, i)) == run_value(r, j, digit_run_end(r, j)) ==> natural_order_from(l, r, i, j)
            == natural_order_from(l, r, digit_run_end(l, i), digit_run_end(r, j)),
{
    let ie = digit_run_end(l, i);
    let je = digit_run_end(r, j);
    lemma_digit_run_end_bounds(l, i);
    lemma_digit_run_end_bounds(r, j);
    let ls = significant_start(l, i, ie);
    let rs = significant_start(r, j, je);
    lemma_significant_start_bounds(l, i, ie);
    lemma_significant_start_bounds(r, j, je);
    lemma_run_value_significant(l, i, ie);
    lemma_run_value_significant(r, j, je);
    let vl = run_value(l, ls, ie);
    let vr = run_value(r, rs, je);
    lemma_run_value_bounds(l, ls, ie);
    lemma_run_value_bounds(r, rs, je);
    lemma_significant_first(l, i, ie);
    lemma_significant_first(r, j, je);
    if ie - ls < je - rs {
        lemma_ten_pow_grows((ie - ls) as nat, (je - rs - 1) as nat);
        assert(vl < vr);
    } else if ie - ls > je - rs {
        lemma_ten_pow_grows((je - rs) as nat, (ie - ls - 1) as nat);
        assert(vr < vl);
    } else {
        lemma_lex_order_value(l, ls, r, rs, ie - ls);
    }
}

/// A significant run starts with a non-zero digit, unless it is a single digit.
proof fn lemma_significant_first(s: Seq<u8>, a: int, e: int)
    requires
        a < e,
    ensures
        significant_start(s, a, e) == e - 1 || s[significant_start(s, a, e)] != 48,
    decreases e - a,
{
    if a < e - 1 && s[a] == 48 {
        lemma_significant_first(s, a + 1, e);
    }
}

} // verus!
