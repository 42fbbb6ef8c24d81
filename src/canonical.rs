use vstd::prelude::*;
use crate::arith::{exp2, lemma_exp2_adds, lemma_exp2_monotone, lemma_exp2_pos, lemma_exp2_values, sum_to, lemma_sum_add, lemma_sum_eq, lemma_sum_zero};

verus! {

/// The longest code length that a 16-bit code value can hold.
pub const MAX_CODE_LEN: u8 = 16;

/// The symbols below `n` whose length is `l`, in increasing order.
pub open spec fn with_len(lens: Seq<u8>, l: nat, n: nat) -> Seq<nat>
    decreases n,
{
    if n == 0 {
        Seq::empty()
    } else {
        let rest = with_len(lens, l, (n - 1) as nat);
        if n - 1 < lens.len() && lens[n - 1] as nat == l {
            rest.push((n - 1) as nat)
        } else {
            rest
        }
    }
}

/// The symbols whose length lies in `1..=l`, by length and then by symbol.
pub open spec fn order_upto(lens: Seq<u8>, l: nat) -> Seq<nat>
    decreases l,
{
    if l == 0 {
        Seq::empty()
    } else {
        order_upto(lens, (l - 1) as nat) + with_len(lens, l, lens.len())
    }
}

/// The active symbols (nonzero length) sorted by length, then by symbol.
pub open spec fn canonical_order(lens: Seq<u8>) -> Seq<nat> {
    order_upto(lens, MAX_CODE_LEN as nat)
}

/// The length of the `k`-th symbol of the canonical order.
pub open spec fn len_at(lens: Seq<u8>, k: int) -> nat {
    lens[canonical_order(lens)[k] as int] as nat
}

/// The canonical code of the `k`-th symbol of the canonical order: the first
/// code is all zeros, and each next code is the previous one plus one,
/// padded with zeros on the right up to its own length.
pub open spec fn canon_code(lens: Seq<u8>, k: nat) -> nat
    decreases k,
{
    if k == 0 {
        0
    } else {
        (canon_code(lens, (k - 1) as nat) + 1) * exp2((len_at(lens, k as int) - len_at(lens, k - 1)) as nat)
    }
}

/// The share `2^(w - l)` of a code of length `l` among all codes of length `w`.
pub open spec fn share(w: nat, l: nat) -> nat {
    exp2((w - l) as nat)
}

/// The shares, at width `w`, of the first `k` symbols of the canonical order.
pub open spec fn code_prefix(lens: Seq<u8>, w: nat, k: nat) -> nat
    decreases k,
{
    if k == 0 {
        0
    } else {
        code_prefix(lens, w, (k - 1) as nat) + share(w, len_at(lens, k - 1))
    }
}

/// The term of symbol `s` in the Kraft sum at width `w`.
pub open spec fn kraft_term(lens: Seq<u8>, w: nat, s: int) -> int {
    if 0 <= s < lens.len() && lens[s] >= 1 {
        share(w, lens[s] as nat) as int
    } else {
        0
    }
}

/// The Kraft sum of a length table scaled by `2^w`: the sum over active
/// symbols of `2^(w - length)`.
pub open spec fn kraft_sum(lens: Seq<u8>, w: nat) -> int {
    sum_to(|s: int| kraft_term(lens, w, s), lens.len() as int)
}

/// Every length is at most `w`.
pub open spec fn lens_bounded(lens: Seq<u8>, w: nat) -> bool {
    forall|s: int| 0 <= s < lens.len() ==> #[trigger] lens[s] as nat <= w
}

/// A length table from which canonical codes can be built: lengths fit a
/// 16-bit code and the codes do not oversubscribe the code space.
pub open spec fn lens_valid(lens: Seq<u8>) -> bool {
    &&& lens_bounded(lens, MAX_CODE_LEN as nat)
    &&& kraft_sum(lens, MAX_CODE_LEN as nat) <= exp2(MAX_CODE_LEN as nat)
}

/// Symbol `a` comes before symbol `b` in the (length, symbol) order.
pub open spec fn before(lens: Seq<u8>, a: nat, b: nat) -> bool {
    lens[a as int] < lens[b as int] || (lens[a as int] == lens[b as int] && a < b)
}

proof fn lemma_with_len(lens: Seq<u8>, l: nat, n: nat)
    requires
        n <= lens.len(),
    ensures
        forall|k: int|
            0 <= k < with_len(lens, l, n).len() ==> {
                &&& #[trigger] with_len(lens, l, n)[k] < n
                &&& lens[with_len(lens, l, n)[k] as int] as nat == l
            },
        forall|j: int, k: int|
            0 <= j < k < with_len(lens, l, n).len() ==> #[trigger] with_len(lens, l, n)[j]
                < #[trigger] with_len(lens, l, n)[k],
        forall|s: int|
            0 <= s < n && lens[s] as nat == l ==> #[trigger] with_len(lens, l, n).contains(
                s as nat,
            ),
    decreases n,
{
    if n > 0 {
        lemma_with_len(lens, l, (n - 1) as nat);
        let rest = with_len(lens, l, (n - 1) as nat);
        assert forall|s: int| 0 <= s < n && lens[s] as nat == l implies #[trigger] with_len(
            lens,
            l,
            n,
        ).contains(s as nat) by {
            if s < n - 1 {
                assert(rest.contains(s as nat));
                let i = choose|i: int| 0 <= i < rest.len() && rest[i] == s as nat;
                assert(with_len(lens, l, n)[i] == s as nat);
            } else {
                assert(with_len(lens, l, n)[rest.len() as int] == s as nat);
            }
        }
    }
}

/// The canonical order lists each active symbol once, in strictly
/// increasing (length, symbol) order.
pub proof fn lemma_order_upto(lens: Seq<u8>, l: nat)
    ensures
        forall|k: int|
            0 <= k < order_upto(lens, l).len() ==> {
                &&& #[trigger] order_upto(lens, l)[k] < lens.len()
                &&& 1 <= lens[order_upto(lens, l)[k] as int] <= l
            },
        forall|j: int, k: int|
            0 <= j < k < order_upto(lens, l).len() ==> before(
                lens,
                #[trigger] order_upto(lens, l)[j],
                #[trigger] order_upto(lens, l)[k],
            ),
        forall|s: int|
            0 <= s < lens.len() && 1 <= lens[s] <= l ==> #[trigger] order_upto(lens, l).contains(
                s as nat,
            ),
    decreases l,
{
    if l > 0 {
        let a = order_upto(lens, (l - 1) as nat);
        let b = with_len(lens, l, lens.len());
        lemma_order_upto(lens, (l - 1) as nat);
        lemma_with_len(lens, l, lens.len());
        let o = order_upto(lens, l);
        assert(o == a + b);
        assert forall|j: int, k: int| 0 <= j < k < o.len() implies before(
            lens,
            #[trigger] o[j],
            #[trigger] o[k],
        ) by {
            if k < a.len() {
                assert(o[j] == a[j] && o[k] == a[k]);
            } else if j >= a.len() {
                assert(o[j] == b[j - a.len()] && o[k] == b[k - a.len()]);
            } else {
                assert(o[j] == a[j] && o[k] == b[k - a.len()]);
            }
        }
        assert forall|s: int| 0 <= s < lens.len() && 1 <= lens[s] <= l implies #[trigger] o.contains(
            s as nat,
        ) by {
            if lens[s] < l {
                assert(a.contains(s as nat));
                let i = choose|i: int| 0 <= i < a.len() && a[i] == s as nat;
                assert(o[i] == s as nat);
            } else {
                assert(b.contains(s as nat));
                let i = choose|i: int| 0 <= i < b.len() && b[i] == s as nat;
                assert(o[i + a.len()] == s as nat);
            }
        }
        assert forall|k: int| 0 <= k < o.len() implies {
            &&& #[trigger] o[k] < lens.len()
            &&& 1 <= lens[o[k] as int] <= l
        } by {
            if k < a.len() {
                assert(o[k] == a[k]);
            } else {
                assert(o[k] == b[k - a.len()]);
            }
        }
    }
}

/// Facts about the canonical order of a table whose lengths fit a 16-bit code.
pub proof fn lemma_order(lens: Seq<u8>)
    requires
        lens_bounded(lens, MAX_CODE_LEN as nat),
    ensures
        forall|k: int|
            0 <= k < canonical_order(lens).len() ==> {
                &&& #[trigger] canonical_order(lens)[k] < lens.len()
                &&& 1 <= len_at(lens, k) <= MAX_CODE_LEN
            },
        forall|j: int, k: int|
            0 <= j < k < canonical_order(lens).len() ==> before(
                lens,
                #[trigger] canonical_order(lens)[j],
                #[trigger] canonical_order(lens)[k],
            ),
        forall|s: int|
            0 <= s < lens.len() && 1 <= lens[s] ==> #[trigger] canonical_order(lens).contains(
                s as nat,
            ),
{
    lemma_order_upto(lens, MAX_CODE_LEN as nat);
}

/// The shares at width `w` of the symbols listed in `q`.
pub open spec fn seq_share(lens: Seq<u8>, w: nat, q: Seq<nat>) -> int
    decreases q.len(),
{
    if q.len() == 0 {
        0
    } else {
        seq_share(lens, w, q.drop_last()) + share(w, lens[q.last() as int] as nat)
    }
}

proof fn lemma_seq_share_concat(lens: Seq<u8>, w: nat, a: Seq<nat>, b: Seq<nat>)
    ensures
        seq_share(lens, w, a + b) == seq_share(lens, w, a) + seq_share(lens, w, b),
    decreases b.len(),
{
    if b.len() == 0 {
        assert(a + b =~= a);
    } else {
        assert((a + b).drop_last() =~= a + b.drop_last());
        lemma_seq_share_concat(lens, w, a, b.drop_last());
    }
}

proof fn lemma_seq_share_with_len(lens: Seq<u8>, w: nat, l: nat, n: nat)
    requires
        n <= lens.len(),
        l >= 1,
    ensures
        seq_share(lens, w, with_len(lens, l, n)) == sum_to(
            |s: int| if lens[s] as nat == l { kraft_term(lens, w, s) } else { 0 },
            n as int,
        ),
    decreases n,
{
    if n > 0 {
        lemma_seq_share_with_len(lens, w, l, (n - 1) as nat);
        let rest = with_len(lens, l, (n - 1) as nat);
        if lens[n - 1] as nat == l {
            assert(with_len(lens, l, n).drop_last() == rest);
        }
    }
}

proof fn lemma_seq_share_order(lens: Seq<u8>, w: nat, l: nat)
    ensures
        seq_share(lens, w, order_upto(lens, l)) == sum_to(
            |s: int| if lens[s] as nat <= l { kraft_term(lens, w, s) } else { 0 },
            lens.len() as int,
        ),
    decreases l,
{
    let n = lens.len() as int;
    if l == 0 {
        let z = |s: int| if lens[s] as nat <= 0 { kraft_term(lens, w, s) } else { 0 };
        lemma_sum_eq(z, |s: int| 0int, n);
        lemma_sum_zero(n);
    } else {
        lemma_seq_share_order(lens, w, (l - 1) as nat);
        lemma_seq_share_with_len(lens, w, l, lens.len());
        lemma_seq_share_concat(
            lens,
            w,
            order_upto(lens, (l - 1) as nat),
            with_len(lens, l, lens.len()),
        );
        let f = |s: int| if lens[s] as nat <= (l - 1) as nat { kraft_term(lens, w, s) } else { 0 };
        let g = |s: int| if lens[s] as nat == l { kraft_term(lens, w, s) } else { 0 };
        let h = |s: int| if lens[s] as nat <= l { kraft_term(lens, w, s) } else { 0 };
        lemma_sum_add(f, g, h, n);
    }
}

/// The shares of the first `k` symbols of the canonical order.
proof fn lemma_code_prefix_seq(lens: Seq<u8>, w: nat, k: nat)
    requires
        k <= canonical_order(lens).len(),
    ensures
        code_prefix(lens, w, k) == seq_share(lens, w, canonical_order(lens).take(k as int)),
    decreases k,
{
    if k > 0 {
        lemma_code_prefix_seq(lens, w, (k - 1) as nat);
        assert(canonical_order(lens).take(k as int).drop_last() =~= canonical_order(lens).take(
            k - 1,
        ));
    }
}

/// The shares of the whole canonical order make up the Kraft sum.
pub proof fn lemma_code_prefix_total(lens: Seq<u8>, w: nat)
    requires
        lens_bounded(lens, MAX_CODE_LEN as nat),
    ensures
        code_prefix(lens, w, canonical_order(lens).len()) == kraft_sum(lens, w),
{
    let o = canonical_order(lens);
    lemma_code_prefix_seq(lens, w, o.len());
    assert(o.take(o.len() as int) =~= o);
    lemma_seq_share_order(lens, w, MAX_CODE_LEN as nat);
    let h = |s: int| if lens[s] as nat <= MAX_CODE_LEN as nat { kraft_term(lens, w, s) } else { 0 };
    lemma_sum_eq(h, |s: int| kraft_term(lens, w, s), lens.len() as int);
}

/// A code, padded to width `w`, starts where the shares of the codes before
/// it end.
pub proof fn lemma_code_scaled(lens: Seq<u8>, w: nat, k: nat)
    requires
        lens_bounded(lens, MAX_CODE_LEN as nat),
        lens_bounded(lens, w),
        k < canonical_order(lens).len(),
    ensures
        canon_code(lens, k) * share(w, len_at(lens, k as int)) == code_prefix(lens, w, k),
    decreases k,
{
    lemma_order(lens);
    if k > 0 {
        lemma_code_scaled(lens, w, (k - 1) as nat);
        let o = canonical_order(lens);
        assert(before(lens, o[k - 1], o[k as int]));
        let lp = len_at(lens, k - 1);
        let lk = len_at(lens, k as int);
        assert(lp <= lk <= w) by {
            assert(lens[o[k as int] as int] as nat <= w);
        }
        let c = canon_code(lens, (k - 1) as nat);
        lemma_exp2_adds((lk - lp) as nat, (w - lk) as nat);
        assert(((lk - lp) as nat + (w - lk) as nat) as nat == (w - lp) as nat);
        let x = exp2((lk - lp) as nat);
        let y = exp2((w - lk) as nat);
        assert((c + 1) * x * y == c * (x * y) + x * y) by (nonlinear_arith);
        assert(canon_code(lens, k) == (c + 1) * x);
        assert(share(w, lk) == y);
        assert(share(w, lp) == x * y);
        assert(code_prefix(lens, w, k) == code_prefix(lens, w, (k - 1) as nat) + share(w, lp));
        assert(code_prefix(lens, w, (k - 1) as nat) == c * share(w, lp));
    } else {
        assert(canon_code(lens, 0) == 0);
        assert(code_prefix(lens, w, 0) == 0);
        assert(0 * share(w, len_at(lens, 0)) == 0);
    }
}

/// Shares at width 16 are those at a narrower width `w`, scaled.
pub proof fn lemma_code_prefix_scale(lens: Seq<u8>, w: nat, k: nat)
    requires
        lens_bounded(lens, MAX_CODE_LEN as nat),
        lens_bounded(lens, w),
        w <= MAX_CODE_LEN,
        k <= canonical_order(lens).len(),
    ensures
        code_prefix(lens, MAX_CODE_LEN as nat, k) == code_prefix(lens, w, k) * exp2(
            (MAX_CODE_LEN - w) as nat,
        ),
    decreases k,
{
    if k > 0 {
        lemma_code_prefix_scale(lens, w, (k - 1) as nat);
        lemma_order(lens);
        let o = canonical_order(lens);
        let l = len_at(lens, k - 1);
        assert(l <= w) by {
            assert(lens[o[k - 1] as int] as nat <= w);
        }
        lemma_exp2_adds((w - l) as nat, (MAX_CODE_LEN - w) as nat);
        assert(((w - l) as nat + (MAX_CODE_LEN - w) as nat) as nat == (MAX_CODE_LEN - l) as nat);
        let p = code_prefix(lens, w, (k - 1) as nat);
        let e = exp2((MAX_CODE_LEN - w) as nat);
        assert(p * e + share(w, l) * e == (p + share(w, l)) * e) by (nonlinear_arith);
        assert(share(MAX_CODE_LEN as nat, l) == share(w, l) * e);
        assert(code_prefix(lens, w, k) == p + share(w, l));
        assert(code_prefix(lens, MAX_CODE_LEN as nat, k) == code_prefix(
            lens,
            MAX_CODE_LEN as nat,
            (k - 1) as nat,
        ) + share(MAX_CODE_LEN as nat, l));
    } else {
        assert(code_prefix(lens, w, 0) == 0);
        assert(code_prefix(lens, MAX_CODE_LEN as nat, 0) == 0);
        assert(0 * exp2((MAX_CODE_LEN - w) as nat) == 0);
    }
}

/// Shares only grow along the canonical order.
pub proof fn lemma_code_prefix_monotone(lens: Seq<u8>, w: nat, j: nat, k: nat)
    requires
        j <= k,
    ensures
        code_prefix(lens, w, j) <= code_prefix(lens, w, k),
    decreases k,
{
    if j < k {
        lemma_code_prefix_monotone(lens, w, j, (k - 1) as nat);
    }
}

/// Every slot below the total share lies in the share of one code.
pub proof fn lemma_code_prefix_cover(lens: Seq<u8>, w: nat, k: nat, b: int)
    requires
        0 <= b < code_prefix(lens, w, k),
    ensures
        exists|j: nat|
            j < k && #[trigger] code_prefix(lens, w, j) <= b < code_prefix(lens, w, (j + 1) as nat),
    decreases k,
{
    if b < code_prefix(lens, w, (k - 1) as nat) {
        lemma_code_prefix_cover(lens, w, (k - 1) as nat, b);
        let j = choose|j: nat|
            j < k - 1 && #[trigger] code_prefix(lens, w, j) <= b < code_prefix(lens, w, (j + 1) as nat);
        assert(j < k);
    } else {
        assert(((k - 1) as nat + 1) as nat == k);
    }
}

/// Shares only grow along the canonical order, for every pair of positions.
pub proof fn lemma_code_prefix_monotone_all(lens: Seq<u8>, w: nat)
    ensures
        forall|j: nat, k: nat|
            j <= k ==> #[trigger] code_prefix(lens, w, j) <= #[trigger] code_prefix(lens, w, k),
{
    assert forall|j: nat, k: nat| j <= k implies #[trigger] code_prefix(lens, w, j)
        <= #[trigger] code_prefix(lens, w, k) by {
        lemma_code_prefix_monotone(lens, w, j, k);
    }
}

/// A valid table at width `w` (every length at most `w`) does not
/// oversubscribe the `2^w` slots of that width.
pub proof fn lemma_code_prefix_fits(lens: Seq<u8>, w: nat)
    requires
        lens_valid(lens),
        lens_bounded(lens, w),
        w <= MAX_CODE_LEN,
    ensures
        code_prefix(lens, w, canonical_order(lens).len()) <= exp2(w),
{
    let m = canonical_order(lens).len();
    lemma_code_prefix_total(lens, MAX_CODE_LEN as nat);
    lemma_code_prefix_scale(lens, w, m);
    lemma_exp2_adds(w, (MAX_CODE_LEN - w) as nat);
    assert((w + (MAX_CODE_LEN - w) as nat) as nat == MAX_CODE_LEN as nat);
    lemma_exp2_pos((MAX_CODE_LEN - w) as nat);
    let p = code_prefix(lens, w, m);
    let e = exp2((MAX_CODE_LEN - w) as nat);
    assert(p <= exp2(w)) by (nonlinear_arith)
        requires
            p * e <= exp2(w) * e,
            e >= 1,
    ;
}

/// Each canonical code fits in its own length.
pub proof fn lemma_code_fits(lens: Seq<u8>, k: nat)
    requires
        lens_valid(lens),
        k < canonical_order(lens).len(),
    ensures
        canon_code(lens, k) + 1 <= exp2(len_at(lens, k as int)),
        len_at(lens, k as int) <= MAX_CODE_LEN,
{
    let w = MAX_CODE_LEN as nat;
    let m = canonical_order(lens).len();
    lemma_order(lens);
    lemma_code_scaled(lens, w, k);
    lemma_code_prefix_fits(lens, w);
    lemma_code_prefix_monotone(lens, w, k + 1, m);
    let l = len_at(lens, k as int);
    lemma_exp2_adds(l, (w - l) as nat);
    assert((l + (w - l) as nat) as nat == w);
    lemma_exp2_pos((w - l) as nat);
    let c = canon_code(lens, k);
    let e = share(w, l);
    assert(code_prefix(lens, w, (k + 1) as nat) == code_prefix(lens, w, k) + e);
    assert(c + 1 <= exp2(l)) by (nonlinear_arith)
        requires
            c * e + e <= exp2(l) * e,
            e >= 1,
    ;
}

/// Along the canonical order, codes padded to a common width `w` ascend
/// without overlap: each padded code ends where the next one starts, and
/// every later one starts at or after that end.
pub proof fn lemma_codes_ascending(lens: Seq<u8>, w: nat, j: nat, k: nat)
    requires
        lens_bounded(lens, MAX_CODE_LEN as nat),
        lens_bounded(lens, w),
        j < k < canonical_order(lens).len(),
    ensures
        before(lens, canonical_order(lens)[j as int], canonical_order(lens)[k as int]),
        canon_code(lens, j) * share(w, len_at(lens, j as int)) + share(w, len_at(lens, j as int))
            <= canon_code(lens, k) * share(w, len_at(lens, k as int)),
        k == j + 1 ==> canon_code(lens, j) * share(w, len_at(lens, j as int)) + share(
            w,
            len_at(lens, j as int),
        ) == canon_code(lens, k) * share(w, len_at(lens, k as int)),
{
    lemma_order(lens);
    lemma_code_scaled(lens, w, j);
    lemma_code_scaled(lens, w, k);
    lemma_code_prefix_monotone(lens, w, j + 1, k);
    assert(code_prefix(lens, w, j + 1) == code_prefix(lens, w, j) + share(w, len_at(lens, j as int)));
}

/// Two to the power `e`, for `e` of at most 16.
fn exp2_usize(e: u8) -> (r: usize)
    requires
        e <= MAX_CODE_LEN,
    ensures
        r == exp2(e as nat),
{
    let mut r: usize = 1;
    let mut i: u8 = 0;
    while i < e
        invariant
            i <= e <= 16,
            r == exp2(i as nat),
        decreases e - i,
    {
        proof {
            lemma_exp2_monotone(i as nat + 1, 16);
            lemma_exp2_values();
        }
        r = r * 2;
        i = i + 1;
    }
    r
}

/// The active symbols, sorted by length and then by symbol.
pub fn canonical_symbols(lens: &[u8]) -> (r: Vec<usize>)
    requires
        lens_bounded(lens@, MAX_CODE_LEN as nat),
    ensures
        r@.len() == canonical_order(lens@).len(),
        forall|k: int| 0 <= k < r@.len() ==> r@[k] as nat == #[trigger] canonical_order(lens@)[k],
{
    let mut r: Vec<usize> = Vec::new();
    let mut l: u8 = 1;
    while l <= MAX_CODE_LEN
        invariant
            1 <= l <= MAX_CODE_LEN + 1,
            r@.map_values(|x: usize| x as nat) == order_upto(lens@, (l - 1) as nat),
        decreases MAX_CODE_LEN + 1 - l,
    {
        let ghost before_len = r@.map_values(|x: usize| x as nat);
        let mut s: usize = 0;
        while s < lens.len()
            invariant
                1 <= l <= MAX_CODE_LEN,
                s <= lens@.len(),
                r@.map_values(|x: usize| x as nat) == before_len + with_len(lens@, l as nat, s as nat),
            decreases lens@.len() - s,
        {
            let ghost prev = r@;
            if lens[s] == l {
                r.push(s);
                assert(r@.map_values(|x: usize| x as nat) =~= prev.map_values(|x: usize| x as nat).push(
                    s as nat,
                ));
                assert(before_len + with_len(lens@, l as nat, (s + 1) as nat) =~= (before_len
                    + with_len(lens@, l as nat, s as nat)).push(s as nat));
            }
            s = s + 1;
        }
        assert(order_upto(lens@, l as nat) == order_upto(lens@, (l - 1) as nat) + with_len(
            lens@,
            l as nat,
            lens@.len(),
        ));
        l = l + 1;
    }
    proof {
        assert forall|k: int| 0 <= k < r@.len() implies r@[k] as nat
            == #[trigger] canonical_order(lens@)[k] by {
            assert(r@.map_values(|x: usize| x as nat)[k] == r@[k] as nat);
        }
    }
    r
}

#[verifier::rlimit(40)]
/// The canonical code of each symbol of a length table: symbols sorted by
/// length and then by symbol get consecutive codes, each padded with zeros
/// on the right when the length grows. Unused symbols get 0.
pub fn compute_encodings(lens: &[u8]) -> (r: Vec<u16>)
    requires
        lens_valid(lens@),
    ensures
        r@.len() == lens@.len(),
        forall|k: int|
            0 <= k < canonical_order(lens@).len() ==> r@[#[trigger] canonical_order(lens@)[k] as int]
                == canon_code(lens@, k as nat),
        forall|s: int| 0 <= s < lens@.len() && lens@[s] == 0 ==> #[trigger] r@[s] == 0,
{
    let order = canonical_symbols(lens);
    let ghost o = canonical_order(lens@);
    proof {
        lemma_order(lens@);
    }
    let mut enc: Vec<u16> = Vec::new();
    let mut i: usize = 0;
    while i < lens.len()
        invariant
            i <= lens@.len(),
            enc@.len() == i,
            forall|s: int| 0 <= s < i ==> #[trigger] enc@[s] == 0,
        decreases lens@.len() - i,
    {
        enc.push(0);
        i = i + 1;
    }
    let mut bits: u32 = 0;
    let mut cur: u8 = 1;
    let mut k: usize = 0;
    while k < order.len()
        invariant
            lens_valid(lens@),
            o == canonical_order(lens@),
            order@.len() == o.len(),
            forall|j: int| 0 <= j < order@.len() ==> order@[j] as nat == #[trigger] o[j],
            forall|j: int|
                0 <= j < o.len() ==> {
                    &&& #[trigger] o[j] < lens@.len()
                    &&& 1 <= len_at(lens@, j) <= MAX_CODE_LEN
                },
            forall|a: int, b: int| 0 <= a < b < o.len() ==> before(lens@, #[trigger] o[a], #[trigger] o[b]),
            k <= o.len(),
            enc@.len() == lens@.len(),
            forall|j: int| 0 <= j < k ==> enc@[#[trigger] o[j] as int] == canon_code(lens@, j as nat),
            forall|s: int| 0 <= s < lens@.len() && lens@[s] == 0 ==> #[trigger] enc@[s] == 0,
            k == 0 ==> bits == 0 && cur == 1,
            k > 0 ==> bits == canon_code(lens@, (k - 1) as nat) + 1 && cur == len_at(lens@, k - 1),
        decreases o.len() - k,
    {
        let s = order[k];
        assert(s as nat == o[k as int] && o[k as int] < lens@.len());
        let l = lens[s];
        assert(l as nat == len_at(lens@, k as int));
        proof {
            lemma_code_fits(lens@, k as nat);
            lemma_exp2_values();
            lemma_exp2_monotone(l as nat, 16);
            if k > 0 {
                assert(before(lens@, o[k - 1], o[k as int]));
            }
            assert(canon_code(lens@, k as nat) == bits * exp2((l - cur) as nat));
        }
        while cur < l
            invariant
                cur <= l <= 16,
                bits * exp2((l - cur) as nat) == canon_code(lens@, k as nat),
                canon_code(lens@, k as nat) < 65536,
            decreases l - cur,
        {
            proof {
                let e = exp2((l - cur - 1) as nat);
                assert(exp2((l - cur) as nat) == 2 * e);
                lemma_exp2_pos((l - cur - 1) as nat);
                assert(bits * 2 * e == bits * exp2((l - cur) as nat)) by (nonlinear_arith)
                    requires
                        exp2((l - cur) as nat) == 2 * e,
                ;
                assert(bits * 2 <= bits * 2 * e) by (nonlinear_arith)
                    requires
                        e >= 1,
                ;
            }
            bits = bits * 2;
            cur = cur + 1;
        }
        proof {
            assert(cur == l);
            assert(exp2(0) == 1);
            assert(bits * exp2(0) == bits);
            assert(bits == canon_code(lens@, k as nat));
        }
        enc.set(s, bits as u16);
        proof {
            assert forall|j: int| 0 <= j < k + 1 implies enc@[#[trigger] o[j] as int] == canon_code(
                lens@,
                j as nat,
            ) by {
                if j < k {
                    assert(before(lens@, o[j], o[k as int]));
                }
            }
        }
        bits = bits + 1;
        k = k + 1;
    }
    enc
}

/// The code `c` of length `l` is a prefix of the `w`-bit value `b`.
pub open spec fn is_code_prefix(c: nat, l: nat, w: nat, b: int) -> bool {
    c * share(w, l) <= b < (c + 1) * share(w, l)
}

/// What a decode table holds where no code reaches: the first symbol of the
/// canonical order (for a one-symbol code, that symbol), or 0 without one.
pub open spec fn fill_symbol(lens: Seq<u8>) -> nat {
    if canonical_order(lens).len() > 0 {
        canonical_order(lens)[0]
    } else {
        0
    }
}

/// What a decode table of width `w` holds in slot `b`.
pub open spec fn decodes_to(lens: Seq<u8>, w: nat, table: Seq<u16>, b: int) -> bool {
    &&& forall|k: int|
        0 <= k < canonical_order(lens).len() && is_code_prefix(
            canon_code(lens, k as nat),
            len_at(lens, k),
            w,
            b,
        ) ==> table[b] as nat == #[trigger] canonical_order(lens)[k]
    &&& code_prefix(lens, w, canonical_order(lens).len()) <= b ==> table[b] as nat == fill_symbol(
        lens,
    )
}

#[verifier::rlimit(40)]
/// The flat decode table of width `max_len`: slot `b` holds the symbol
/// whose code is a prefix of the `max_len`-bit value `b`. Each symbol's code,
/// shifted left to the full width, fills the `2^(max_len - length)` slots
/// that start there.
pub fn compute_decodings(lens: &[u8], encodings: &[u16], max_len: u8) -> (r: Vec<u16>)
    requires
        lens_valid(lens@),
        lens_bounded(lens@, max_len as nat),
        max_len <= MAX_CODE_LEN,
        lens@.len() <= 65536,
        encodings@.len() == lens@.len(),
        forall|k: int|
            0 <= k < canonical_order(lens@).len() ==> encodings@[#[trigger] canonical_order(
                lens@,
            )[k] as int] == canon_code(lens@, k as nat),
    ensures
        r@.len() == exp2(max_len as nat),
        forall|b: int| 0 <= b < r@.len() ==> #[trigger] decodes_to(lens@, max_len as nat, r@, b),
{
    let w = Ghost(max_len as nat);
    let order = canonical_symbols(lens);
    let ghost o = canonical_order(lens@);
    proof {
        lemma_order(lens@);
        lemma_code_prefix_fits(lens@, max_len as nat);
        lemma_code_prefix_monotone_all(lens@, max_len as nat);
    }
    let fill: u16 = if order.len() > 0 {
        order[0] as u16
    } else {
        0
    };
    let size = exp2_usize(max_len);
    let mut table: Vec<u16> = Vec::new();
    let mut i: usize = 0;
    while i < size
        invariant
            i <= size,
            table@.len() == i,
            forall|b: int| 0 <= b < i ==> #[trigger] table@[b] == fill,
        decreases size - i,
    {
        table.push(fill);
        i = i + 1;
    }
    let mut k: usize = 0;
    while k < order.len()
        invariant
            lens_valid(lens@),
            lens_bounded(lens@, max_len as nat),
            max_len <= MAX_CODE_LEN,
            lens@.len() <= 65536,
            encodings@.len() == lens@.len(),
            forall|j: int|
                0 <= j < o.len() ==> encodings@[#[trigger] o[j] as int] == canon_code(lens@, j as nat),
            o == canonical_order(lens@),
            order@.len() == o.len(),
            forall|j: int| 0 <= j < order@.len() ==> order@[j] as nat == #[trigger] o[j],
            forall|j: int|
                0 <= j < o.len() ==> {
                    &&& #[trigger] o[j] < lens@.len()
                    &&& 1 <= len_at(lens@, j) <= MAX_CODE_LEN
                },
            code_prefix(lens@, max_len as nat, o.len()) <= exp2(max_len as nat),
            forall|a: nat, c: nat|
                a <= c ==> #[trigger] code_prefix(lens@, max_len as nat, a) <= #[trigger] code_prefix(
                    lens@,
                    max_len as nat,
                    c,
                ),
            k <= o.len(),
            table@.len() == size,
            size == exp2(max_len as nat),
            forall|j: int, b: int|
                0 <= j < k && code_prefix(lens@, max_len as nat, j as nat) <= b < code_prefix(
                    lens@,
                    max_len as nat,
                    (j + 1) as nat,
                ) ==> #[trigger] table@[b] as nat == #[trigger] o[j],
            forall|b: int|
                code_prefix(lens@, max_len as nat, k as nat) <= b < size ==> #[trigger] table@[b]
                    == fill,
        decreases o.len() - k,
    {
        let s = order[k];
        assert(s as nat == o[k as int] && o[k as int] < lens@.len());
        let l = lens[s];
        assert(l as nat == len_at(lens@, k as int));
        assert(l <= max_len) by {
            assert(lens@[s as int] as nat <= max_len);
        }
        let unit = exp2_usize(max_len - l);
        proof {
            lemma_code_scaled(lens@, max_len as nat, k as nat);
            assert(code_prefix(lens@, max_len as nat, (k + 1) as nat) == code_prefix(
                lens@,
                max_len as nat,
                k as nat,
            ) + unit);
            assert(code_prefix(lens@, max_len as nat, (k + 1) as nat) <= code_prefix(
                lens@,
                max_len as nat,
                o.len(),
            ));
            assert(encodings@[s as int] * unit == code_prefix(lens@, max_len as nat, k as nat));
        }
        let lo = encodings[s] as usize * unit;
        let hi = lo + unit;
        let mut b = lo;
        while b < hi
            invariant
                lo <= b <= hi <= size,
                table@.len() == size,
                lo == code_prefix(lens@, max_len as nat, k as nat),
                hi == code_prefix(lens@, max_len as nat, (k + 1) as nat),
                s as nat == o[k as int],
                s < 65536,
                forall|j: int, c: int|
                    0 <= j < k && code_prefix(lens@, max_len as nat, j as nat) <= c < code_prefix(
                        lens@,
                        max_len as nat,
                        (j + 1) as nat,
                    ) ==> #[trigger] table@[c] as nat == #[trigger] o[j],
                forall|c: int| lo <= c < b ==> #[trigger] table@[c] as nat == s as nat,
                forall|c: int| b <= c < size ==> #[trigger] table@[c] == fill,
                forall|a: nat, c: nat|
                    a <= c ==> #[trigger] code_prefix(lens@, max_len as nat, a)
                        <= #[trigger] code_prefix(lens@, max_len as nat, c),
            decreases hi - b,
        {
            table.set(b, s as u16);
            b = b + 1;
        }
        proof {
            assert forall|j: int, c: int|
                0 <= j < k + 1 && code_prefix(lens@, max_len as nat, j as nat) <= c < code_prefix(
                    lens@,
                    max_len as nat,
                    (j + 1) as nat,
                ) implies #[trigger] table@[c] as nat == #[trigger] o[j] by {
                if j == k {
                    assert(lo <= c < hi);
                }
            }
        }
        k = k + 1;
    }
    proof {
        assert forall|b: int| 0 <= b < table@.len() implies #[trigger] decodes_to(
            lens@,
            max_len as nat,
            table@,
            b,
        ) by {
            assert forall|j: int|
                0 <= j < o.len() && is_code_prefix(
                    canon_code(lens@, j as nat),
                    len_at(lens@, j),
                    max_len as nat,
                    b,
                ) implies table@[b] as nat == #[trigger] o[j] by {
                lemma_code_scaled(lens@, max_len as nat, j as nat);
                let c = canon_code(lens@, j as nat);
                let e = share(max_len as nat, len_at(lens@, j));
                assert((c + 1) * e == c * e + e) by (nonlinear_arith);
                assert(code_prefix(lens@, max_len as nat, (j + 1) as nat) == code_prefix(
                    lens@,
                    max_len as nat,
                    j as nat,
                ) + e);
            }
            if code_prefix(lens@, max_len as nat, o.len()) <= b {
                assert(table@[b] == fill);
                if o.len() > 0 {
                    assert(o[0] < 65536) by {
                        assert(o[0] < lens@.len());
                    }
                }
            }
        }
    }
    table
}

/// Whether a length table received from elsewhere can be decoded: it has
/// between 1 and 65536 symbols, no length above 16, and codes that do not
/// oversubscribe the code space (Kraft sum at most 1).
pub fn lens_table_is_valid(lens: &[u8]) -> (r: bool)
    ensures
        r == (1 <= lens@.len() <= 65536 && lens_valid(lens@)),
{
    if lens.len() == 0 || lens.len() > 65536 {
        return false;
    }
    let mut sum: u64 = 0;
    let mut i: usize = 0;
    while i < lens.len()
        invariant
            1 <= lens@.len() <= 65536,
            i <= lens@.len(),
            forall|s: int| 0 <= s < i ==> #[trigger] lens@[s] <= MAX_CODE_LEN,
            sum == sum_to(|s: int| kraft_term(lens@, MAX_CODE_LEN as nat, s), i as int),
            sum <= i * 65536,
        decreases lens@.len() - i,
    {
        assert((i + 1) * 65536 == i * 65536 + 65536) by (nonlinear_arith);
        if lens[i] > MAX_CODE_LEN {
            assert(!lens_bounded(lens@, MAX_CODE_LEN as nat));
            return false;
        }
        let l = lens[i];
        if l > 0 {
            let part = exp2_usize(MAX_CODE_LEN - l);
            proof {
                lemma_exp2_monotone((MAX_CODE_LEN - l) as nat, 16);
                lemma_exp2_values();
            }
            assert(sum + part <= (i + 1) * 65536) by (nonlinear_arith)
                requires
                    sum <= i * 65536,
                    part <= 65536,
            ;
            sum = sum + part as u64;
        }
        i = i + 1;
    }
    proof {
        lemma_exp2_values();
    }
    sum <= 65536
}

} // verus!
