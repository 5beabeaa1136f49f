//! Stable distribution of numbers by one of their digits.

use vstd::arithmetic::div_mod::lemma_mod_breakdown;
use vstd::prelude::*;

verus! {

/// Number of digits.
pub const DIGITS: usize = 256;

/// The digit of a number at a scale.
pub open spec fn digit(value: u64, scale: nat) -> int {
    (value as int / scale as int) % 256
}

/// How many of the first values have a digit.
pub open spec fn seen(values: Seq<u64>, scale: nat, of: int, count: nat) -> nat
    decreases count,
{
    if count == 0 {
        0
    } else {
        seen(values, scale, of, (count - 1) as nat) + if digit(values[count - 1], scale) == of {
            1nat
        } else {
            0nat
        }
    }
}

/// How many of the first values have a smaller digit.
pub open spec fn lower(values: Seq<u64>, scale: nat, than: int, count: nat) -> nat
    decreases count,
{
    if count == 0 {
        0
    } else {
        lower(values, scale, than, (count - 1) as nat) + if digit(values[count - 1], scale) < than {
            1nat
        } else {
            0nat
        }
    }
}

/// Where a value goes: behind all values of a smaller digit, and behind those of its
/// own digit that stand before it.
pub open spec fn place(values: Seq<u64>, scale: nat, i: int) -> int {
    let own = digit(values[i], scale);
    (lower(values, scale, own, values.len()) + seen(values, scale, own, i as nat)) as int
}

/// Whether one of the first values goes to a position.
pub open spec fn filled(values: Seq<u64>, scale: nat, count: int, k: int) -> bool {
    exists|i: int| 0 <= i < count && #[trigger] place(values, scale, i) == k
}

/// Whether values have been distributed by a digit.
pub open spec fn distributed(values: Seq<u64>, scale: nat, out: Seq<u64>) -> bool {
    &&& out.len() == values.len()
    &&& forall|i: int|
        0 <= i < values.len() ==> 0 <= #[trigger] place(values, scale, i) < out.len()
            && out[place(values, scale, i)] == values[i]
    &&& forall|k: int| 0 <= k < out.len() ==> #[trigger] filled(values, scale, values.len() as int, k)
}

proof fn lemma_digit_range(value: u64, scale: nat)
    requires
        scale > 0,
    ensures
        0 <= digit(value, scale) < 256,
{
}

proof fn lemma_lower_step(values: Seq<u64>, scale: nat, of: int, count: nat)
    ensures
        lower(values, scale, of + 1, count) == lower(values, scale, of, count) + seen(
            values,
            scale,
            of,
            count,
        ),
    decreases count,
{
    if count > 0 {
        lemma_lower_step(values, scale, of, (count - 1) as nat);
    }
}

proof fn lemma_lower_ends(values: Seq<u64>, scale: nat, count: nat)
    requires
        scale > 0,
    ensures
        lower(values, scale, 0, count) == 0,
        lower(values, scale, 256, count) == count,
    decreases count,
{
    if count > 0 {
        lemma_lower_ends(values, scale, (count - 1) as nat);
        lemma_digit_range(values[count - 1], scale);
    }
}

proof fn lemma_lower_grows(values: Seq<u64>, scale: nat, a: int, b: int, count: nat)
    requires
        a <= b,
    ensures
        lower(values, scale, a, count) <= lower(values, scale, b, count),
    decreases count,
{
    if count > 0 {
        lemma_lower_grows(values, scale, a, b, (count - 1) as nat);
    }
}

proof fn lemma_seen_grows(values: Seq<u64>, scale: nat, of: int, a: nat, b: nat)
    requires
        a <= b,
    ensures
        seen(values, scale, of, a) <= seen(values, scale, of, b),
    decreases b,
{
    if a < b {
        lemma_seen_grows(values, scale, of, a, (b - 1) as nat);
    }
}

/// Values go to places in the order of their digits, and of one digit in their own
/// order.
proof fn lemma_place_order(values: Seq<u64>, scale: nat, i: int, j: int)
    requires
        scale > 0,
        0 <= i < values.len(),
        0 <= j < values.len(),
        digit(values[i], scale) < digit(values[j], scale) || (digit(values[i], scale) == digit(
            values[j],
            scale,
        ) && i < j),
    ensures
        place(values, scale, i) < place(values, scale, j),
{
    let a = digit(values[i], scale);
    let b = digit(values[j], scale);
    let n = values.len();
    if a == b {
        lemma_seen_grows(values, scale, a, (i + 1) as nat, j as nat);
    } else {
        lemma_seen_grows(values, scale, a, (i + 1) as nat, n);
        lemma_lower_step(values, scale, a, n);
        lemma_lower_grows(values, scale, a + 1, b, n);
    }
}

proof fn lemma_place_range(values: Seq<u64>, scale: nat, i: int)
    requires
        scale > 0,
        0 <= i < values.len(),
    ensures
        0 <= place(values, scale, i) < values.len(),
{
    let own = digit(values[i], scale);
    let n = values.len();
    lemma_digit_range(values[i], scale);
    lemma_seen_grows(values, scale, own, (i + 1) as nat, n);
    lemma_lower_step(values, scale, own, n);
    lemma_lower_grows(values, scale, own + 1, 256, n);
    lemma_lower_ends(values, scale, n);
}

/// Every position belongs to some digit.
proof fn lemma_position_digit(values: Seq<u64>, scale: nat, k: int, upto: int) -> (of: int)
    requires
        0 <= k < lower(values, scale, upto, values.len()),
        0 <= upto <= 256,
        scale > 0,
    ensures
        0 <= of < upto,
        lower(values, scale, of, values.len()) <= k < lower(values, scale, of + 1, values.len()),
    decreases upto,
{
    lemma_lower_ends(values, scale, values.len());
    if k >= lower(values, scale, upto - 1, values.len()) {
        upto - 1
    } else {
        lemma_position_digit(values, scale, k, upto - 1)
    }
}

/// Distributes values by a digit.
pub fn distribute(values: &Vec<u64>, out: &mut Vec<u64>, scale: u64)
    requires
        scale > 0,
        old(out)@.len() == values@.len(),
    ensures
        distributed(values@, scale as nat, final(out)@),
{
    let ghost all = values@;
    let ghost at_scale = scale as nat;
    let ghost n = all.len();
    let size = values.len();
    let mut counts: Vec<usize> = Vec::new();
    while counts.len() < DIGITS
        invariant
            counts@.len() <= DIGITS,
            forall|d: int| 0 <= d < counts@.len() ==> counts@[d] == 0,
        decreases DIGITS - counts@.len(),
    {
        counts.push(0);
    }
    let mut i: usize = 0;
    assert(forall|d: int| 0 <= d < 256 ==> counts@[d] == seen(all, at_scale, d, 0));
    while i < size
        invariant
            i <= size,
            size == n,
            n == all.len(),
            all == values@,
            scale > 0,
            at_scale == scale,
            counts@.len() == DIGITS,
            forall|d: int| 0 <= d < 256 ==> #[trigger] counts@[d] == seen(all, at_scale, d, i as nat),
            forall|d: int| 0 <= d < 256 ==> #[trigger] counts@[d] <= i,
        decreases size - i,
    {
        let at = ((values[i] / scale) % 256) as usize;
        assert(at == digit(all[i as int], at_scale));
        let ghost before = counts@;
        counts.set(at, counts[at] + 1);
        i = i + 1;
        assert forall|d: int| 0 <= d < 256 implies #[trigger] counts@[d] == seen(
            all,
            at_scale,
            d,
            i as nat,
        ) && counts@[d] <= i by {
            assert(before[d] == seen(all, at_scale, d, (i - 1) as nat));
        }
    }
    let mut offset: usize = 0;
    let mut d: usize = 0;
    proof {
        lemma_lower_ends(all, at_scale, n);
    }
    while d < DIGITS
        invariant
            d <= DIGITS,
            size == n,
            n == all.len(),
            scale > 0,
            at_scale == scale,
            counts@.len() == DIGITS,
            offset == lower(all, at_scale, d as int, n),
            forall|e: int| 0 <= e < d ==> #[trigger] counts@[e] == lower(all, at_scale, e, n),
            forall|e: int| d <= e < 256 ==> #[trigger] counts@[e] == seen(all, at_scale, e, n),
        decreases DIGITS - d,
    {
        let current = counts[d];
        proof {
            lemma_lower_step(all, at_scale, d as int, n);
            lemma_lower_grows(all, at_scale, d + 1, 256, n);
            lemma_lower_ends(all, at_scale, n);
        }
        counts.set(d, offset);
        offset = offset + current;
        d = d + 1;
    }
    i = 0;
    assert(forall|e: int| 0 <= e < 256 ==> #[trigger] counts@[e] == lower(all, at_scale, e, n) + seen(
        all,
        at_scale,
        e,
        0,
    ));
    while i < size
        invariant
            i <= size,
            size == n,
            n == all.len(),
            all == values@,
            scale > 0,
            at_scale == scale,
            counts@.len() == DIGITS,
            out@.len() == n,
            forall|e: int|
                0 <= e < 256 ==> #[trigger] counts@[e] == lower(all, at_scale, e, n) + seen(
                    all,
                    at_scale,
                    e,
                    i as nat,
                ),
            forall|j: int|
                0 <= j < i ==> 0 <= #[trigger] place(all, at_scale, j) < n && out@[place(
                    all,
                    at_scale,
                    j,
                )] == all[j],
            forall|e: int, k: int|
                0 <= e < 256 && lower(all, at_scale, e, n) <= k < counts@[e] ==> #[trigger] taken(
                    all,
                    at_scale,
                    i as int,
                    e,
                    k,
                ),
        decreases size - i,
    {
        let value = values[i];
        let own = ((value / scale) % 256) as usize;
        assert(own == digit(all[i as int], at_scale));
        let at = counts[own];
        proof {
            assert(at == place(all, at_scale, i as int));
            lemma_place_range(all, at_scale, i as int);
        }
        let ghost before = out@;
        let ghost counted = counts@;
        out.set(at, value);
        counts.set(own, at + 1);
        proof {
            assert forall|e: int| 0 <= e < 256 implies #[trigger] counts@[e] == lower(
                all,
                at_scale,
                e,
                n,
            ) + seen(all, at_scale, e, (i + 1) as nat) by {
                assert(counted[e] == lower(all, at_scale, e, n) + seen(all, at_scale, e, i as nat));
            }
            assert forall|j: int| 0 <= j < i + 1 implies 0 <= #[trigger] place(all, at_scale, j) < n
                && out@[place(all, at_scale, j)] == all[j] by {
                if j < i {
                    if digit(all[j], at_scale) <= digit(all[i as int], at_scale) {
                        lemma_place_order(all, at_scale, j, i as int);
                    } else {
                        lemma_place_order(all, at_scale, i as int, j);
                    }
                    assert(out@[place(all, at_scale, j)] == before[place(all, at_scale, j)]);
                }
            }
            assert forall|e: int, k: int|
                0 <= e < 256 && lower(all, at_scale, e, n) <= k < counts@[e] implies #[trigger] taken(
                all,
                at_scale,
                i + 1,
                e,
                k,
            ) by {
                if k < counted[e] {
                    assert(taken(all, at_scale, i as int, e, k));
                    let j = choose|j: int| 0 <= j < i && #[trigger] place(all, at_scale, j) == k;
                    assert(place(all, at_scale, j) == k);
                } else {
                    assert(e == own);
                    assert(place(all, at_scale, i as int) == k);
                }
            }
        }
        i = i + 1;
    }
    proof {
        assert forall|k: int| 0 <= k < out@.len() implies #[trigger] filled(
            all,
            at_scale,
            all.len() as int,
            k,
        ) by {
            lemma_lower_ends(all, at_scale, n);
            let e = lemma_position_digit(all, at_scale, k, 256);
            lemma_lower_step(all, at_scale, e, n);
            assert(counts@[e] == lower(all, at_scale, e, n) + seen(all, at_scale, e, n));
            assert(taken(all, at_scale, i as int, e, k));
        }
    }
}

/// Whether one of the first values goes to a position that belongs to a digit.
spec fn taken(values: Seq<u64>, scale: nat, count: int, of: int, k: int) -> bool {
    filled(values, scale, count, k)
}

/// Whether values ascend by what is left of them below a scale.
pub open spec fn ascends_below(values: Seq<u64>, scale: nat) -> bool {
    forall|i: int, j: int|
        0 <= i < j < values.len() ==> (#[trigger] values[i]) as int % scale as int <= (
        #[trigger] values[j]) as int % scale as int
}

/// Values that ascend below a scale ascend below the next once distributed, and are
/// the same values.
pub proof fn lemma_distributed(values: Seq<u64>, scale: nat, out: Seq<u64>)
    requires
        scale > 0,
        distributed(values, scale, out),
        ascends_below(values, scale),
    ensures
        ascends_below(out, scale * 256),
        forall|v: u64| #[trigger] out.contains(v) == values.contains(v),
{
    assert forall|k: int, l: int| 0 <= k < l < out.len() implies (#[trigger] out[k]) as int % (scale
        * 256) as int <= (#[trigger] out[l]) as int % (scale * 256) as int by {
        assert(filled(values, scale, values.len() as int, k));
        assert(filled(values, scale, values.len() as int, l));
        let i = choose|i: int| 0 <= i < values.len() && #[trigger] place(values, scale, i) == k;
        let j = choose|j: int| 0 <= j < values.len() && #[trigger] place(values, scale, j) == l;
        let a = digit(values[i], scale);
        let b = digit(values[j], scale);
        if a > b || (a == b && j < i) {
            lemma_place_order(values, scale, j, i);
        }
        let x = values[i] as int;
        let y = values[j] as int;
        let s = scale as int;
        lemma_mod_breakdown(x, s, 256);
        lemma_mod_breakdown(y, s, 256);
        assert(0 <= x % s < s && 0 <= y % s < s);
        if a < b {
            assert(s * a + s <= s * b) by (nonlinear_arith)
                requires
                    a + 1 <= b,
                    s > 0,
            ;
        } else {
            assert(i < j);
            assert(values[i] as int % s <= values[j] as int % s);
        }
        assert((scale * 256) as int == s * 256);
    }
    assert forall|v: u64| #[trigger] out.contains(v) == values.contains(v) by {
        if out.contains(v) {
            let k = out.index_of(v);
            assert(filled(values, scale, values.len() as int, k));
            let i = choose|i: int| 0 <= i < values.len() && #[trigger] place(values, scale, i) == k;
            assert(values[i] == v);
        }
        if values.contains(v) {
            let i = values.index_of(v);
            assert(out[place(values, scale, i)] == v);
        }
    }
}

} // verus!
