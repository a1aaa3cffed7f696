//! The roll engine: random die values, exploding dice, keep/drop selection,
//! totals, and success/crit counting.

use vstd::prelude::*;
use rand::Rng;
use crate::{DiceError, RollOptions, RollResult};
use crate::notation::{notation_dice, notation_sides, parse_dice_notation, valid_notation};
use crate::sorting::{lemma_sort_desc_ensures, sort_desc, sort_desc_exec};

verus! {

/// `n` clipped to what a `u32` can hold.
pub open spec fn cap_u32(n: int) -> int {
    if n <= u32::MAX as int {
        n
    } else {
        u32::MAX as int
    }
}

/// `k` clipped to a sequence length.
pub open spec fn clamp_len(k: int, len: int) -> int {
    if k <= len {
        k
    } else {
        len
    }
}

/// The sum of all values of `s`.
pub open spec fn seq_sum(s: Seq<u32>) -> int
    decreases s.len(),
{
    if s.len() == 0 {
        0
    } else {
        seq_sum(s.drop_last()) + s.last()
    }
}

/// How many values of `s` are at least `t`.
pub open spec fn count_geq(s: Seq<u32>, t: int) -> int
    decreases s.len(),
{
    if s.len() == 0 {
        0
    } else {
        count_geq(s.drop_last(), t) + if s.last() as int >= t {
            1int
        } else {
            0int
        }
    }
}

/// How many values of `s` are at least both `t1` and `t2`.
pub open spec fn count_geq_both(s: Seq<u32>, t1: int, t2: int) -> int
    decreases s.len(),
{
    if s.len() == 0 {
        0
    } else {
        count_geq_both(s.drop_last(), t1, t2) + if s.last() as int >= t1 && s.last() as int >= t2 {
            1int
        } else {
            0int
        }
    }
}

/// How many values of `s` are below `m`.
pub open spec fn count_below(s: Seq<u32>, m: int) -> int
    decreases s.len(),
{
    if s.len() == 0 {
        0
    } else {
        count_below(s.drop_last(), m) + if (s.last() as int) < m {
            1int
        } else {
            0int
        }
    }
}

/// The threshold a kept value must reach to count as a success: the
/// `success` option if set, else the `crit` option if set (a crit always
/// also counts as a success), else one above the die size, which no die
/// can reach.
pub open spec fn success_threshold(opts: RollOptions, sides: int) -> int {
    match opts.success {
        Some(sv) => sv as int,
        None => match opts.crit {
            Some(cv) => cv as int,
            None => sides + 1,
        },
    }
}

/// The threshold a kept value must reach to count as a crit: the `crit`
/// option if set, else one above the die size.
pub open spec fn crit_threshold(opts: RollOptions, sides: int) -> int {
    match opts.crit {
        Some(cv) => cv as int,
        None => sides + 1,
    }
}

/// Everything `roll_dice` promises of a successful result `r` for the given
/// notation and options.
pub open spec fn roll_result_ok(notation: Seq<char>, opts: RollOptions, r: RollResult) -> bool {
    let n = notation_dice(notation);
    let m = notation_sides(notation);
    &&& r.notation@ == notation
    &&& r.rolls@.len() >= n
    &&& forall|i: int| 0 <= i < r.rolls@.len() ==> 1 <= #[trigger] r.rolls@[i] as int <= m
    // Without exploding (or with a one-sided die, which can never roll below
    // its maximum) exactly one value is generated per die.
    &&& (!opts.explode || m == 1) ==> r.rolls@.len() == n
    // With exploding, each die contributes a chain of maximal values closed
    // by one value below the maximum, interleaved in generation order: the
    // values below the maximum number exactly `n`, and a maximal value is
    // never last.
    &&& (opts.explode && m >= 2) ==> count_below(r.rolls@, m) == n && (r.rolls@[r.rolls@.len()
        - 1] as int) < m
    &&& match (opts.keep, opts.drop) {
        (Some(_), Some(_)) => false,
        (Some(k), None) => r.kept_rolls@ == sort_desc(r.rolls@).take(
            clamp_len(k as int, r.rolls@.len() as int),
        ),
        (None, Some(d)) => r.kept_rolls@ == sort_desc(r.rolls@).skip(
            clamp_len(d as int, r.rolls@.len() as int),
        ),
        (None, None) => r.kept_rolls@ == r.rolls@,
    }
    &&& r.kept_rolls@.len() <= r.rolls@.len()
    &&& r.kept_rolls@.to_multiset().subset_of(r.rolls@.to_multiset())
    &&& r.total as int == cap_u32(seq_sum(r.kept_rolls@))
    &&& opts.success is None && opts.crit is None ==> r.successes == 0 && r.crits == 0
    &&& opts.success is Some || opts.crit is Some ==> {
        &&& r.successes as int == cap_u32(count_geq(r.kept_rolls@, success_threshold(opts, m)))
        &&& r.crits as int == cap_u32(
            count_geq_both(r.kept_rolls@, success_threshold(opts, m), crit_threshold(opts, m)),
        )
    }
    &&& r.crits <= r.successes
    &&& r.successes as int <= r.kept_rolls@.len()
}

/// With exploding dice on a die of two or more sides, a value equal to the
/// die size is never the last one generated: each is immediately followed by
/// at least one rerolled value.
pub proof fn lemma_explosion_rerolls(notation: Seq<char>, opts: RollOptions, r: RollResult)
    requires
        roll_result_ok(notation, opts, r),
        opts.explode,
        notation_sides(notation) >= 2,
    ensures
        forall|i: int|
            0 <= i < r.rolls@.len() && #[trigger] r.rolls@[i] as int == notation_sides(notation)
                ==> i + 1 < r.rolls@.len(),
{
}

/// The sum of unsigned values is non-negative.
proof fn lemma_seq_sum_nonneg(s: Seq<u32>)
    ensures
        seq_sum(s) >= 0,
    decreases s.len(),
{
    if s.len() > 0 {
        lemma_seq_sum_nonneg(s.drop_last());
    }
}

/// Both counts lie between zero and the sequence length, and values meeting
/// two thresholds never outnumber those meeting one.
proof fn lemma_counts_bounded(s: Seq<u32>, t1: int, t2: int)
    ensures
        0 <= count_geq_both(s, t1, t2) <= count_geq(s, t1) <= s.len(),
    decreases s.len(),
{
    if s.len() > 0 {
        lemma_counts_bounded(s.drop_last(), t1, t2);
    }
}

/// Counts of values below `m` add up over concatenation.
proof fn lemma_count_below_concat(a: Seq<u32>, b: Seq<u32>, m: int)
    ensures
        count_below(a + b, m) == count_below(a, m) + count_below(b, m),
    decreases b.len(),
{
    if b.len() == 0 {
        assert(a + b =~= a);
    } else {
        assert((a + b).drop_last() =~= a + b.drop_last());
        lemma_count_below_concat(a, b.drop_last(), m);
    }
}

/// An explosion chain holds exactly one value below the die size: its last.
proof fn lemma_count_below_chain(s: Seq<u32>, m: int)
    requires
        s.len() >= 1,
        forall|i: int| 0 <= i < s.len() - 1 ==> #[trigger] s[i] as int >= m,
        (s[s.len() - 1] as int) < m,
    ensures
        count_below(s, m) == 1,
    decreases s.len(),
{
    lemma_count_below_all_geq(s.drop_last(), m);
}

/// A sequence of values at or above `m` has none below it.
proof fn lemma_count_below_all_geq(s: Seq<u32>, m: int)
    requires
        forall|i: int| 0 <= i < s.len() ==> #[trigger] s[i] as int >= m,
    ensures
        count_below(s, m) == 0,
    decreases s.len(),
{
    if s.len() > 0 {
        lemma_count_below_all_geq(s.drop_last(), m);
    }
}

/// Relies on rand::Rng::random_range on the thread-local generator: a value
/// drawn uniformly from the non-empty inclusive range `1..=sides`.
#[verifier::external_body]
fn roll_die(sides: u32) -> (r: u32)
    requires
        sides >= 1,
    ensures
        1 <= r <= sides,
{
    rand::rng().random_range(1..=sides)
}

/// One die of an exploding roll: values drawn uniformly from `1..=sides`
/// until one falls below `sides`, in draw order.
///
/// Relies on rand::Rng::random_range on the thread-local generator for each
/// draw. The redraw loop terminates almost surely because `sides >= 2`; the
/// contract states only the shape every outcome has: at least one value, all
/// values in range, and exactly the last one below the maximum.
#[verifier::external_body]
fn roll_exploding_die(sides: u32) -> (chain: Vec<u32>)
    requires
        sides >= 2,
    ensures
        chain@.len() >= 1,
        forall|i: int| 0 <= i < chain@.len() ==> 1 <= #[trigger] chain@[i] <= sides,
        forall|i: int| 0 <= i < chain@.len() - 1 ==> #[trigger] chain@[i] == sides,
        chain@[chain@.len() - 1] < sides,
{
    let mut rng = rand::rng();
    let mut chain = Vec::new();
    loop {
        let v = rng.random_range(1..=sides);
        chain.push(v);
        if v < sides {
            return chain;
        }
    }
}

/// The values of `v` from `start` on, in order.
fn copy_from(v: &Vec<u32>, start: usize) -> (r: Vec<u32>)
    requires
        start <= v.len(),
    ensures
        r@ == v@.skip(start as int),
{
    let mut r: Vec<u32> = Vec::new();
    let mut idx: usize = start;
    proof {
        assert(v@.subrange(start as int, start as int) =~= r@);
    }
    while idx < v.len()
        invariant
            start <= idx <= v@.len(),
            r@ == v@.subrange(start as int, idx as int),
        decreases v@.len() - idx,
    {
        let x = v[idx];
        r.push(x);
        proof {
            assert(v@.subrange(start as int, idx + 1) =~= v@.subrange(
                start as int,
                idx as int,
            ).push(v@[idx as int]));
        }
        idx = idx + 1;
    }
    r
}

/// The sum of all values of `v`, clipped to `u32::MAX` if it does not fit.
fn sum_capped(v: &Vec<u32>) -> (total: u32)
    ensures
        total as int == cap_u32(seq_sum(v@)),
{
    let mut total: u32 = 0;
    let mut t: usize = 0;
    while t < v.len()
        invariant
            t <= v@.len(),
            total as int == cap_u32(seq_sum(v@.take(t as int))),
        decreases v@.len() - t,
    {
        let x = v[t];
        proof {
            assert(v@.take(t + 1).drop_last() =~= v@.take(t as int));
            lemma_seq_sum_nonneg(v@.take(t as int));
        }
        total = if total <= u32::MAX - x {
            total + x
        } else {
            u32::MAX
        };
        t = t + 1;
    }
    proof {
        assert(v@.take(v@.len() as int) =~= v@);
    }
    total
}

/// How many values of `v` reach `threshold`, and how many of those also
/// reach `crit`, each clipped to `u32::MAX`.
fn count_thresholds(v: &Vec<u32>, threshold: u64, crit: u64) -> (counts: (u32, u32))
    ensures
        counts.0 as int == cap_u32(count_geq(v@, threshold as int)),
        counts.1 as int == cap_u32(count_geq_both(v@, threshold as int, crit as int)),
{
    let mut successes: u32 = 0;
    let mut crits: u32 = 0;
    let mut t: usize = 0;
    while t < v.len()
        invariant
            t <= v@.len(),
            successes as int == cap_u32(count_geq(v@.take(t as int), threshold as int)),
            crits as int == cap_u32(count_geq_both(v@.take(t as int), threshold as int, crit as int)),
        decreases v@.len() - t,
    {
        let x = v[t];
        proof {
            assert(v@.take(t + 1).drop_last() =~= v@.take(t as int));
            lemma_counts_bounded(v@.take(t as int), threshold as int, crit as int);
        }
        if x as u64 >= threshold {
            successes = if successes < u32::MAX {
                successes + 1
            } else {
                successes
            };
            if x as u64 >= crit {
                crits = if crits < u32::MAX {
                    crits + 1
                } else {
                    crits
                };
            }
        }
        t = t + 1;
    }
    proof {
        assert(v@.take(v@.len() as int) =~= v@);
    }
    (successes, crits)
}

/// Rolls the dice `notation` describes under `options`.
///
/// The notation is parsed first: a string neither grammar form accepts fails
/// with `InvalidNotation`. Then the options are validated: `keep` and `drop`
/// together fail with `InvalidOptions`. Otherwise the roll always succeeds,
/// and the result has the shape `roll_result_ok` states. The total and the
/// two counters are clipped to `u32::MAX` instead of overflowing; reaching
/// the clip takes billions of kept dice.
pub fn roll_dice(notation: &str, options: &RollOptions) -> (res: Result<RollResult, DiceError>)
    ensures
        res is Ok <==> valid_notation(notation@) && !(options.keep is Some
            && options.drop is Some),
        !valid_notation(notation@) ==> (res matches Err(e) && e is InvalidNotation),
        valid_notation(notation@) && options.keep is Some && options.drop is Some ==> (
        res matches Err(e) && e is InvalidOptions),
        res matches Ok(r) ==> roll_result_ok(notation@, *options, r),
{
    let dice_roll = match parse_dice_notation(notation) {
        Ok(d) => d,
        Err(e) => {
            return Err(e);
        },
    };
    if options.keep.is_some() && options.drop.is_some() {
        return Err(
            DiceError::InvalidOptions("Cannot use both --keep and --drop".to_owned()),
        );
    }
    let n = dice_roll.num_dice;
    let m = dice_roll.num_sides;
    let ghost gn = notation_dice(notation@);
    let ghost gm = notation_sides(notation@);
    let explode_chains = options.explode && m >= 2;

    let mut rolls: Vec<u32> = Vec::new();
    let mut j: u32 = 0;
    while j < n
        invariant
            j <= n,
            m >= 1,
            explode_chains ==> m >= 2,
            forall|i: int| 0 <= i < rolls@.len() ==> 1 <= #[trigger] rolls@[i] <= m,
            rolls@.len() >= j,
            !explode_chains ==> rolls@.len() == j,
            explode_chains ==> count_below(rolls@, m as int) == j,
            explode_chains && j > 0 ==> (rolls@[rolls@.len() - 1] as int) < m as int,
        decreases n - j,
    {
        if explode_chains {
            let ghost prefix = rolls@;
            let mut chain = roll_exploding_die(m);
            let ghost chain_view = chain@;
            rolls.append(&mut chain);
            proof {
                lemma_count_below_chain(chain_view, m as int);
                lemma_count_below_concat(prefix, chain_view, m as int);
            }
        } else {
            let v = roll_die(m);
            rolls.push(v);
        }
        j = j + 1;
    }

    let kept_rolls: Vec<u32> = match (options.keep, options.drop) {
        (Some(k), None) => {
            let sorted = sort_desc_exec(&rolls);
            let mut kept = sorted;
            let k_idx: usize = k as usize;
            kept.truncate(k_idx);
            proof {
                lemma_sort_desc_ensures(rolls@);
                if k_idx >= sort_desc(rolls@).len() {
                    assert(sort_desc(rolls@).take(sort_desc(rolls@).len() as int) =~= sort_desc(
                        rolls@,
                    ));
                }
                assert(kept@ == sort_desc(rolls@).take(
                    clamp_len(k as int, rolls@.len() as int),
                ));
            }
            kept
        },
        (None, Some(d)) => {
            let sorted = sort_desc_exec(&rolls);
            let start: usize = if (d as usize) < sorted.len() {
                d as usize
            } else {
                sorted.len()
            };
            let kept = copy_from(&sorted, start);
            proof {
                lemma_sort_desc_ensures(rolls@);
                assert(kept@ == sort_desc(rolls@).skip(clamp_len(d as int, rolls@.len() as int)));
            }
            kept
        },
        _ => {
            let kept = copy_from(&rolls, 0);
            proof {
                assert(rolls@.skip(0) =~= rolls@);
            }
            kept
        },
    };

    let total = sum_capped(&kept_rolls);

    let (successes, crits) = if options.success.is_some() || options.crit.is_some() {
        let threshold: u64 = match (options.success, options.crit) {
            (Some(sv), _) => sv as u64,
            (None, Some(cv)) => cv as u64,
            (None, None) => m as u64 + 1,
        };
        let crit: u64 = match options.crit {
            Some(cv) => cv as u64,
            None => m as u64 + 1,
        };
        count_thresholds(&kept_rolls, threshold, crit)
    } else {
        (0u32, 0u32)
    };

    proof {
        lemma_counts_bounded(
            kept_rolls@,
            success_threshold(*options, gm),
            crit_threshold(*options, gm),
        );
        lemma_sort_desc_ensures(rolls@);
        match (options.keep, options.drop) {
            (Some(k), None) => {
                lemma_take_skip_sub_multiset(
                    sort_desc(rolls@),
                    clamp_len(k as int, rolls@.len() as int),
                );
            },
            (None, Some(d)) => {
                lemma_take_skip_sub_multiset(
                    sort_desc(rolls@),
                    clamp_len(d as int, rolls@.len() as int),
                );
            },
            _ => {
                broadcast use vstd::multiset::group_multiset_axioms;

                assert(kept_rolls@.to_multiset().subset_of(rolls@.to_multiset()));
            },
        }
    }

    Ok(
        RollResult {
            rolls,
            kept_rolls,
            total,
            successes,
            crits,
            notation: dice_roll.notation,
        },
    )
}

/// A prefix or a suffix of a sequence never holds a value more often than
/// the whole sequence: selection never invents a value.
proof fn lemma_take_skip_sub_multiset(s: Seq<u32>, t: int)
    requires
        0 <= t <= s.len(),
    ensures
        s.take(t).to_multiset().subset_of(s.to_multiset()),
        s.skip(t).to_multiset().subset_of(s.to_multiset()),
{
    broadcast use vstd::multiset::group_multiset_axioms;

    assert(s =~= s.take(t) + s.skip(t));
    vstd::seq_lib::lemma_multiset_commutative(s.take(t), s.skip(t));
    assert forall|x: u32| s.take(t).to_multiset().count(x) <= s.to_multiset().count(x) by {
        assert(s.to_multiset().count(x) == s.take(t).to_multiset().count(x) + s.skip(
            t,
        ).to_multiset().count(x));
    }
    assert forall|x: u32| s.skip(t).to_multiset().count(x) <= s.to_multiset().count(x) by {
        assert(s.to_multiset().count(x) == s.take(t).to_multiset().count(x) + s.skip(
            t,
        ).to_multiset().count(x));
    }
}

} // verus!
