//! How likely each result of a geometric draw is, and each noise of the mechanism.
//!
//! A draw is made up of the indices of the first heads that its trials find. Every index has
//! its weight, and the weight of a row of indices is the product of theirs. The weight of a
//! result adds up those of all the rows that lead to it.
use crate::coin;
use crate::double::Double;
use crate::geometric;
use crate::uniform;
use vstd::arithmetic::mul::*;
use vstd::arithmetic::power::*;
use vstd::arithmetic::power2::*;
use vstd::prelude::*;

verus! {

/// The indices of the first heads that the trials of a geometric draw find on `tape`.
pub open spec fn read_indices(
    tape: Seq<u8>,
    prob: Double,
    trials: nat,
    enforce_constant_time: bool,
) -> Option<Seq<int>>
    decreases trials,
{
    if trials == 0 {
        Some(Seq::empty())
    } else {
        match coin::read_heads(tape, enforce_constant_time) {
            Some((index, length)) => if coin::coin(prob, index as int) && !enforce_constant_time {
                Some(seq![index as int])
            } else {
                match read_indices(
                    tape.skip(length as int),
                    prob,
                    (trials - 1) as nat,
                    enforce_constant_time,
                ) {
                    Some(row) => Some(seq![index as int] + row),
                    None => None,
                }
            },
            None => None,
        }
    }
}

/// The trials in which the coin of bias `prob` shows the digits that a row of indices picks.
pub open spec fn flips(prob: Double, row: Seq<int>) -> Seq<bool> {
    Seq::new(row.len(), |j: int| coin::coin(prob, row[j]))
}

/// Whether a row of trials has seen its first success.
pub open spec fn is_decided(bits: Seq<bool>) -> bool {
    geometric::failures(bits) < bits.len()
}

/// One where the trials of `row` amount to `result`, else zero.
pub open spec fn amounts_to(prob: Double, row: Seq<int>, max_trials: i64, result: int) -> int {
    if geometric::censored(flips(prob, row), max_trials) == result {
        1
    } else {
        0
    }
}

/// The weight of all indices of a trial together.
pub open spec fn whole() -> int {
    pow2(1022) as int
}

/// The weight of the rows that start with `row`, go on for up to `trials` trials and amount to
/// `result`, in units of the weight of `row`. Without constant time a row ends with its first
/// success, and the trials that are left count with their whole weight.
pub open spec fn row_weight(
    prob: Double,
    row: Seq<int>,
    trials: nat,
    max_trials: i64,
    result: int,
    enforce_constant_time: bool,
) -> int
    decreases trials, 1024int,
{
    if trials == 0 {
        amounts_to(prob, row, max_trials, result)
    } else if is_decided(flips(prob, row)) && !enforce_constant_time {
        amounts_to(prob, row, max_trials, result) * pow(whole(), trials)
    } else {
        next_weight(prob, row, trials, max_trials, result, enforce_constant_time, 1023)
    }
}

/// The part of the weight of such rows in which the next index is below `end`.
pub open spec fn next_weight(
    prob: Double,
    row: Seq<int>,
    trials: nat,
    max_trials: i64,
    result: int,
    enforce_constant_time: bool,
    end: nat,
) -> int
    decreases trials, end,
{
    if end == 0 || trials == 0 {
        0
    } else {
        next_weight(
            prob,
            row,
            trials,
            max_trials,
            result,
            enforce_constant_time,
            (end - 1) as nat,
        ) + coin::index_weight(end - 1) * row_weight(
            prob,
            row.push(end - 1),
            (trials - 1) as nat,
            max_trials,
            result,
            enforce_constant_time,
        )
    }
}

/// The probability of a result of the censored geometric draw, in units of
/// `1 / whole()^trials` for a draw of up to that many trials.
pub open spec fn draw_weight(
    prob: Double,
    max_trials: i64,
    result: int,
    enforce_constant_time: bool,
) -> int {
    row_weight(
        prob,
        Seq::empty(),
        geometric::trial_count(max_trials),
        max_trials,
        result,
        enforce_constant_time,
    )
}

/// The weights of the geometric distribution that is censored at `max_trials`, for trials
/// that succeed with the weight `heads` out of `whole()`.
pub open spec fn geometric_weight(heads: int, max_trials: int, result: int) -> int {
    if max_trials <= 0 {
        if result == max_trials {
            1
        } else {
            0
        }
    } else if 0 < result < max_trials {
        pow(whole() - heads, (result - 1) as nat) * heads * pow(
            whole(),
            (max_trials - result) as nat,
        )
    } else if result == max_trials {
        pow(whole() - heads, (max_trials - 1) as nat) * whole()
    } else {
        0
    }
}

/// The trials of a draw show the digits of the bias that their indices pick, and each index
/// is one of those that have a weight.
pub proof fn law_trials_show_their_indices(
    tape: Seq<u8>,
    prob: Double,
    trials: nat,
    enforce_constant_time: bool,
)
    ensures
        match (
            geometric::read_trials(tape, prob, trials, enforce_constant_time),
            read_indices(tape, prob, trials, enforce_constant_time),
        ) {
            (Some((bits, _)), Some(row)) => {
                &&& bits == flips(prob, row)
                &&& forall|j: int| 0 <= j < row.len() ==> 0 <= #[trigger] row[j] < 1023
            },
            (None, None) => true,
            _ => false,
        },
    decreases trials,
{
    if trials > 0 {
        if let Some((index, length)) = coin::read_heads(tape, enforce_constant_time) {
            coin::lemma_index_bound(tape, enforce_constant_time);
            let bit = coin::coin(prob, index as int);
            let rest = tape.skip(length as int);
            if bit && !enforce_constant_time {
                assert(flips(prob, seq![index as int]) =~= seq![bit]);
            } else {
                law_trials_show_their_indices(
                    rest,
                    prob,
                    (trials - 1) as nat,
                    enforce_constant_time,
                );
                if let Some(row) = read_indices(
                    rest,
                    prob,
                    (trials - 1) as nat,
                    enforce_constant_time,
                ) {
                    assert(flips(prob, seq![index as int] + row) =~= seq![bit] + flips(prob, row));
                }
            }
        }
    }
}

/// The weight of the indices below `end`.
spec fn weight_up_to(end: nat) -> int
    decreases end,
{
    if end == 0 {
        0
    } else {
        weight_up_to((end - 1) as nat) + coin::index_weight(end - 1)
    }
}

proof fn lemma_weight_up_to(end: nat)
    requires
        end <= 1022,
    ensures
        weight_up_to(end) == whole() - pow2((1022 - end) as nat),
    decreases end,
{
    if end > 0 {
        lemma_weight_up_to((end - 1) as nat);
        lemma_pow2_unfold((1023 - end) as nat);
    }
}

proof fn lemma_whole()
    ensures
        weight_up_to(1023) == whole(),
{
    lemma_weight_up_to(1022);
    lemma2_to64();
}

/// Where what follows the next index depends on the side that it shows alone, the sides can be
/// added up.
proof fn lemma_next_weight(
    prob: Double,
    row: Seq<int>,
    trials: nat,
    max_trials: i64,
    result: int,
    enforce_constant_time: bool,
    end: nat,
    success: int,
    failure: int,
)
    requires
        trials > 0,
        forall|i: int|
            #![trigger row.push(i)]
            row_weight(
                prob,
                row.push(i),
                (trials - 1) as nat,
                max_trials,
                result,
                enforce_constant_time,
            ) == if coin::coin(prob, i) {
                success
            } else {
                failure
            },
    ensures
        next_weight(prob, row, trials, max_trials, result, enforce_constant_time, end)
            == coin::heads_weight(prob, end) * success + (weight_up_to(end) - coin::heads_weight(
            prob,
            end,
        )) * failure,
    decreases end,
{
    if end == 0 {
        lemma_mul_basics(success);
        lemma_mul_basics(failure);
    } else {
        lemma_next_weight(
            prob,
            row,
            trials,
            max_trials,
            result,
            enforce_constant_time,
            (end - 1) as nat,
            success,
            failure,
        );
        let next = row.push(end - 1);
        let heads = coin::heads_weight(prob, (end - 1) as nat) as int;
        let all = weight_up_to((end - 1) as nat);
        let weight = coin::index_weight(end - 1) as int;
        if coin::coin(prob, end - 1) {
            assert(heads * success + (all - heads) * failure + weight * success == (heads + weight)
                * success + ((all + weight) - (heads + weight)) * failure) by (nonlinear_arith);
        } else {
            assert(heads * success + (all - heads) * failure + weight * failure == heads * success
                + ((all + weight) - heads) * failure) by (nonlinear_arith);
        }
    }
}

/// What one more index does to the trials of a row.
proof fn lemma_one_more_flip(prob: Double, row: Seq<int>, i: int)
    ensures
        ({
            let bits = flips(prob, row);
            let longer = flips(prob, row.push(i));
            &&& is_decided(bits) ==> is_decided(longer) && geometric::failures(longer)
                == geometric::failures(bits)
            &&& !is_decided(bits) ==> geometric::failures(longer) == if coin::coin(prob, i) {
                row.len()
            } else {
                row.len() + 1
            }
        }),
{
    let bits = flips(prob, row);
    assert(flips(prob, row.push(i)) =~= bits.push(coin::coin(prob, i)));
    geometric::lemma_failures_push(bits, coin::coin(prob, i));
}

/// Behind the first success nothing changes any more.
proof fn lemma_decided_row(
    prob: Double,
    row: Seq<int>,
    trials: nat,
    max_trials: i64,
    result: int,
    enforce_constant_time: bool,
)
    requires
        is_decided(flips(prob, row)),
    ensures
        row_weight(prob, row, trials, max_trials, result, enforce_constant_time) == amounts_to(
            prob,
            row,
            max_trials,
            result,
        ) * pow(whole(), trials),
    decreases trials,
{
    let one = amounts_to(prob, row, max_trials, result);
    if trials == 0 {
        lemma_pow0(whole());
    } else if enforce_constant_time {
        let rest = one * pow(whole(), (trials - 1) as nat);
        assert forall|i: int|
            #![trigger row.push(i)]
            row_weight(
                prob,
                row.push(i),
                (trials - 1) as nat,
                max_trials,
                result,
                enforce_constant_time,
            ) == rest by {
            lemma_one_more_flip(prob, row, i);
            lemma_decided_row(
                prob,
                row.push(i),
                (trials - 1) as nat,
                max_trials,
                result,
                enforce_constant_time,
            );
        }
        lemma_next_weight(
            prob,
            row,
            trials,
            max_trials,
            result,
            enforce_constant_time,
            1023,
            rest,
            rest,
        );
        lemma_whole();
        let heads = coin::heads_weight(prob, 1023) as int;
        let all = whole();
        let power = pow(all, (trials - 1) as nat);
        reveal(pow);
        assert(heads * (one * power) + (all - heads) * (one * power) == one * (all * power))
            by (nonlinear_arith);
    }
}

/// The weights that are left where the first `made` trials have failed.
spec fn weight_behind(heads: int, made: int, max_trials: int, result: int) -> int {
    if made == max_trials {
        if result == max_trials {
            1
        } else {
            0
        }
    } else if made < result < max_trials {
        pow(whole() - heads, (result - 1 - made) as nat) * heads * pow(
            whole(),
            (max_trials - result) as nat,
        )
    } else if result == max_trials {
        pow(whole() - heads, (max_trials - 1 - made) as nat) * whole()
    } else {
        0
    }
}

/// A trial succeeds, or fails and leaves one trial less.
proof fn lemma_weight_behind(heads: int, made: int, max_trials: int, result: int)
    requires
        0 <= made < max_trials,
    ensures
        weight_behind(heads, made, max_trials, result) == heads * (if result == made + 1 {
            pow(whole(), (max_trials - made - 1) as nat)
        } else {
            0
        }) + (whole() - heads) * weight_behind(heads, made + 1, max_trials, result),
{
    reveal(pow);
    let all = whole();
    let tails = all - heads;
    let behind = weight_behind(heads, made + 1, max_trials, result);
    lemma_mul_basics(heads);
    lemma_mul_basics(tails);
    lemma_mul_basics(all);
    if made < result < max_trials {
        let power = pow(all, (max_trials - result) as nat);
        if result == made + 1 {
            assert(pow(tails, 0) == 1);
            assert(behind == 0);
        } else {
            let less = pow(tails, (result - 2 - made) as nat);
            assert((tails * less) * heads * power == tails * (less * heads * power))
                by (nonlinear_arith);
        }
    } else if result == max_trials {
        if result == made + 1 {
            assert(pow(all, 0) == 1);
            assert(pow(tails, 0) == 1);
        } else {
            let less = pow(tails, (max_trials - 2 - made) as nat);
            assert((tails * less) * all == tails * (less * all)) by (nonlinear_arith);
        }
    } else {
        assert(behind == 0);
    }
}

/// The weights of a row in which all trials have failed so far.
proof fn lemma_undecided_row(
    prob: Double,
    row: Seq<int>,
    trials: nat,
    max_trials: i64,
    result: int,
    enforce_constant_time: bool,
)
    requires
        !is_decided(flips(prob, row)),
        row.len() + trials == max_trials,
    ensures
        row_weight(prob, row, trials, max_trials, result, enforce_constant_time) == weight_behind(
            coin::heads_weight(prob, 1023) as int,
            row.len() as int,
            max_trials as int,
            result,
        ),
    decreases trials,
{
    let heads = coin::heads_weight(prob, 1023) as int;
    let made = row.len() as int;
    if trials > 0 {
        let left = (trials - 1) as nat;
        let success = if result == made + 1 {
            pow(whole(), left)
        } else {
            0
        };
        let failure = weight_behind(heads, made + 1, max_trials as int, result);
        assert forall|i: int|
            #![trigger row.push(i)]
            row_weight(prob, row.push(i), left, max_trials, result, enforce_constant_time)
                == if coin::coin(prob, i) {
                success
            } else {
                failure
            } by {
            lemma_one_more_flip(prob, row, i);
            if coin::coin(prob, i) {
                lemma_decided_row(
                    prob,
                    row.push(i),
                    left,
                    max_trials,
                    result,
                    enforce_constant_time,
                );
                lemma_mul_basics(pow(whole(), left));
            } else {
                lemma_undecided_row(
                    prob,
                    row.push(i),
                    left,
                    max_trials,
                    result,
                    enforce_constant_time,
                );
            }
        }
        lemma_next_weight(
            prob,
            row,
            trials,
            max_trials,
            result,
            enforce_constant_time,
            1023,
            success,
            failure,
        );
        lemma_whole();
        lemma_weight_behind(heads, made, max_trials as int, result);
    }
}

/// The draws are geometric. For trials that succeed with probability `p`, which is
/// `heads_weight(prob, 1023)` out of `whole()`, the result `k` below `max_trials` has the
/// probability `(1 - p)^(k - 1) * p`, and `max_trials` has the rest, `(1 - p)^(max_trials - 1)`.
/// It is so in constant time and without.
pub proof fn law_draws_are_geometric(
    prob: Double,
    max_trials: i64,
    result: int,
    enforce_constant_time: bool,
)
    ensures
        draw_weight(prob, max_trials, result, enforce_constant_time) == geometric_weight(
            coin::heads_weight(prob, 1023) as int,
            max_trials as int,
            result,
        ),
{
    let none = Seq::<int>::empty();
    assert(flips(prob, none).len() == 0);
    if max_trials > 0 {
        lemma_undecided_row(
            prob,
            none,
            max_trials as nat,
            max_trials,
            result,
            enforce_constant_time,
        );
    }
}

/// The weight of the results from one up to `end`.
pub open spec fn results_weight(
    prob: Double,
    max_trials: i64,
    end: nat,
    enforce_constant_time: bool,
) -> int
    decreases end,
{
    if end == 0 {
        0
    } else {
        results_weight(prob, max_trials, (end - 1) as nat, enforce_constant_time) + draw_weight(
            prob,
            max_trials,
            end as int,
            enforce_constant_time,
        )
    }
}

/// The probabilities of the results from one up to `max_trials` add up to one.
pub proof fn law_weights_add_up(prob: Double, max_trials: i64, enforce_constant_time: bool)
    requires
        max_trials > 0,
    ensures
        results_weight(prob, max_trials, max_trials as nat, enforce_constant_time) == pow(
            whole(),
            max_trials as nat,
        ),
{
    let end = (max_trials - 1) as nat;
    lemma_results_weight(prob, max_trials, end, enforce_constant_time);
    law_draws_are_geometric(prob, max_trials, max_trials as int, enforce_constant_time);
    lemma_pow1(whole());
}

/// What the first results leave is the weight of as many failures.
proof fn lemma_results_weight(
    prob: Double,
    max_trials: i64,
    end: nat,
    enforce_constant_time: bool,
)
    requires
        end < max_trials,
    ensures
        results_weight(prob, max_trials, end, enforce_constant_time) == pow(
            whole(),
            max_trials as nat,
        ) - pow(whole() - coin::heads_weight(prob, 1023), end) * pow(
            whole(),
            (max_trials - end) as nat,
        ),
    decreases end,
{
    let heads = coin::heads_weight(prob, 1023) as int;
    let all = whole();
    let tails = all - heads;
    if end == 0 {
        lemma_pow0(tails);
        lemma_mul_basics(pow(all, max_trials as nat));
    } else {
        lemma_results_weight(prob, max_trials, (end - 1) as nat, enforce_constant_time);
        law_draws_are_geometric(prob, max_trials, end as int, enforce_constant_time);
        reveal(pow);
        let less = pow(tails, (end - 1) as nat);
        let power = pow(all, (max_trials - end) as nat);
        assert(less * (all * power) - less * heads * power == (tails * less) * power)
            by (nonlinear_arith)
            requires
                tails == all - heads,
        ;
    }
}

/// The probability of a noise of the geometric mechanism, in units of
/// `2^-1074 * 1/2 / whole()^trials`: of zero where the draw from the unit interval is below
/// `zero_prob`, and else of the two draws that either side of the fair coin turns into `noise`.
pub open spec fn noise_weight(
    zero_prob: Double,
    prob: Double,
    max_trials: i64,
    noise: int,
    enforce_constant_time: bool,
) -> int {
    let below = uniform::weight_below(zero_prob, 1023) as int;
    let silent = if noise == 0 {
        below * (2 * pow(whole(), geometric::trial_count(max_trials)))
    } else {
        0
    };
    silent + (pow2(1074) - below) * (draw_weight(prob, max_trials, noise, enforce_constant_time)
        + draw_weight(prob, max_trials, -noise, enforce_constant_time))
}

/// The noise is two-sided geometric. No noise has the probability `zero_prob`; the rest is
/// shared by the two signs, and within each the sizes have the probabilities of a censored
/// geometric draw. Where no trial can be made, the size is `max_trials` itself.
pub proof fn law_noise_is_two_sided_geometric(
    zero_prob: Double,
    prob: Double,
    max_trials: i64,
    noise: int,
    enforce_constant_time: bool,
)
    requires
        !zero_prob.is_nan(),
        0 <= zero_prob.value() <= pow2(1074),
    ensures
        ({
            let weight = noise_weight(zero_prob, prob, max_trials, noise, enforce_constant_time);
            let heads = coin::heads_weight(prob, 1023) as int;
            let rest = pow2(1074) - zero_prob.value();
            if max_trials > 0 {
                weight == if noise == 0 {
                    zero_prob.value() * (2 * pow(whole(), max_trials as nat))
                } else {
                    rest * geometric_weight(
                        heads,
                        max_trials as int,
                        if noise > 0 {
                            noise
                        } else {
                            -noise
                        },
                    )
                }
            } else {
                weight == if max_trials == 0 && noise == 0 {
                    2 * pow2(1074) as int
                } else if noise == 0 {
                    2 * zero_prob.value()
                } else if noise == max_trials || noise == -max_trials {
                    rest
                } else {
                    0
                }
            }
        }),
{
    uniform::law_unit_is_uniform(zero_prob);
    law_draws_are_geometric(prob, max_trials, noise, enforce_constant_time);
    law_draws_are_geometric(prob, max_trials, -noise, enforce_constant_time);
    let zero = zero_prob.value();
    let rest = pow2(1074) - zero;
    lemma_mul_basics(rest);
    if max_trials <= 0 {
        lemma_pow0(whole());
        assert(zero * (2 * 1) == 2 * zero) by (nonlinear_arith);
        assert(rest * (1 + 1) == 2 * rest) by (nonlinear_arith);
    }
}

/// What is read off the bytes is what the weights count: the result of a draw is the one that the
/// row of its indices amounts to, and no other.
pub proof fn law_results_follow_their_indices(
    tape: Seq<u8>,
    prob: Double,
    max_trials: i64,
    enforce_constant_time: bool,
    result: int,
)
    ensures
        match (
            geometric::read_geometric(tape, prob, max_trials, enforce_constant_time),
            read_indices(tape, prob, geometric::trial_count(max_trials), enforce_constant_time),
        ) {
            (Some((number, _)), Some(row)) => {
                &&& amounts_to(prob, row, max_trials, result) == if result == number {
                    1int
                } else {
                    0
                }
                &&& row.len() == if max_trials <= 0 {
                    0
                } else if enforce_constant_time {
                    max_trials as int
                } else {
                    number as int
                }
            },
            (None, None) => true,
            _ => false,
        },
{
    let trials = geometric::trial_count(max_trials);
    law_trials_show_their_indices(tape, prob, trials, enforce_constant_time);
    geometric::law_constant_time_makes_all_trials(tape, prob, trials, enforce_constant_time);
    if max_trials > 0 && !enforce_constant_time {
        geometric::law_early_exit_makes_as_many_trials(tape, prob, max_trials);
    }
}

/// The noise that is read off the bytes is what its weights count: none where the draw from the
/// unit interval is below `zero_prob`, and else, up to the sign, what the row of indices behind
/// the byte of the sign amounts to.
pub proof fn law_noise_follows_its_indices(
    tape: Seq<u8>,
    zero_prob: Double,
    prob: Double,
    max_trials: i64,
    enforce_constant_time: bool,
)
    requires
        max_trials > i64::MIN,
    ensures
        geometric::read_noise(tape, zero_prob, prob, max_trials, enforce_constant_time) matches Some(
            (Ok(noise), _),
        ) ==> {
            let (unit, used) = uniform::read_unit(tape, enforce_constant_time)->0;
            let row = read_indices(
                tape.skip(used as int + 1),
                prob,
                geometric::trial_count(max_trials),
                enforce_constant_time,
            );
            if !zero_prob.is_nan() && unit.value() < zero_prob.value() {
                noise == 0
            } else {
                &&& row is Some
                &&& amounts_to(
                    prob,
                    row->0,
                    max_trials,
                    if tape[used as int] % 2 == 1 {
                        noise as int
                    } else {
                        -noise
                    },
                ) == 1
            }
        },
{
    geometric::law_noise_is_a_signed_geometric_draw(
        tape,
        zero_prob,
        prob,
        max_trials,
        enforce_constant_time,
    );
    uniform::law_unit_is_below_one(tape, enforce_constant_time);
    if let Some((Ok(noise), _)) = geometric::read_noise(
        tape,
        zero_prob,
        prob,
        max_trials,
        enforce_constant_time,
    ) {
        let (_, used) = uniform::read_unit(tape, enforce_constant_time)->0;
        law_results_follow_their_indices(
            tape.skip(used as int + 1),
            prob,
            max_trials,
            enforce_constant_time,
            if tape[used as int] % 2 == 1 {
                noise as int
            } else {
                -noise
            },
        );
    }
}

} // verus!
