//! Geometric draws, and the noise of the geometric mechanism.
use crate::coin;
use crate::double::Double;
use crate::error::Error;
use crate::source::{self, ByteSource};
use crate::uniform;
use vstd::arithmetic::power2::*;
use vstd::prelude::*;

verus! {

/// Reads the trials of a geometric draw off `tape`: flips of the coin of bias `prob`, `trials`
/// of them in constant time, else as many of them as it takes to see the first success.
pub open spec fn read_trials(
    tape: Seq<u8>,
    prob: Double,
    trials: nat,
    enforce_constant_time: bool,
) -> Option<(Seq<bool>, nat)>
    decreases trials,
{
    if trials == 0 {
        Some((Seq::empty(), 0))
    } else {
        match coin::read_coin(tape, prob, enforce_constant_time) {
            Some((bit, length)) => if bit && !enforce_constant_time {
                Some((seq![bit], length))
            } else {
                match read_trials(
                    tape.skip(length as int),
                    prob,
                    (trials - 1) as nat,
                    enforce_constant_time,
                ) {
                    Some((bits, rest)) => Some((seq![bit] + bits, length + rest)),
                    None => None,
                }
            },
            None => None,
        }
    }
}

/// The index of the first success among `bits`, or their number where there is none.
pub open spec fn failures(bits: Seq<bool>) -> nat
    decreases bits.len(),
{
    if bits.len() == 0 || bits[0] {
        0
    } else {
        1 + failures(bits.skip(1))
    }
}

/// What a row of trials amounts to: the number of the first success, counted from one, or
/// `max_trials` where there is none.
pub open spec fn censored(bits: Seq<bool>, max_trials: i64) -> i64 {
    if failures(bits) < bits.len() {
        (failures(bits) + 1) as i64
    } else {
        max_trials
    }
}

/// How many trials there can be.
pub open spec fn trial_count(max_trials: i64) -> nat {
    if max_trials > 0 {
        max_trials as nat
    } else {
        0
    }
}

/// Reads a draw of the censored geometric distribution off `tape`.
pub open spec fn read_geometric(
    tape: Seq<u8>,
    prob: Double,
    max_trials: i64,
    enforce_constant_time: bool,
) -> Option<(i64, nat)> {
    match read_trials(tape, prob, trial_count(max_trials), enforce_constant_time) {
        Some((bits, length)) => Some((censored(bits, max_trials), length)),
        None => None,
    }
}

/// The requests by which the trials of a geometric draw draw `length` bytes: one for each
/// trial in constant time, else one for each byte.
pub open spec fn trial_requests(
    length: nat,
    max_trials: i64,
    enforce_constant_time: bool,
) -> Seq<nat> {
    if enforce_constant_time {
        source::repeated(coin::RUN_BYTES as nat, trial_count(max_trials))
    } else {
        source::repeated(1, length)
    }
}

/// What one more trial does to the index of the first success.
pub proof fn lemma_failures_push(bits: Seq<bool>, bit: bool)
    ensures
        failures(bits) <= bits.len(),
        failures(bits.push(bit)) == if failures(bits) < bits.len() || bit {
            failures(bits)
        } else {
            bits.len() + 1
        },
    decreases bits.len(),
{
    if bits.len() == 0 {
        assert(failures(bits.push(bit).skip(1)) == 0);
    } else {
        lemma_failures_push(bits.skip(1), bit);
        assert(bits.push(bit).skip(1) =~= bits.skip(1).push(bit));
    }
}

/// Where the first trials did not end the draw, the draw goes on behind them.
proof fn lemma_trials_go_on(
    tape: Seq<u8>,
    rest: Seq<u8>,
    prob: Double,
    done: nat,
    more: nat,
    enforce_constant_time: bool,
)
    requires
        read_trials(tape, prob, done, enforce_constant_time) matches Some((bits, length)) && length
            == tape.len() && (enforce_constant_time || failures(bits) == bits.len()),
    ensures
        read_trials(tape + rest, prob, done + more, enforce_constant_time) == match read_trials(
            rest,
            prob,
            more,
            enforce_constant_time,
        ) {
            Some((bits, length)) => Some(
                (
                    (read_trials(tape, prob, done, enforce_constant_time)->0).0 + bits,
                    tape.len() + length,
                ),
            ),
            None => None,
        },
    decreases done,
{
    let made = (read_trials(tape, prob, done, enforce_constant_time)->0).0;
    if done == 0 {
        assert(tape + rest =~= rest);
        if let Some((bits, _)) = read_trials(rest, prob, more, enforce_constant_time) {
            assert(made + bits =~= bits);
        }
    } else {
        let longer = tape + rest;
        let (bit, length) = coin::read_coin(tape, prob, enforce_constant_time)->0;
        coin::lemma_heads_local(tape, tape, enforce_constant_time);
        assert(longer.take(length as int) =~= tape.take(length as int));
        coin::lemma_heads_local(tape, longer, enforce_constant_time);
        let left = tape.skip(length as int);
        assert(longer.skip(length as int) =~= left + rest);
        let (bits, _) = read_trials(left, prob, (done - 1) as nat, enforce_constant_time)->0;
        assert(made.skip(1) =~= bits);
        lemma_trials_go_on(left, rest, prob, (done - 1) as nat, more, enforce_constant_time);
        if let Some((further, _)) = read_trials(rest, prob, more, enforce_constant_time) {
            assert(seq![bit] + (bits + further) =~= made + further);
        }
    }
}

impl ByteSource {
    /// Draws from the geometric distribution of parameter `prob`, censored at `max_trials`.
    ///
    /// In constant time all trials are made; else the draw ends with the first success.
    #[verifier::rlimit(60)]
    #[verifier::spinoff_prover]
    pub fn sample_geometric_censored(
        &mut self,
        prob: Double,
        max_trials: i64,
        enforce_constant_time: bool,
    ) -> (number: Result<i64, Error>)
        requires
            old(self).wf(),
        ensures
            coin::is_probability(prob) ==> old(self).reads(
                *final(self),
                |tape: Seq<u8>| read_geometric(tape, prob, max_trials, enforce_constant_time),
                number,
            ),
            !coin::is_probability(prob) ==> number == Err::<i64, Error>(
                Error::ProbabilityOutOfRange,
            ) && *final(self) == *old(self),
            number is Ok ==> old(self).asked(*final(self)) == trial_requests(
                old(self).taken(*final(self)).len(),
                max_trials,
                enforce_constant_time,
            ),
            number matches Ok(number) ==> if max_trials > 0 {
                1 <= number <= max_trials
            } else {
                number == max_trials
            },
    {
        if prob < Double::zero() || prob > Double::one() {
            return Err(Error::ProbabilityOutOfRange);
        }
        let ghost before = *self;
        let ghost all = trial_count(max_trials);
        let ghost mut bits: Seq<bool> = Seq::empty();
        proof {
            before.lemma_still();
            assert(before.asked(before) =~= source::repeated(1, 0));
            assert(before.asked(before) =~= source::repeated(coin::RUN_BYTES as nat, 0));
        }
        let mut trials: i64 = 0;
        let mut success: i64 = 0;
        while trials < max_trials
            invariant
                before == *old(self),
                before.wf(),
                before.advances_to(*self),
                coin::is_probability(prob),
                all == trial_count(max_trials),
                0 <= trials <= all,
                bits.len() == trials,
                read_trials(before.taken(*self), prob, trials as nat, enforce_constant_time)
                    == Some((bits, before.taken(*self).len())),
                before.asked(*self) == if enforce_constant_time {
                    source::repeated(coin::RUN_BYTES as nat, trials as nat)
                } else {
                    source::repeated(1, before.taken(*self).len())
                },
                enforce_constant_time || success == 0,
                failures(bits) <= bits.len(),
                success == if failures(bits) < bits.len() {
                    failures(bits) + 1
                } else {
                    0
                },
            decreases max_trials - trials,
        {
            let ghost reached = *self;
            let ghost done = before.taken(*self);
            let flip = self.sample_bit_prob(prob, enforce_constant_time);
            let ghost run = reached.taken(*self);
            let ghost left = (all - trials) as nat;
            proof {
                before.lemma_chain(reached, *self);
                lemma_trials_go_on(
                    done,
                    run,
                    prob,
                    trials as nat,
                    left,
                    enforce_constant_time,
                );
                lemma_trials_go_on(done, run, prob, trials as nat, 1, enforce_constant_time);
                if before.script() is Some {
                    lemma_trials_go_on(
                        done,
                        reached.remaining(),
                        prob,
                        trials as nat,
                        left,
                        enforce_constant_time,
                    );
                }
            }
            let bit: bool = match flip {
                Ok(bit) => bit,
                Err(error) => return Err(error),
            };
            proof {
                if enforce_constant_time {
                    assert(before.asked(*self) =~= source::repeated(
                        coin::RUN_BYTES as nat,
                        (trials + 1) as nat,
                    ));
                } else {
                    assert(before.asked(*self) =~= source::repeated(
                        1,
                        before.taken(*self).len(),
                    ));
                }
                lemma_failures_push(bits, bit);
                assert(read_trials(
                    run.skip(run.len() as int),
                    prob,
                    0,
                    enforce_constant_time,
                ) == Some((Seq::<bool>::empty(), 0nat)));
                assert(seq![bit] + Seq::<bool>::empty() =~= seq![bit]);
                assert(bits + seq![bit] =~= bits.push(bit));
                bits = bits.push(bit);
            }
            trials = trials + 1;
            if bit && success == 0 {
                success = trials;
                if !enforce_constant_time {
                    return Ok(success);
                }
            }
        }
        if success == 0 {
            success = max_trials;
        }
        Ok(success)
    }
}

/// Draws from the geometric distribution of parameter `prob`, censored at `max_trials`, with
/// the system's generator.
pub fn sample_geometric_censored(prob: Double, max_trials: i64, enforce_constant_time: bool) -> (
number: Result<i64, Error>)
    ensures
        match number {
            Ok(number) => {
                &&& coin::is_probability(prob)
                &&& if max_trials > 0 {
                    1 <= number <= max_trials
                } else {
                    number == max_trials
                }
                &&& exists|tape: Seq<u8>| #[trigger]
                    read_geometric(tape, prob, max_trials, enforce_constant_time) == Some(
                        (number, tape.len()),
                    )
            },
            Err(error) => error == if coin::is_probability(prob) {
                Error::Entropy
            } else {
                Error::ProbabilityOutOfRange
            },
        },
        coin::is_probability(prob) && max_trials <= 0 ==> number == Ok::<i64, Error>(max_trials),
        exists|source: &mut ByteSource| #[trigger]
            call_ensures(ByteSource::sample_geometric_censored, (source, prob, max_trials, enforce_constant_time), number) && source.wf() && source.script() is None,
{
    ByteSource::system().sample_geometric_censored(prob, max_trials, enforce_constant_time)
}

/// In constant time all trials are made and each takes 128 bytes, whatever comes of them.
/// Else there are as many trials at most.
pub proof fn law_constant_time_makes_all_trials(
    tape: Seq<u8>,
    prob: Double,
    trials: nat,
    enforce_constant_time: bool,
)
    ensures
        read_trials(tape, prob, trials, enforce_constant_time) matches Some((bits, length)) ==> {
            &&& bits.len() <= trials
            &&& enforce_constant_time ==> bits.len() == trials && length == coin::RUN_BYTES
                * trials
        },
    decreases trials,
{
    if trials > 0 {
        if let Some((_, length)) = coin::read_coin(tape, prob, enforce_constant_time) {
            law_constant_time_makes_all_trials(
                tape.skip(length as int),
                prob,
                (trials - 1) as nat,
                enforce_constant_time,
            );
        }
    }
}

/// Without constant time as many trials are made as the draw says: those up to the first
/// success, or all of them where there is none.
pub proof fn law_early_exit_makes_as_many_trials(tape: Seq<u8>, prob: Double, max_trials: i64)
    requires
        max_trials > 0,
    ensures
        read_trials(tape, prob, trial_count(max_trials), false) matches Some((bits, _)) ==> {
            &&& bits.len() == censored(bits, max_trials)
            &&& forall|j: int| 0 <= j < bits.len() - 1 ==> !bits[j]
        },
{
    lemma_early_exit(tape, prob, trial_count(max_trials));
    if let Some((bits, _)) = read_trials(tape, prob, trial_count(max_trials), false) {
        lemma_no_success_before(bits);
    }
}

/// A row of trials that ends early ends with its only success.
proof fn lemma_early_exit(tape: Seq<u8>, prob: Double, trials: nat)
    ensures
        read_trials(tape, prob, trials, false) matches Some((bits, _)) ==> {
            ||| bits.len() > 0 && bits.len() <= trials && failures(bits) == bits.len() - 1
            ||| bits.len() == trials && failures(bits) == bits.len()
        },
    decreases trials,
{
    if trials > 0 {
        if let Some((bit, length)) = coin::read_coin(tape, prob, false) {
            let rest = tape.skip(length as int);
            lemma_early_exit(rest, prob, (trials - 1) as nat);
            if let Some((bits, _)) = read_trials(rest, prob, (trials - 1) as nat, false) {
                assert((seq![bit] + bits).skip(1) =~= bits);
            }
        }
    }
}

proof fn lemma_no_success_before(bits: Seq<bool>)
    ensures
        forall|j: int| 0 <= j < failures(bits) && j < bits.len() ==> !bits[j],
    decreases bits.len(),
{
    if bits.len() > 0 && !bits[0] {
        let rest = bits.skip(1);
        lemma_no_success_before(rest);
        assert forall|j: int| 0 <= j < failures(bits) && j < bits.len() implies !bits[j] by {
            if j > 0 {
                assert(bits[j] == rest[j - 1]);
            }
        }
    }
}

/// In constant time every trial has 128 bytes of its own, and so the trials are independent.
pub proof fn law_trials_share_no_bytes(tape: Seq<u8>, prob: Double, trials: nat, j: int)
    requires
        0 <= j < trials,
    ensures
        read_trials(tape, prob, trials, true) matches Some((bits, _)) ==> bits[j] == coin::coin(
            prob,
            coin::first_heads(tape.subrange(128 * j, 128 * (j + 1))),
        ),
    decreases trials,
{
    if let Some((_, length)) = coin::read_coin(tape, prob, true) {
        let rest = tape.skip(128);
        law_constant_time_makes_all_trials(rest, prob, (trials - 1) as nat, true);
        if j == 0 {
            coin::lemma_index_bound(tape, true);
            assert(tape.take(128) =~= tape.subrange(0, 128));
        } else {
            law_trials_share_no_bytes(rest, prob, (trials - 1) as nat, j - 1);
            if let Some((_, used)) = read_trials(rest, prob, (trials - 1) as nat, true) {
                lemma_trials_fit(rest, prob, (trials - 1) as nat);
                assert(rest.subrange(128 * (j - 1), 128 * j) =~= tape.subrange(
                    128 * j,
                    128 * (j + 1),
                ));
            }
        }
    }
}

/// What is read in constant time is there.
proof fn lemma_trials_fit(tape: Seq<u8>, prob: Double, trials: nat)
    ensures
        read_trials(tape, prob, trials, true) is Some ==> tape.len() >= 128 * trials,
    decreases trials,
{
    if trials > 0 && tape.len() >= 128 {
        lemma_trials_fit(tape.skip(128), prob, (trials - 1) as nat);
    }
}

/// What is drawn behind the first success changes nothing: a row of trials amounts to the
/// same when it is cut off there.
pub proof fn law_first_success_decides(bits: Seq<bool>, max_trials: i64)
    requires
        failures(bits) < bits.len(),
    ensures
        bits[failures(bits) as int],
        forall|j: int| 0 <= j < failures(bits) ==> !bits[j],
        censored(bits.take(failures(bits) as int + 1), max_trials) == censored(bits, max_trials),
    decreases bits.len(),
{
    let cut = bits.take(failures(bits) as int + 1);
    if bits[0] {
        assert(failures(cut) == 0);
    } else {
        let rest = bits.skip(1);
        law_first_success_decides(rest, max_trials);
        assert(cut.skip(1) =~= rest.take(failures(rest) as int + 1));
        assert forall|j: int| 0 <= j < failures(bits) implies !bits[j] by {
            if j > 0 {
                assert(bits[j] == rest[j - 1]);
            }
        }
        lemma_cut_has_success(rest);
    }
}

proof fn lemma_cut_has_success(bits: Seq<bool>)
    requires
        failures(bits) < bits.len(),
    ensures
        failures(bits.take(failures(bits) as int + 1)) == failures(bits),
    decreases bits.len(),
{
    let cut = bits.take(failures(bits) as int + 1);
    if !bits[0] {
        let rest = bits.skip(1);
        lemma_cut_has_success(rest);
        assert(cut.skip(1) =~= rest.take(failures(rest) as int + 1));
    }
}

/// A trial that cannot fail succeeds at once, and one that cannot succeed never does.
pub proof fn law_certain_trials(
    tape: Seq<u8>,
    prob: Double,
    max_trials: i64,
    enforce_constant_time: bool,
)
    requires
        !prob.is_nan(),
        max_trials > 0,
    ensures
        read_geometric(tape, prob, max_trials, enforce_constant_time) matches Some((number, _)) ==> {
            &&& prob.value() == pow2(1074) ==> number == 1
            &&& prob.value() == 0 ==> number == max_trials
        },
{
    if let Some((index, _)) = coin::read_heads(tape, enforce_constant_time) {
        coin::law_certain_coins(prob, index as int);
    }
    if prob.value() == 0 {
        lemma_no_success(tape, prob, trial_count(max_trials), enforce_constant_time);
    }
}

proof fn lemma_no_success(
    tape: Seq<u8>,
    prob: Double,
    trials: nat,
    enforce_constant_time: bool,
)
    requires
        !prob.is_nan(),
        prob.value() == 0,
    ensures
        read_trials(tape, prob, trials, enforce_constant_time) matches Some((bits, _)) ==> failures(
            bits,
        ) == bits.len(),
    decreases trials,
{
    if trials > 0 {
        if let Some((index, length)) = coin::read_heads(tape, enforce_constant_time) {
            coin::law_certain_coins(prob, index as int);
            let rest = tape.skip(length as int);
            lemma_no_success(rest, prob, (trials - 1) as nat, enforce_constant_time);
            if let Some((bits, _)) = read_trials(
                rest,
                prob,
                (trials - 1) as nat,
                enforce_constant_time,
            ) {
                assert((seq![false] + bits).skip(1) =~= bits);
            }
        }
    }
}

/// Reads the sign of the noise off `tape` by a fair coin, and its size by a geometric draw of
/// parameter `prob`; or, behind the sign, the refusal of a parameter that is no probability.
pub open spec fn read_signed(
    tape: Seq<u8>,
    prob: Double,
    max_trials: i64,
    enforce_constant_time: bool,
) -> Option<(Result<i64, Error>, nat)> {
    match coin::read_bit(tape) {
        Some((positive, _)) => if !coin::is_probability(prob) {
            Some((Err(Error::ProbabilityOutOfRange), 1))
        } else {
            match read_geometric(tape.skip(1), prob, max_trials, enforce_constant_time) {
                Some((size, rest)) => Some(
                    (
                        Ok(
                            if positive {
                                size
                            } else {
                                (-size) as i64
                            },
                        ),
                        1 + rest,
                    ),
                ),
                None => None,
            }
        },
        None => None,
    }
}

/// Reads the noise of the geometric mechanism off `tape`, or the refusal of its parameter.
///
/// Where a uniform draw from the unit interval falls below `zero_prob` there is no noise.
/// Else its sign and size are drawn.
pub open spec fn read_noise(
    tape: Seq<u8>,
    zero_prob: Double,
    prob: Double,
    max_trials: i64,
    enforce_constant_time: bool,
) -> Option<(Result<i64, Error>, nat)> {
    match uniform::read_unit(tape, enforce_constant_time) {
        Some((unit, length)) => if unit.below(zero_prob) {
            Some((Ok(0), length))
        } else {
            match read_signed(
                tape.skip(length as int),
                prob,
                max_trials,
                enforce_constant_time,
            ) {
                Some((noise, rest)) => Some((noise, length + rest)),
                None => None,
            }
        },
        None => None,
    }
}

/// Tells the refusal of a parameter, which is read off the bytes like a value, from the
/// failure of the source.
pub open spec fn refused_or_read(noise: Result<i64, Error>) -> Result<Result<i64, Error>, Error> {
    match noise {
        Err(Error::Entropy) => Err(Error::Entropy),
        _ => Ok(noise),
    }
}

/// Where the uniform draw asks for noise, its sign and size are read behind it.
proof fn lemma_noise_behind_unit(
    run: Seq<u8>,
    rest: Seq<u8>,
    zero_prob: Double,
    prob: Double,
    max_trials: i64,
    enforce_constant_time: bool,
)
    requires
        uniform::read_unit(run, enforce_constant_time) matches Some((unit, length)) && length
            == run.len() && !unit.below(zero_prob),
    ensures
        read_noise(run + rest, zero_prob, prob, max_trials, enforce_constant_time)
            == match read_signed(rest, prob, max_trials, enforce_constant_time) {
            Some((noise, length)) => Some((noise, run.len() + length)),
            None => None,
        },
{
    lemma_unit_prefix(run, rest, enforce_constant_time);
    assert((run + rest).skip(run.len() as int) =~= rest);
}

/// What follows a double of the unit interval does not change it.
proof fn lemma_unit_prefix(run: Seq<u8>, rest: Seq<u8>, enforce_constant_time: bool)
    requires
        uniform::read_unit(run, enforce_constant_time) matches Some((_, length)) && length
            == run.len(),
    ensures
        uniform::read_unit(run + rest, enforce_constant_time) == uniform::read_unit(
            run,
            enforce_constant_time,
        ),
{
    let length = run.len() as int;
    assert((run + rest).take(length) =~= run.take(length));
    lemma_unit_local(run, run + rest, enforce_constant_time);
}

impl ByteSource {
    /// Draws the noise of the geometric mechanism for a statistic between `min` and `max`.
    ///
    /// For the decay `alpha` of the mechanism, `zero_prob` is the probability
    /// `(1 - alpha) / (1 + alpha)` of no noise and `prob` the parameter `1 - alpha` of the
    /// geometric distribution.
    #[verifier::rlimit(60)]
    #[verifier::spinoff_prover]
    pub fn sample_simple_geometric_mechanism(
        &mut self,
        zero_prob: Double,
        prob: Double,
        min: i64,
        max: i64,
        enforce_constant_time: bool,
    ) -> (noise: Result<i64, Error>)
        requires
            old(self).wf(),
            i64::MIN < max - min <= i64::MAX,
        ensures
            old(self).reads(
                *final(self),
                |tape: Seq<u8>|
                    read_noise(tape, zero_prob, prob, (max - min) as i64, enforce_constant_time),
                refused_or_read(noise),
            ),
            noise matches Ok(noise) ==> if min <= max {
                min - max <= noise <= max - min
            } else {
                max - min <= noise <= min - max
            },
            noise matches Err(error) ==> error == Error::Entropy || error
                == Error::ProbabilityOutOfRange && !coin::is_probability(prob),
            noise is Ok ==> {
                let length = old(self).taken(*final(self)).len();
                let (_, unit) = uniform::read_unit(
                    old(self).taken(*final(self)),
                    enforce_constant_time,
                )->0;
                old(self).asked(*final(self)) == uniform::unit_requests(
                    unit,
                    enforce_constant_time,
                ) + if length == unit {
                    Seq::empty()
                } else {
                    seq![1nat] + trial_requests(
                        (length - unit - 1) as nat,
                        (max - min) as i64,
                        enforce_constant_time,
                    )
                }
            },
    {
        let ghost before = *self;
        let max_trials: i64 = max - min;
        let unit: Double = match self.sample_unit(enforce_constant_time) {
            Ok(unit) => unit,
            Err(error) => return Err(error),
        };
        if unit < zero_prob {
            assert(before.asked(*self) =~= before.asked(*self) + Seq::<nat>::empty());
            return Ok(0);
        }
        let ghost middle = *self;
        let flip = self.sample_bit();
        let ghost flipped = *self;
        proof {
            before.lemma_chain(middle, flipped);
            lemma_noise_behind_unit(
                before.taken(middle),
                middle.taken(flipped),
                zero_prob,
                prob,
                max_trials,
                enforce_constant_time,
            );
            if before.script() is Some {
                lemma_noise_behind_unit(
                    before.taken(middle),
                    middle.remaining(),
                    zero_prob,
                    prob,
                    max_trials,
                    enforce_constant_time,
                );
            }
        }
        let positive: bool = match flip {
            Ok(bit) => bit,
            Err(error) => return Err(error),
        };
        let draw = self.sample_geometric_censored(prob, max_trials, enforce_constant_time);
        proof {
            let behind = middle.taken(*self);
            middle.lemma_chain(flipped, *self);
            before.lemma_chain(middle, *self);
            lemma_unit_prefix(before.taken(middle), behind, enforce_constant_time);
            assert(behind.skip(1) =~= flipped.taken(*self));
            assert(behind[0] == middle.taken(flipped)[0]);
            lemma_noise_behind_unit(
                before.taken(middle),
                behind,
                zero_prob,
                prob,
                max_trials,
                enforce_constant_time,
            );
            if before.script() is Some {
                assert(middle.remaining().skip(1) =~= flipped.remaining());
                assert(middle.remaining()[0] == middle.taken(flipped)[0]);
            }
        }
        match draw {
            Ok(size) => if positive {
                Ok(size)
            } else {
                Ok(-size)
            },
            Err(error) => Err(error),
        }
    }
}

/// What is read of a double of the unit interval depends on the bytes that it takes alone.
proof fn lemma_unit_local(tape: Seq<u8>, other: Seq<u8>, enforce_constant_time: bool)
    requires
        uniform::read_unit(tape, enforce_constant_time) matches Some((_, length)) && length
            <= other.len() && other.take(length as int) == tape.take(length as int),
    ensures
        uniform::read_unit(other, enforce_constant_time) == uniform::read_unit(
            tape,
            enforce_constant_time,
        ),
{
    let (_, length) = uniform::read_unit(tape, enforce_constant_time)->0;
    let heads = (length - 7) as int;
    coin::lemma_heads_local(tape.skip(7), tape.skip(7), enforce_constant_time);
    assert(length <= tape.len());
    assert(other.take(7) =~= other.take(length as int).take(7));
    assert(tape.take(7) =~= tape.take(length as int).take(7));
    assert(other.skip(7).take(heads) =~= other.take(length as int).skip(7));
    assert(tape.skip(7).take(heads) =~= tape.take(length as int).skip(7));
    coin::lemma_heads_local(tape.skip(7), other.skip(7), enforce_constant_time);
}

/// Draws the noise of the geometric mechanism with the system's generator.
pub fn sample_simple_geometric_mechanism(
    zero_prob: Double,
    prob: Double,
    min: i64,
    max: i64,
    enforce_constant_time: bool,
) -> (noise: Result<i64, Error>)
    requires
        i64::MIN < max - min <= i64::MAX,
    ensures
        match noise {
            Ok(noise) => if min <= max {
                min - max <= noise <= max - min
            } else {
                max - min <= noise <= min - max
            },
            Err(error) => error == Error::Entropy || error == Error::ProbabilityOutOfRange
                && !coin::is_probability(prob),
        },
        refused_or_read(noise) is Ok ==> exists|tape: Seq<u8>| #[trigger]
            read_noise(tape, zero_prob, prob, (max - min) as i64, enforce_constant_time) == Some(
                (noise, tape.len()),
            ),
        exists|source: &mut ByteSource| #[trigger]
            call_ensures(ByteSource::sample_simple_geometric_mechanism, (source, zero_prob, prob, min, max, enforce_constant_time), noise) && source.wf() && source.script() is None,
{
    ByteSource::system().sample_simple_geometric_mechanism(
        zero_prob,
        prob,
        min,
        max,
        enforce_constant_time,
    )
}

/// The noise is symmetric: where the fair coin that gives the sign falls on its other side
/// and all else stays, the noise changes its sign and nothing else.
pub proof fn law_noise_is_symmetric(
    tape: Seq<u8>,
    sign_byte: u8,
    zero_prob: Double,
    prob: Double,
    max_trials: i64,
    enforce_constant_time: bool,
)
    requires
        max_trials > i64::MIN,
        uniform::read_unit(tape, enforce_constant_time) matches Some((unit, length))
            && !unit.below(zero_prob) && length < tape.len() && sign_byte % 2 != tape[length as int]
            % 2,
    ensures
        ({
            let (_, length) = uniform::read_unit(tape, enforce_constant_time)->0;
            let other = tape.update(length as int, sign_byte);
            read_noise(other, zero_prob, prob, max_trials, enforce_constant_time)
                == match read_noise(tape, zero_prob, prob, max_trials, enforce_constant_time) {
                Some((Ok(noise), read)) => Some((Ok((-noise) as i64), read)),
                refused => refused,
            }
        }),
{
    let (_, length) = uniform::read_unit(tape, enforce_constant_time)->0;
    let other = tape.update(length as int, sign_byte);
    assert(other.take(length as int) =~= tape.take(length as int));
    lemma_unit_local(tape, other, enforce_constant_time);
    let rest = tape.skip(length as int).skip(1);
    assert(other.skip(length as int).skip(1) =~= rest);
    law_constant_time_makes_all_trials(
        rest,
        prob,
        trial_count(max_trials),
        enforce_constant_time,
    );
}

/// No noise is larger than the largest that the bounds of the statistic allow.
pub proof fn law_noise_is_bounded(
    tape: Seq<u8>,
    zero_prob: Double,
    prob: Double,
    max_trials: i64,
    enforce_constant_time: bool,
)
    requires
        max_trials >= 0,
    ensures
        read_noise(tape, zero_prob, prob, max_trials, enforce_constant_time) matches Some(
            (Ok(noise), _),
        ) ==> -max_trials <= noise <= max_trials,
{
    if let Some((_, length)) = uniform::read_unit(tape, enforce_constant_time) {
        law_constant_time_makes_all_trials(
            tape.skip(length as int).skip(1),
            prob,
            trial_count(max_trials),
            enforce_constant_time,
        );
    }
}

/// The trials of a draw follow each other on the tape: each is a flip of the coin that starts
/// where the one ahead of it ends, at the offsets `starts`. In constant time all trials are
/// made; else the first success is the last of them. Where the bytes end too early, they end
/// within a trial that was still to be made.
pub proof fn law_trials_follow_each_other(
    tape: Seq<u8>,
    prob: Double,
    trials: nat,
    enforce_constant_time: bool,
) -> (starts: Seq<int>)
    ensures
        starts.len() >= 1 && starts[0] == 0,
        forall|i: int| 0 <= i < starts.len() ==> 0 <= #[trigger] starts[i] <= tape.len(),
        match read_trials(tape, prob, trials, enforce_constant_time) {
            Some((bits, length)) => {
                &&& starts.len() == bits.len() + 1
                &&& starts.last() == length
                &&& bits.len() <= trials
                &&& bits.len() < trials ==> !enforce_constant_time && bits.len() > 0 && bits.last()
                &&& forall|i: int|
                    #![trigger starts[i]]
                    0 <= i < starts.len() - 1 ==> {
                        let flip = coin::read_coin(
                            tape.skip(starts[i]),
                            prob,
                            enforce_constant_time,
                        );
                        &&& flip is Some
                        &&& (flip->0).0 == bits[i]
                        &&& (flip->0).1 > 0
                    }
                &&& forall|i: int, j: int|
                    0 <= i && j == i + 1 && j < starts.len() ==> #[trigger] starts[j] == #[trigger] starts[i]
                        + (coin::read_coin(tape.skip(starts[i]), prob, enforce_constant_time)->0).1
                &&& !enforce_constant_time ==> forall|i: int|
                    0 <= i < bits.len() - 1 ==> !#[trigger] bits[i]
            },
            None => {
                &&& starts.len() <= trials
                &&& coin::read_coin(tape.skip(starts.last()), prob, enforce_constant_time) is None
                &&& forall|i: int|
                    #![trigger starts[i]]
                    0 <= i < starts.len() - 1 ==> {
                        let flip = coin::read_coin(
                            tape.skip(starts[i]),
                            prob,
                            enforce_constant_time,
                        );
                        &&& flip is Some
                        &&& (flip->0).1 > 0
                        &&& enforce_constant_time || !(flip->0).0
                    }
                &&& forall|i: int, j: int|
                    0 <= i && j == i + 1 && j < starts.len() ==> #[trigger] starts[j] == #[trigger] starts[i]
                        + (coin::read_coin(tape.skip(starts[i]), prob, enforce_constant_time)->0).1
            },
        },
    decreases trials,
{
    let none = seq![0int];
    assert(tape.skip(0) =~= tape);
    if trials == 0 {
        none
    } else {
        match coin::read_coin(tape, prob, enforce_constant_time) {
            None => none,
            Some((bit, length)) => {
                coin::lemma_heads_local(tape, tape, enforce_constant_time);
                if bit && !enforce_constant_time {
                    seq![0int, length as int]
                } else {
                    let rest = tape.skip(length as int);
                    let left = (trials - 1) as nat;
                    let later = law_trials_follow_each_other(
                        rest,
                        prob,
                        left,
                        enforce_constant_time,
                    );
                    let starts = none + later.map_values(|start: int| start + length);
                    assert forall|i: int| 0 < i < starts.len() implies #[trigger] starts[i]
                        == later[i - 1] + length && tape.skip(starts[i]) == rest.skip(
                        later[i - 1],
                    ) by {
                        assert(0 <= later[i - 1] <= rest.len());
                        assert(tape.skip(starts[i]) =~= rest.skip(later[i - 1]));
                    }
                    assert(starts.last() == later.last() + length);
                    assert forall|i: int, j: int|
                        0 <= i && j == i + 1 && j < starts.len() implies #[trigger] starts[j]
                        == #[trigger] starts[i] + (coin::read_coin(
                        tape.skip(starts[i]),
                        prob,
                        enforce_constant_time,
                    )->0).1 by {
                        if i > 0 {
                            assert(later[j - 1] == later[i - 1] + (coin::read_coin(
                                rest.skip(later[i - 1]),
                                prob,
                                enforce_constant_time,
                            )->0).1);
                        } else {
                            assert(starts[1] == later[0] + length);
                        }
                    }
                    match read_trials(rest, prob, left, enforce_constant_time) {
                        Some((bits, _)) => {
                            let all = seq![bit] + bits;
                            if bits.len() > 0 {
                                assert(all.last() == bits.last());
                            }
                            assert forall|i: int| 0 <= i < all.len() - 1 implies (
                            enforce_constant_time || !#[trigger] all[i]) by {
                                if i > 0 {
                                    assert(all[i] == bits[i - 1]);
                                }
                            }
                            assert forall|i: int| #![trigger starts[i]] 0 <= i
                                < starts.len() - 1 implies {
                                let flip = coin::read_coin(
                                    tape.skip(starts[i]),
                                    prob,
                                    enforce_constant_time,
                                );
                                flip is Some && (flip->0).0 == all[i] && (flip->0).1 > 0
                            } by {
                                if i > 0 {
                                    assert(0 <= later[i - 1]);
                                    assert(all[i] == bits[i - 1]);
                                }
                            }
                        },
                        None => {
                            assert(tape.skip(starts.last()) == rest.skip(later.last())) by {
                                assert(starts[starts.len() - 1] == starts.last());
                            }
                            assert forall|i: int| #![trigger starts[i]] 0 <= i
                                < starts.len() - 1 implies {
                                let flip = coin::read_coin(
                                    tape.skip(starts[i]),
                                    prob,
                                    enforce_constant_time,
                                );
                                flip is Some && (flip->0).1 > 0 && (enforce_constant_time
                                    || !(flip->0).0)
                            } by {
                                if i > 0 {
                                    assert(0 <= later[i - 1]);
                                }
                            }
                        },
                    }
                    starts
                }
            },
        }
    }
}

/// The result of a draw is the number of the first trial that succeeds, whatever comes behind
/// it, or `max_trials` where none does. Without constant time that trial is the last one.
pub proof fn law_draws_count_to_the_first_success(
    tape: Seq<u8>,
    prob: Double,
    max_trials: i64,
    enforce_constant_time: bool,
) -> (starts: Seq<int>)
    ensures
        max_trials <= 0 ==> read_geometric(tape, prob, max_trials, enforce_constant_time) == Some(
            (max_trials, 0nat),
        ),
        starts.len() >= 1 && starts[0] == 0,
        max_trials > 0 ==> match read_geometric(tape, prob, max_trials, enforce_constant_time) {
            Some((number, length)) => {
                &&& 1 <= number <= max_trials
                &&& starts.len() == 1 + if enforce_constant_time {
                    max_trials
                } else {
                    number
                }
                &&& starts.last() == length <= tape.len()
                &&& forall|i: int|
                    #![trigger starts[i]]
                    0 <= i < starts.len() - 1 ==> {
                        let flip = coin::read_coin(
                            tape.skip(starts[i]),
                            prob,
                            enforce_constant_time,
                        );
                        &&& flip is Some
                        &&& i < number - 1 ==> !(flip->0).0
                        &&& i == number - 1 && number < max_trials ==> (flip->0).0
                    }
                &&& forall|i: int, j: int|
                    0 <= i && j == i + 1 && j < starts.len() ==> #[trigger] starts[j] == #[trigger] starts[i]
                        + (coin::read_coin(tape.skip(starts[i]), prob, enforce_constant_time)->0).1
            },
            None => {
                &&& starts.len() <= max_trials
                &&& coin::read_coin(tape.skip(starts.last()), prob, enforce_constant_time) is None
                &&& forall|i: int|
                    #![trigger starts[i]]
                    0 <= i < starts.len() - 1 ==> {
                        let flip = coin::read_coin(
                            tape.skip(starts[i]),
                            prob,
                            enforce_constant_time,
                        );
                        &&& flip is Some
                        &&& enforce_constant_time || !(flip->0).0
                    }
                &&& forall|i: int, j: int|
                    0 <= i && j == i + 1 && j < starts.len() ==> #[trigger] starts[j] == #[trigger] starts[i]
                        + (coin::read_coin(tape.skip(starts[i]), prob, enforce_constant_time)->0).1
            },
        },
{
    let trials = trial_count(max_trials);
    let starts = law_trials_follow_each_other(tape, prob, trials, enforce_constant_time);
    if let Some((bits, _)) = read_trials(tape, prob, trials, enforce_constant_time) {
        lemma_failures_bound(bits);
        lemma_no_success_before(bits);
        let first = failures(bits) as int;
        if first < bits.len() {
            law_first_success_decides(bits, max_trials);
            assert(bits[first]);
            assert(!enforce_constant_time ==> first == bits.len() - 1);
        } else {
            assert(bits.len() > 0 ==> !bits[bits.len() - 1]);
            assert(bits.len() == trials);
        }
    }
    starts
}

proof fn lemma_failures_bound(bits: Seq<bool>)
    ensures
        failures(bits) <= bits.len(),
    decreases bits.len(),
{
    if bits.len() > 0 && !bits[0] {
        lemma_failures_bound(bits.skip(1));
    }
}

/// Among the trials of a draw the result points at the first that succeeded: it is set, and none
/// ahead of it is. Where none is set the result is `max_trials`.
pub proof fn law_result_points_at_the_first_success(
    tape: Seq<u8>,
    prob: Double,
    max_trials: i64,
    enforce_constant_time: bool,
)
    requires
        max_trials > 0,
    ensures
        match (
            read_geometric(tape, prob, max_trials, enforce_constant_time),
            read_trials(tape, prob, max_trials as nat, enforce_constant_time),
        ) {
            (Some((number, length)), Some((bits, same_length))) => {
                &&& length == same_length
                &&& bits.contains(true) ==> {
                    &&& 1 <= number <= bits.len()
                    &&& bits[number - 1]
                    &&& forall|i: int| 0 <= i < number - 1 ==> !#[trigger] bits[i]
                }
                &&& !bits.contains(true) ==> number == max_trials
            },
            (None, None) => true,
            _ => false,
        },
{
    law_constant_time_makes_all_trials(tape, prob, max_trials as nat, enforce_constant_time);
    if let Some((bits, _)) = read_trials(tape, prob, max_trials as nat, enforce_constant_time) {
        lemma_failures_bound(bits);
        lemma_no_success_before(bits);
        if failures(bits) < bits.len() {
            law_first_success_decides(bits, max_trials);
            assert(bits.contains(bits[failures(bits) as int]));
        } else if bits.contains(true) {
            let i = choose|i: int| 0 <= i < bits.len() && bits[i] == true;
            assert(!bits[i]);
        }
    }
}

/// A geometric draw is refused, and nothing drawn, where its parameter is a number below zero or
/// above one, and only there. Else it is read off the bytes drawn for it, which are asked for
/// 128 at a time for every trial there can be in constant time, and one at a time else.
pub proof fn law_geometric_draws_are_read_off_the_bytes(
    source: &mut ByteSource,
    prob: Double,
    max_trials: i64,
    enforce_constant_time: bool,
    number: Result<i64, Error>,
)
    requires
        old(source).wf(),
        call_ensures(
            ByteSource::sample_geometric_censored,
            (source, prob, max_trials, enforce_constant_time),
            number,
        ),
    ensures
        ({
            let (before, after) = (*old(source), *final(source));
            let bytes = after.drawn().skip(before.drawn().len() as int);
            let requests = after.requests().skip(before.requests().len() as int);
            let refused = !prob.is_nan() && (prob.value() < 0 || prob.value() > pow2(1074));
            &&& refused ==> number == Err::<i64, Error>(Error::ProbabilityOutOfRange) && after
                == before
            &&& !refused ==> after.script() == before.script() && after.drawn() == before.drawn()
                + bytes
            &&& number matches Ok(number) ==> {
                &&& read_geometric(bytes, prob, max_trials, enforce_constant_time) == Some(
                    (number, bytes.len()),
                )
                &&& max_trials > 0 ==> 1 <= number <= max_trials
                &&& max_trials <= 0 ==> number == max_trials
                &&& requests.len() == if !enforce_constant_time {
                    bytes.len() as int
                } else if max_trials > 0 {
                    max_trials as int
                } else {
                    0
                }
                &&& forall|j: int|
                    0 <= j < requests.len() ==> #[trigger] requests[j] == if enforce_constant_time {
                        128int
                    } else {
                        1
                    }
            }
            &&& number matches Err(error) ==> !refused ==> {
                &&& error == Error::Entropy
                &&& before.script() matches Some(script) ==> read_geometric(
                    script.skip(before.drawn().len() as int),
                    prob,
                    max_trials,
                    enforce_constant_time,
                ) is None
            }
        }),
{
}

/// The geometric draws of the system's generator are read off some bytes, as those of any
/// source are, and refused for the same parameters.
pub proof fn law_system_geometric_draws_are_read_off_bytes(
    prob: Double,
    max_trials: i64,
    enforce_constant_time: bool,
    number: Result<i64, Error>,
)
    requires
        call_ensures(
            sample_geometric_censored,
            (prob, max_trials, enforce_constant_time),
            number,
        ),
    ensures
        ({
            let refused = !prob.is_nan() && (prob.value() < 0 || prob.value() > pow2(1074));
            match number {
                Ok(number) => !refused && exists|bytes: Seq<u8>| #[trigger]
                    read_geometric(bytes, prob, max_trials, enforce_constant_time) == Some(
                        (number, bytes.len()),
                    ),
                Err(error) => error == if refused {
                    Error::ProbabilityOutOfRange
                } else {
                    Error::Entropy
                },
            }
        }),
        exists|source: &mut ByteSource| #[trigger]
            call_ensures(ByteSource::sample_geometric_censored, (source, prob, max_trials, enforce_constant_time), number) && source.wf() && source.script() is None,
{
}

/// There is no noise where the draw from the unit interval is below `zero_prob`. Else the noise
/// is a geometric draw, read behind a byte that gives its sign: the draw itself where the byte is
/// odd, and its negative where it is even. A parameter that is a number below zero or above one
/// is refused behind the sign.
pub proof fn law_noise_is_a_signed_geometric_draw(
    tape: Seq<u8>,
    zero_prob: Double,
    prob: Double,
    max_trials: i64,
    enforce_constant_time: bool,
)
    requires
        max_trials > i64::MIN,
    ensures
        ({
            let noise = read_noise(tape, zero_prob, prob, max_trials, enforce_constant_time);
            let refused = !prob.is_nan() && (prob.value() < 0 || prob.value() > pow2(1074));
            match uniform::read_unit(tape, enforce_constant_time) {
                None => noise is None,
                Some((unit, used)) => if !unit.is_nan() && !zero_prob.is_nan() && unit.value()
                    < zero_prob.value() {
                    noise == Some((Ok::<i64, Error>(0), used))
                } else if tape.len() <= used {
                    noise is None
                } else if refused {
                    noise == Some((Err::<i64, Error>(Error::ProbabilityOutOfRange), used + 1))
                } else {
                    match read_geometric(
                        tape.skip(used as int + 1),
                        prob,
                        max_trials,
                        enforce_constant_time,
                    ) {
                        None => noise is None,
                        Some((size, rest)) => noise matches Some((Ok(noise), length)) && {
                            &&& length == used + 1 + rest
                            &&& tape[used as int] % 2 == 1 ==> noise == size
                            &&& tape[used as int] % 2 == 0 ==> noise == -size
                        },
                    }
                },
            }
        }),
{
    if let Some((_, used)) = uniform::read_unit(tape, enforce_constant_time) {
        lemma_unit_fits(tape, enforce_constant_time);
        let behind = tape.skip(used as int);
        if tape.len() > used {
            assert(behind.skip(1) =~= tape.skip(used as int + 1));
            assert(behind[0] == tape[used as int]);
            law_constant_time_makes_all_trials(
                tape.skip(used as int + 1),
                prob,
                trial_count(max_trials),
                enforce_constant_time,
            );
        }
    }
}

/// What is read of a double of the unit interval is there.
proof fn lemma_unit_fits(tape: Seq<u8>, enforce_constant_time: bool)
    ensures
        uniform::read_unit(tape, enforce_constant_time) matches Some((_, length)) ==> length
            <= tape.len(),
{
    if uniform::read_unit(tape, enforce_constant_time) is Some {
        coin::lemma_heads_local(tape.skip(7), tape.skip(7), enforce_constant_time);
    }
}

/// The noise of a statistic that can vary is zero only where the draw from the unit interval is
/// below `zero_prob`; else it is at least one, one way or the other, and never more than the
/// bounds of the statistic are apart.
pub proof fn law_noise_is_zero_only_by_the_unit_draw(
    tape: Seq<u8>,
    zero_prob: Double,
    prob: Double,
    max_trials: i64,
    enforce_constant_time: bool,
)
    requires
        max_trials > 0,
    ensures
        read_noise(tape, zero_prob, prob, max_trials, enforce_constant_time) matches Some(
            (Ok(noise), _),
        ) ==> {
            let (unit, _) = uniform::read_unit(tape, enforce_constant_time)->0;
            &&& uniform::read_unit(tape, enforce_constant_time) is Some
            &&& noise == 0 <==> !zero_prob.is_nan() && unit.value() < zero_prob.value()
            &&& -max_trials <= noise <= max_trials
        },
{
    law_noise_is_a_signed_geometric_draw(
        tape,
        zero_prob,
        prob,
        max_trials,
        enforce_constant_time,
    );
    uniform::law_unit_is_below_one(tape, enforce_constant_time);
    if let Some((_, used)) = uniform::read_unit(tape, enforce_constant_time) {
        law_draws_count_to_the_first_success(
            tape.skip(used as int + 1),
            prob,
            max_trials,
            enforce_constant_time,
        );
    }
}

/// The noise of the mechanism is read off the bytes drawn for it, with as many trials at most
/// as the bounds of the statistic are apart. It is zero, for a statistic that can vary, exactly
/// where the draw from the unit interval is below `zero_prob`. In constant time the requests tell
/// nothing of the noise but whether there is any.
pub proof fn law_noise_is_read_off_the_bytes(
    source: &mut ByteSource,
    zero_prob: Double,
    prob: Double,
    min: i64,
    max: i64,
    enforce_constant_time: bool,
    noise: Result<i64, Error>,
)
    requires
        old(source).wf(),
        i64::MIN < max - min <= i64::MAX,
        call_ensures(
            ByteSource::sample_simple_geometric_mechanism,
            (source, zero_prob, prob, min, max, enforce_constant_time),
            noise,
        ),
    ensures
        ({
            let (before, after) = (*old(source), *final(source));
            let bytes = after.drawn().skip(before.drawn().len() as int);
            let requests = after.requests().skip(before.requests().len() as int);
            let trials = (max - min) as i64;
            let refused = !prob.is_nan() && (prob.value() < 0 || prob.value() > pow2(1074));
            &&& after.script() == before.script()
            &&& after.drawn() == before.drawn() + bytes
            &&& noise matches Ok(noise) ==> {
                let (unit, used) = uniform::read_unit(bytes, enforce_constant_time)->0;
                &&& read_noise(bytes, zero_prob, prob, trials, enforce_constant_time) == Some(
                    (Ok::<i64, Error>(noise), bytes.len()),
                )
                &&& min < max ==> (noise == 0 <==> !zero_prob.is_nan() && unit.value()
                    < zero_prob.value())
                &&& requests.len() >= 2 && requests[0] == 7
                &&& enforce_constant_time ==> {
                    &&& requests[1] == 128
                    &&& requests.len() == 2 || requests.len() == 3 + if trials > 0 {
                        trials as int
                    } else {
                        0
                    }
                    &&& requests.len() > 2 ==> requests[2] == 1
                    &&& forall|j: int| 3 <= j < requests.len() ==> #[trigger] requests[j] == 128
                }
                &&& !enforce_constant_time ==> requests.len() == bytes.len() - 6 && forall|j: int|
                    1 <= j < requests.len() ==> #[trigger] requests[j] == 1
            }
            &&& noise matches Err(error) ==> if error == Error::ProbabilityOutOfRange {
                &&& refused
                &&& read_noise(bytes, zero_prob, prob, trials, enforce_constant_time) == Some(
                    (Err::<i64, Error>(error), bytes.len()),
                )
            } else {
                &&& error == Error::Entropy
                &&& before.script() matches Some(script) ==> read_noise(
                    script.skip(before.drawn().len() as int),
                    zero_prob,
                    prob,
                    trials,
                    enforce_constant_time,
                ) is None
            }
        }),
{
    let (before, after) = (*old(source), *final(source));
    let bytes = before.taken(after);
    let trials = (max - min) as i64;
    if noise is Ok {
        if min < max {
            law_noise_is_zero_only_by_the_unit_draw(
                bytes,
                zero_prob,
                prob,
                trials,
                enforce_constant_time,
            );
        }
        law_noise_is_a_signed_geometric_draw(
            bytes,
            zero_prob,
            prob,
            trials,
            enforce_constant_time,
        );
        uniform::law_units_hold_their_bytes(bytes, enforce_constant_time);
        coin::law_index_is_the_first_set_bit(bytes.skip(7), enforce_constant_time);
    }
}

/// The noise of the system's generator is read off some bytes, as that of any source is.
pub proof fn law_system_noise_is_read_off_bytes(
    zero_prob: Double,
    prob: Double,
    min: i64,
    max: i64,
    enforce_constant_time: bool,
    noise: Result<i64, Error>,
)
    requires
        i64::MIN < max - min <= i64::MAX,
        call_ensures(
            sample_simple_geometric_mechanism,
            (zero_prob, prob, min, max, enforce_constant_time),
            noise,
        ),
    ensures
        noise != Err::<i64, Error>(Error::Entropy) ==> exists|bytes: Seq<u8>| #[trigger]
            read_noise(bytes, zero_prob, prob, (max - min) as i64, enforce_constant_time) == Some(
                (noise, bytes.len()),
            ),
        noise matches Err(error) ==> error == Error::Entropy || error
            == Error::ProbabilityOutOfRange && !prob.is_nan() && (prob.value() < 0 || prob.value()
            > pow2(1074)),
        exists|source: &mut ByteSource| #[trigger]
            call_ensures(ByteSource::sample_simple_geometric_mechanism, (source, zero_prob, prob, min, max, enforce_constant_time), noise) && source.wf() && source.script() is None,
{
}

} // verus!
