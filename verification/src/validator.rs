//! The answer validator: checks the literals an answer consumed against
//! the dealt hand (each dealt value used exactly once) and decides the
//! outcome of the turn.

use vstd::prelude::*;
use vstd::multiset::Multiset;
use vstd::string::StringSliceAdditionalSpecFns;
use crate::answer_analizer::{analize, spec_analyze};
use crate::core_cards::TurnResult;

verus! {

broadcast use vstd::seq_lib::group_to_multiset_ensures, vstd::multiset::group_multiset_axioms;

/// Why card-usage validation failed.
#[derive(Clone, Copy, PartialEq, Eq, Structural, Debug)]
pub enum UsageError {
    /// A literal had no matching value left in the hand.
    ValueNotInHand,
    /// The answer left dealt values unused.
    LeftoverCards,
}

/// The hand's values, as a multiset of integers.
pub open spec fn hand_values_ms(hand: Seq<u8>) -> Multiset<i64> {
    hand.map_values(|v: u8| v as i64).to_multiset()
}

/// Consume the literals in appearance order from the available values:
/// each literal removes one matching value, or consumption fails.
pub open spec fn spec_consume(avail: Multiset<i64>, lits: Seq<i64>) -> Option<Multiset<i64>>
    decreases lits.len(),
{
    if lits.len() == 0 {
        Some(avail)
    } else if avail.count(lits.first()) > 0 {
        spec_consume(avail.remove(lits.first()), lits.drop_first())
    } else {
        None
    }
}

/// The verdict of usage validation: success exactly when the literals
/// consume the whole hand; a literal without a matching value fails at
/// once, and values left over fail at the end.
pub open spec fn spec_usage(hand: Seq<u8>, lits: Seq<i64>) -> Result<(), UsageError> {
    match spec_consume(hand_values_ms(hand), lits) {
        None => Err(UsageError::ValueNotInHand),
        Some(m) => if m.len() == 0 {
            Ok(())
        } else {
            Err(UsageError::LeftoverCards)
        },
    }
}

/// Consumption succeeds exactly for a sub-multiset of the available
/// values, and then leaves exactly the difference.
pub proof fn lemma_consume_subset(avail: Multiset<i64>, lits: Seq<i64>)
    ensures
        spec_consume(avail, lits) is Some <==> lits.to_multiset().subset_of(avail),
        spec_consume(avail, lits) matches Some(m) ==> m == avail.sub(lits.to_multiset()),
    decreases lits.len(),
{
    if lits.len() == 0 {
        assert(lits.to_multiset().len() == 0);
        assert(lits.to_multiset().subset_of(avail));
        assert(avail.sub(lits.to_multiset()) =~= avail);
    } else {
        let v = lits.first();
        assert(lits.remove(0) =~= lits.drop_first());
        assert(lits.drop_first().to_multiset() == lits.to_multiset().remove(v));
        assert(lits.to_multiset().count(v) > 0) by {
            assert(lits.contains(v));
        }
        if avail.count(v) > 0 {
            lemma_consume_subset(avail.remove(v), lits.drop_first());
            if lits.to_multiset().subset_of(avail) {
                assert forall|x: i64|
                    lits.drop_first().to_multiset().count(x) <= avail.remove(v).count(x) by {
                    assert(lits.to_multiset().count(x) <= avail.count(x));
                }
                assert(lits.drop_first().to_multiset().subset_of(avail.remove(v)));
            }
            if lits.drop_first().to_multiset().subset_of(avail.remove(v)) {
                assert forall|x: i64| lits.to_multiset().count(x) <= avail.count(x) by {
                    assert(lits.drop_first().to_multiset().count(x) <= avail.remove(v).count(x));
                }
                assert(lits.to_multiset().subset_of(avail));
            }
            if spec_consume(avail, lits) is Some {
                assert(avail.remove(v).sub(lits.drop_first().to_multiset()) =~= avail.sub(
                    lits.to_multiset(),
                ));
            }
        } else {
            assert(!lits.to_multiset().subset_of(avail));
        }
    }
}

/// Usage validation succeeds exactly when the multiset of consumed
/// literals equals the multiset of dealt hand values.
pub proof fn lemma_usage_multiset(hand: Seq<u8>, lits: Seq<i64>)
    ensures
        spec_usage(hand, lits) == Ok::<(), UsageError>(()) <==> lits.to_multiset()
            == hand_values_ms(hand),
{
    let avail = hand_values_ms(hand);
    lemma_consume_subset(avail, lits);
    if spec_usage(hand, lits) == Ok::<(), UsageError>(()) {
        let m = spec_consume(avail, lits)->Some_0;
        assert(m == avail.sub(lits.to_multiset()));
        assert forall|x: i64| lits.to_multiset().count(x) == avail.count(x) by {
            assert(avail.sub(lits.to_multiset()).count(x) == 0) by {
                assert(avail.sub(lits.to_multiset()).count(x) <= m.len());
            }
        }
        assert(lits.to_multiset() =~= avail);
    }
    if lits.to_multiset() == avail {
        assert(lits.to_multiset().subset_of(avail));
        let m = spec_consume(avail, lits)->Some_0;
        assert(m =~= Multiset::<i64>::empty());
    }
}

/// Check that the answer's literals use each dealt value exactly once:
/// walk the literals in order, each removing one matching value from a
/// copy of the hand, which must end empty.
pub fn check_usage(hand: &Vec<u8>, lits: &Vec<i64>) -> (r: Result<(), UsageError>)
    ensures
        r == spec_usage(hand@, lits@),
{
    let ghost avail = hand_values_ms(hand@);
    let mut remaining: Vec<i64> = Vec::new();
    let mut i: usize = 0;
    while i < hand.len()
        invariant
            i <= hand@.len(),
            remaining@ == hand@.take(i as int).map_values(|v: u8| v as i64),
        decreases hand@.len() - i,
    {
        remaining.push(hand[i] as i64);
        i = i + 1;
        proof {
            assert(remaining@ =~= hand@.take(i as int).map_values(|v: u8| v as i64));
        }
    }
    proof {
        assert(hand@.take(hand@.len() as int) =~= hand@);
        assert(lits@.skip(0) =~= lits@);
    }
    let mut k: usize = 0;
    while k < lits.len()
        invariant
            k <= lits@.len(),
            avail == hand_values_ms(hand@),
            spec_consume(avail, lits@) == spec_consume(
                remaining@.to_multiset(),
                lits@.skip(k as int),
            ),
        decreases lits@.len() - k,
    {
        let target = lits[k];
        let mut m: usize = 0;
        while m < remaining.len() && remaining[m] != target
            invariant
                m <= remaining@.len(),
                forall|p: int| 0 <= p < m ==> remaining@[p] != target,
            decreases remaining@.len() - m,
        {
            m = m + 1;
        }
        proof {
            assert(lits@.skip(k as int).first() == lits@[k as int]);
            assert(lits@.skip(k as int).drop_first() =~= lits@.skip(k as int + 1));
        }
        if m < remaining.len() {
            let ghost rb = remaining@;
            remaining.remove(m);
            proof {
                assert(rb.contains(target));
                assert(rb.to_multiset().count(target) > 0);
                assert(remaining@.to_multiset() == rb.to_multiset().remove(target));
            }
            k = k + 1;
        } else {
            proof {
                assert(!remaining@.contains(target));
                assert(remaining@.to_multiset().count(target) == 0);
            }
            return Err(UsageError::ValueNotInHand);
        }
    }
    proof {
        assert(lits@.skip(lits@.len() as int) =~= Seq::<i64>::empty());
        assert(remaining@.to_multiset().len() == remaining@.len());
    }
    if remaining.len() == 0 {
        Ok(())
    } else {
        Err(UsageError::LeftoverCards)
    }
}

/// The outcome of one submitted answer against the dealt hand values: the
/// player wins exactly when the answer parses, evaluates to 24 and its
/// literals consume the hand values exactly; every other case keeps the
/// turn open.
pub open spec fn spec_outcome(hand: Seq<u8>, input: Seq<u8>, user: usize) -> TurnResult {
    match spec_analyze(input) {
        Ok((v, lits)) => if v == 24 && lits.to_multiset() == hand_values_ms(hand) {
            TurnResult::Winner(user)
        } else {
            TurnResult::Gaming
        },
        Err(_) => TurnResult::Gaming,
    }
}

/// Decide one turn from the dealt hand values and the submitted answer.
pub fn answer_outcome(hand: &Vec<u8>, answer: &str, user: usize) -> (r: TurnResult)
    ensures
        r == spec_outcome(hand@, answer.spec_bytes(), user),
{
    match analize(answer) {
        Err(_) => TurnResult::Gaming,
        Ok((v, lits)) => {
            if v == 24 {
                let usage = check_usage(hand, &lits);
                proof {
                    lemma_usage_multiset(hand@, lits@);
                }
                match usage {
                    Ok(_) => TurnResult::Winner(user),
                    Err(_) => TurnResult::Gaming,
                }
            } else {
                TurnResult::Gaming
            }
        },
    }
}

} // verus!
