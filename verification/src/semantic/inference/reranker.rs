//! Reranking of a small candidate window: requests are bounded before any model sees them,
//! and scores come back in the caller's order.

use crate::semantic::pins;
use crate::semantic::pins::RerankBounds;
use crate::text;
use crate::text::Failure;
use vstd::prelude::*;
use vstd::string::StringExecFns;

verus! {

/// Whether result `j` names a document that is not there, or one that was named before.
pub open spec fn misplaced<T>(results: Seq<(usize, T)>, count: int, j: int) -> bool {
    results[j].0 >= count || exists|k: int| 0 <= k < j && (#[trigger] results[k]).0 == results[j].0
}

/// Whether some result names a document.
pub open spec fn named<T>(results: Seq<(usize, T)>, index: int) -> bool {
    exists|k: int| 0 <= k < results.len() && (#[trigger] results[k]).0 == index
}

/// What the failure of a misplaced result says.
pub open spec fn misplaced_text<T>(results: Seq<(usize, T)>, count: int, j: int) -> Seq<char> {
    let index = text::decimal(results[j].0 as nat);
    if results[j].0 >= count {
        "rerank_unavailable: result index "@ + index + " out of range"@
    } else {
        "rerank_unavailable: duplicate result index "@ + index
    }
}

/// Whether `outcome` holds the scores of `count` documents in the caller's order: each
/// document is scored once, or the first thing that is wrong is named.
pub open spec fn in_caller_order<T>(
    results: Seq<(usize, T)>,
    count: int,
    outcome: Result<Vec<T>, Failure>,
) -> bool {
    match outcome {
        Ok(scores) => {
            &&& scores.len() == count
            &&& forall|j: int| 0 <= j < results.len() ==> !#[trigger] misplaced(results, count, j)
            &&& forall|j: int|
                0 <= j < results.len() ==> scores@[(#[trigger] results[j]).0 as int] == results[j].1
            &&& forall|i: int| 0 <= i < count ==> #[trigger] named(results, i)
        },
        Err(failure) => {
            ||| exists|j: int|
                {
                    &&& 0 <= j < results.len()
                    &&& #[trigger] misplaced(results, count, j)
                    &&& forall|k: int| 0 <= k < j ==> !#[trigger] misplaced(results, count, k)
                    &&& text::plain(failure, misplaced_text(results, count, j))
                }
            ||| {
                &&& forall|j: int|
                    0 <= j < results.len() ==> !#[trigger] misplaced(results, count, j)
                &&& exists|i: int|
                    {
                        &&& 0 <= i < count
                        &&& !#[trigger] named(results, i)
                        &&& forall|k: int| 0 <= k < i ==> #[trigger] named(results, k)
                        &&& text::plain(
                            failure,
                            "rerank_unavailable: missing result index "@ + text::decimal(i as nat),
                        )
                    }
            }
        },
    }
}

/// Puts scored results back into the caller's order. A missing or repeated document fails
/// the whole; a score that is no number passes through unchanged.
pub fn scores_in_caller_order<T: Copy>(results: Vec<(usize, T)>, count: usize) -> (outcome: Result<
    Vec<T>,
    Failure,
>)
    ensures
        in_caller_order(results@, count as int, outcome),
{
    let mut slots: Vec<Option<T>> = Vec::new();
    let mut filled: usize = 0;
    while filled < count
        invariant
            filled <= count,
            slots.len() == filled,
            forall|i: int| 0 <= i < filled ==> #[trigger] slots@[i] is None,
        decreases count - filled,
    {
        slots.push(None);
        filled += 1;
    }
    let mut j: usize = 0;
    while j < results.len()
        invariant
            j <= results.len(),
            slots.len() == count,
            forall|k: int| 0 <= k < j ==> !#[trigger] misplaced(results@, count as int, k),
            forall|k: int|
                0 <= k < j ==> (#[trigger] results@[k]).0 < count && slots@[results@[k].0 as int]
                    == Some(results@[k].1),
            forall|i: int|
                0 <= i < count && (#[trigger] slots@[i]) is Some ==> exists|k: int|
                    0 <= k < j && (#[trigger] results@[k]).0 == i,
        decreases results.len() - j,
    {
        let (index, score) = results[j];
        if index >= count {
            assert(misplaced(results@, count as int, j as int));
            let mut message = "rerank_unavailable: result index ".to_owned();
            message.append(text::decimal_text(index as u64).as_str());
            message.append(" out of range");
            return Err(Failure::of(message));
        }
        if slots[index].is_some() {
            assert(misplaced(results@, count as int, j as int));
            let mut message = "rerank_unavailable: duplicate result index ".to_owned();
            message.append(text::decimal_text(index as u64).as_str());
            return Err(Failure::of(message));
        }
        let ghost before = slots@;
        slots.set(index, Some(score));
        proof {
            assert(!misplaced(results@, count as int, j as int)) by {
                if exists|k: int| 0 <= k < j && (#[trigger] results@[k]).0 == results@[j as int].0 {
                    let k = choose|k: int|
                        0 <= k < j && (#[trigger] results@[k]).0 == results@[j as int].0;
                    assert(before[results@[k].0 as int] is Some);
                }
            }
            assert forall|k: int| 0 <= k < j implies (#[trigger] results@[k]).0 < count
                && slots@[results@[k].0 as int] == Some(results@[k].1) by {
                assert(before[results@[k].0 as int] == Some(results@[k].1));
            }
            assert forall|i: int| 0 <= i < count && (#[trigger] slots@[i]) is Some implies exists|
                k: int,
            | 0 <= k < j + 1 && (#[trigger] results@[k]).0 == i by {
                if i == index {
                    assert(results@[j as int].0 == i);
                } else {
                    assert(before[i] is Some);
                }
            }
        }
        j += 1;
    }
    let mut scores: Vec<T> = Vec::new();
    let mut i: usize = 0;
    while i < count
        invariant
            i <= count,
            slots.len() == count,
            scores.len() == i,
            forall|k: int|
                0 <= k < results.len() ==> !#[trigger] misplaced(results@, count as int, k),
            forall|k: int|
                0 <= k < results.len() ==> (#[trigger] results@[k]).0 < count
                    && slots@[results@[k].0 as int] == Some(results@[k].1),
            forall|i: int|
                0 <= i < count && (#[trigger] slots@[i]) is Some ==> exists|k: int|
                    0 <= k < results.len() && (#[trigger] results@[k]).0 == i,
            forall|k: int| 0 <= k < i ==> #[trigger] named(results@, k),
            forall|k: int| 0 <= k < i ==> slots@[k] == Some(#[trigger] scores@[k]),
        decreases count - i,
    {
        match slots[i] {
            Some(score) => {
                assert(named(results@, i as int));
                scores.push(score);
            },
            None => {
                assert(!named(results@, i as int));
                let mut message = "rerank_unavailable: missing result index ".to_owned();
                message.append(text::decimal_text(i as u64).as_str());
                return Err(Failure::of(message));
            },
        }
        i += 1;
    }
    proof {
        assert forall|j: int| 0 <= j < results@.len() implies scores@[(
        #[trigger] results@[j]).0 as int] == results@[j].1 by {
            let slot = results@[j].0 as int;
            assert(slots@[slot] == Some(scores@[slot]));
        }
    }
    Ok(scores)
}

/// Scores documents against a query, one score for each in the caller's order. `rerank` runs
/// the model; it is not run for a request out of bounds or without documents.
pub fn score<T: Copy, F: FnOnce() -> Result<Vec<(usize, T)>, Failure>>(
    bounds: &RerankBounds,
    query: &str,
    documents: &[String],
    rerank: F,
) -> (result: Result<Vec<T>, Failure>)
    requires
        documents.len() > 0 && pins::rerank_bounds_hold(
            *bounds,
            query@,
            documents@,
            Ok(()),
        ) ==> call_requires(rerank, ()),
    ensures
        exists|checked: Result<(), Failure>|
            {
                &&& #[trigger] pins::rerank_bounds_hold(*bounds, query@, documents@, checked)
                &&& match checked {
                    Err(failure) => result == Err::<Vec<T>, Failure>(failure),
                    Ok(_) => if documents.len() == 0 {
                        result is Ok && result->Ok_0@.len() == 0
                    } else {
                        exists|run: Result<Vec<(usize, T)>, Failure>|
                            {
                                &&& #[trigger] call_ensures(rerank, (), run)
                                &&& match run {
                                    Err(failure) => result == Err::<Vec<T>, Failure>(failure),
                                    Ok(results) => in_caller_order(
                                        results@,
                                        documents.len() as int,
                                        result,
                                    ),
                                }
                            }
                    },
                }
            },
{
    let checked = pins::check_rerank_bounds(bounds, query, documents);
    let ghost verdict = checked;
    assert(pins::rerank_bounds_hold(*bounds, query@, documents@, verdict));
    match checked {
        Err(failure) => Err(failure),
        Ok(_) => {
            if documents.len() == 0 {
                return Ok(Vec::new());
            }
            match rerank() {
                Err(failure) => Err(failure),
                Ok(results) => scores_in_caller_order(results, documents.len()),
            }
        },
    }
}

} // verus!
