//! Safety checks over numeric report sequences: a report is safe when its
//! levels run strictly in one direction with adjacent gaps of one to three,
//! and dampened safety tolerates the removal of a single level.

use vstd::prelude::*;

verus! {

/// Whether a level sequence is safe: at least two levels, running either
/// strictly up or strictly down, never jumping by more than three.
pub open spec fn stepwise_safe(s: Seq<u32>) -> bool {
    s.len() >= 2 && ((forall|i: int|
        0 <= i < s.len() - 1 ==> #[trigger] s[i] < s[i + 1] && s[i + 1] - s[i] <= 3) || (forall|
        i: int,
    |
        0 <= i < s.len() - 1 ==> #[trigger] s[i] > s[i + 1] && s[i] - s[i + 1] <= 3))
}

/// Whether the report is safe once the level at `skip_index` is ignored;
/// an index beyond the report ignores nothing.
pub open spec fn safe_without(s: Seq<u32>, skip_index: Option<usize>) -> bool {
    match skip_index {
        Some(i) => if i < s.len() {
            stepwise_safe(s.remove(i as int))
        } else {
            stepwise_safe(s)
        },
        None => stepwise_safe(s),
    }
}

/// Whether the report runs strictly in one direction with gaps of one to
/// three, ignoring the level at `skip_index` if one is given.
pub fn is_monotonic(numbers: &[u32], skip_index: Option<usize>) -> (r: bool)
    ensures
        r == safe_without(numbers@, skip_index),
{
    let mut eff: Vec<u32> = Vec::new();
    let skip = match skip_index {
        Some(i) => i,
        None => usize::MAX,
    };
    let ghost target: Seq<u32> = (if skip < numbers@.len() {
        numbers@.remove(skip as int)
    } else {
        numbers@
    });
    let mut j: usize = 0;
    while j < numbers.len()
        invariant
            0 <= j <= numbers@.len(),
            skip < numbers@.len() ==> eff@ =~= (if j <= skip {
                numbers@.subrange(0, j as int)
            } else {
                numbers@.subrange(0, skip as int) + numbers@.subrange(skip as int + 1, j as int)
            }),
            skip >= numbers@.len() ==> eff@ =~= numbers@.subrange(0, j as int),
        decreases numbers@.len() - j,
    {
        if j != skip {
            eff.push(numbers[j]);
        }
        j = j + 1;
    }
    proof {
        if skip < numbers@.len() {
            assert(numbers@.remove(skip as int) =~= numbers@.subrange(0, skip as int)
                + numbers@.subrange(skip as int + 1, numbers@.len() as int));
            assert(eff@ =~= target);
        } else {
            assert(numbers@.subrange(0, numbers@.len() as int) =~= numbers@);
            assert(eff@ =~= target);
        }
        if skip_index matches Some(i) && !(i < numbers@.len()) {
            assert(target == numbers@);
        }
    }
    if eff.len() < 2 {
        return false;
    }
    let increasing = eff[0] < eff[1];
    let mut k: usize = 0;
    while k + 1 < eff.len()
        invariant
            eff@ =~= target,
            safe_without(numbers@, skip_index) == stepwise_safe(target),
            eff@.len() >= 2,
            increasing == (eff@[0] < eff@[1]),
            0 <= k <= eff@.len() - 1,
            forall|i: int|
                0 <= i < k ==> (if increasing {
                    #[trigger] eff@[i] < eff@[i + 1] && eff@[i + 1] - eff@[i] <= 3
                } else {
                    eff@[i] > eff@[i + 1] && eff@[i] - eff@[i + 1] <= 3
                }),
        decreases eff@.len() - k,
    {
        let a = eff[k];
        let b = eff[k + 1];
        if increasing {
            if !(a < b && b - a <= 3) {
                proof {
                    assert(!stepwise_safe(target)) by {
                        assert(!(target[k as int] < target[k as int + 1] && target[k as int + 1]
                            - target[k as int] <= 3));
                        assert(!(target[0] > target[1]));
                    };
                }
                return false;
            }
        } else {
            if !(a > b && a - b <= 3) {
                proof {
                    assert(!stepwise_safe(target)) by {
                        assert(!(target[k as int] > target[k as int + 1] && target[k as int]
                            - target[k as int + 1] <= 3));
                        assert(!(target[0] < target[1]));
                    };
                }
                return false;
            }
        }
        k = k + 1;
    }
    proof {
        assert(stepwise_safe(target));
    }
    true
}

/// Whether the report is safe as it stands, or becomes safe after removing
/// one single level.
pub fn is_monotonic_safe(numbers: &[u32]) -> (r: bool)
    ensures
        r == (stepwise_safe(numbers@) || exists|i: int|
            0 <= i < numbers@.len() && stepwise_safe(#[trigger] numbers@.remove(i))),
{
    if is_monotonic(numbers, None) {
        return true;
    }
    let mut i: usize = 0;
    while i < numbers.len()
        invariant
            0 <= i <= numbers@.len(),
            forall|j: int| 0 <= j < i ==> !stepwise_safe(#[trigger] numbers@.remove(j)),
        decreases numbers@.len() - i,
    {
        if is_monotonic(numbers, Some(i)) {
            return true;
        }
        i = i + 1;
    }
    false
}

} // verus!
