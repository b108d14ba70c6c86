pub mod set;
pub mod stats;

use vstd::prelude::*;

use crate::collections::key::HashKey;

verus! {

/// Returns the smallest value in the supplied slice (the first one, if
/// several are smallest), or `None` if the slice is empty.
///
/// # Examples
/// ```
/// use kwik::math;
///
/// let value = *math::min::<u64>(&[3, 4, 1, 2]).unwrap();
/// assert_eq!(value, 1);
/// ```
pub fn min<T: HashKey>(values: &[T]) -> (r: Option<&T>)
    ensures
        values@.len() == 0 <==> r is None,
        r matches Some(v) ==> {
            &&& exists|i: int| 0 <= i < values@.len() && values@[i] == *v
            &&& forall|j: int| 0 <= j < values@.len() ==> (*v).key_of() <= #[trigger] values@[j].key_of()
        },
{
    if values.len() == 0 {
        return None;
    }
    let mut best: usize = 0;
    let n = values.len();
    for i in 1..n
        invariant
            n == values@.len(),
            best < n,
            forall|j: int| 0 <= j < i ==> values@[best as int].key_of() <= #[trigger] values@[j].key_of(),
    {
        if values[i].key() < values[best].key() {
            best = i;
        }
    }
    Some(&values[best])
}

/// Returns the largest value in the supplied slice (the first one, if
/// several are largest), or `None` if the slice is empty.
///
/// # Examples
/// ```
/// use kwik::math;
///
/// let value = *math::max::<u64>(&[3, 4, 1, 2]).unwrap();
/// assert_eq!(value, 4);
/// ```
pub fn max<T: HashKey>(values: &[T]) -> (r: Option<&T>)
    ensures
        values@.len() == 0 <==> r is None,
        r matches Some(v) ==> {
            &&& exists|i: int| 0 <= i < values@.len() && values@[i] == *v
            &&& forall|j: int| 0 <= j < values@.len() ==> #[trigger] values@[j].key_of() <= (*v).key_of()
        },
{
    if values.len() == 0 {
        return None;
    }
    let mut best: usize = 0;
    let n = values.len();
    for i in 1..n
        invariant
            n == values@.len(),
            best < n,
            forall|j: int| 0 <= j < i ==> #[trigger] values@[j].key_of() <= values@[best as int].key_of(),
    {
        if values[i].key() > values[best].key() {
            best = i;
        }
    }
    Some(&values[best])
}

} // verus!
