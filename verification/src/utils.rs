//! Small arithmetic and path helpers shared by the viewer.

use vstd::prelude::*;

verus! {

/// Largest power of two that is at most `x`, or zero when `x < 1`.
pub open spec fn spec_prev_pow2(x: int) -> int
    decreases x,
{
    if x < 1 {
        0
    } else if x < 2 {
        1
    } else {
        2 * spec_prev_pow2(x / 2)
    }
}

/// Whether `n` is a power of two.
pub open spec fn is_pow2(n: int) -> bool
    decreases n,
{
    if n < 1 {
        false
    } else if n == 1 {
        true
    } else {
        n % 2 == 0 && is_pow2(n / 2)
    }
}

/// `spec_prev_pow2` really is the power of two directly below `x`:
/// it is a power of two, and `x` lies in `[spec_prev_pow2(x), 2 * spec_prev_pow2(x))`.
pub proof fn lemma_prev_pow2_bounds(x: int)
    requires
        x >= 1,
    ensures
        1 <= spec_prev_pow2(x) <= x,
        x < 2 * spec_prev_pow2(x),
        is_pow2(spec_prev_pow2(x)),
    decreases x,
{
    if x >= 2 {
        lemma_prev_pow2_bounds(x / 2);
    }
}

/// Round `x` down to the nearest power of two; zero maps to zero.
pub fn previous_power_of_two(x: u16) -> (r: u16)
    ensures
        r == spec_prev_pow2(x as int),
        x > 0 ==> is_pow2(r as int) && 1 <= r <= x && x < 2 * r,
    decreases x,
{
    proof {
        if x > 0 {
            lemma_prev_pow2_bounds(x as int);
        }
    }
    if x == 0 {
        0
    } else if x == 1 {
        1
    } else {
        2 * previous_power_of_two(x / 2)
    }
}

/// Keep the last `n` components of a path, reporting how many components
/// the full path had.  A path is modeled as its sequence of components.
pub fn last_n_components(path: &Vec<String>, n: usize) -> (r: (usize, Vec<String>))
    ensures
        r.0 == path@.len(),
        r.1@.len() == if n <= path@.len() { n as int } else { path@.len() as int },
        forall|i: int|
            0 <= i < r.1@.len() ==> r.1@[i]@ == path@[path@.len() - r.1@.len() + i]@,
{
    let total = path.len();
    let start = if n <= total {
        total - n
    } else {
        0
    };
    let mut tail: Vec<String> = Vec::new();
    let mut i = start;
    while i < total
        invariant
            start <= i <= total,
            total == path@.len(),
            tail@.len() == i - start,
            forall|j: int| 0 <= j < tail@.len() ==> tail@[j]@ == path@[start + j]@,
        decreases total - i,
    {
        tail.push(path[i].clone());
        i = i + 1;
    }
    (total, tail)
}

} // verus!
