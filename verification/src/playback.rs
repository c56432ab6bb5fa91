//! Stepping control of the interactive simulation.

use vstd::prelude::*;

verus! {

/// Count one more simulation step and decide whether playback stops: it
/// stops once the step count reaches the configured limit, if any.
/// Returns the new step count and whether to stop.
pub fn advance_step(step_counter: usize, auto_stop_after_steps: Option<usize>) -> (r: (usize, bool))
    requires
        step_counter < usize::MAX,
    ensures
        r.0 == step_counter + 1,
        r.1 == (auto_stop_after_steps matches Some(max_steps) && step_counter + 1 >= max_steps),
{
    let counter = step_counter + 1;
    match auto_stop_after_steps {
        Some(max_steps) => (counter, counter >= max_steps),
        None => (counter, false),
    }
}

} // verus!
