use vstd::prelude::*;

use crate::record::ProcessConfig;
use crate::record::SuperviseError;
use crate::record::spec_reconcile;
use crate::table::ProcessTable;

verus! {

/// The registry: an ordered sequence of tracked records. Order is insertion
/// order; it drives display, not semantics, and is preserved across load and
/// save.
pub type State = Vec<ProcessConfig>;

/// Reconcile every record against the same snapshot, in sequence. Records
/// are independent: no cross-record interaction.
pub fn update_all(state: &mut State, table: &ProcessTable)
    ensures
        final(state)@.len() == old(state)@.len(),
        forall|i: int|
            0 <= i < old(state)@.len() ==> (#[trigger] final(state)@[i])@ == old(
                state,
            )@[i]@.with_status(spec_reconcile(old(state)@[i]@, table@)),
{
    let ghost s0 = state@;
    let n = state.len();
    let mut i: usize = 0;
    while i < n
        invariant
            i <= n,
            n == state@.len(),
            s0.len() == n,
            forall|k: int| i <= k < n ==> state@[k] == s0[k],
            forall|k: int|
                0 <= k < i ==> (#[trigger] state@[k])@ == s0[k]@.with_status(
                    spec_reconcile(s0[k]@, table@),
                ),
        decreases n - i,
    {
        state[i].update(table);
        i = i + 1;
    }
}

/// Append a record that was just brought up to the registry — but only when
/// bringing it up succeeded. A record whose run failed is dropped and the
/// registry stays unchanged; the failure is handed back.
pub fn add(state: &mut State, rec: ProcessConfig, started: Result<(), SuperviseError>) -> (r:
    Result<(), SuperviseError>)
    ensures
        started is Ok ==> final(state)@ == old(state)@.push(rec) && r is Ok,
        started is Err ==> *final(state) == *old(state),
        r == started,
{
    match &started {
        Ok(_) => {
            state.push(rec);
        },
        Err(_) => {},
    }
    started
}

/// What the interactive selection asks for one record: keep it as it is,
/// start it, or stop it.
#[derive(Clone, Copy, PartialEq, Eq, Structural, Debug)]
pub enum Toggle {
    Keep,
    Start,
    Stop,
}

/// The action for one record, from its old enabled state and whether the
/// user left it checked: only changed entries act.
pub open spec fn spec_toggle(enabled: bool, selected: bool) -> Toggle {
    if enabled && !selected {
        Toggle::Stop
    } else if !enabled && selected {
        Toggle::Start
    } else {
        Toggle::Keep
    }
}

fn contains_index(selections: &Vec<usize>, i: usize) -> (r: bool)
    ensures
        r == selections@.contains(i),
{
    let mut j: usize = 0;
    while j < selections.len()
        invariant
            j <= selections@.len(),
            forall|k: int| 0 <= k < j ==> selections@[k] != i,
        decreases selections@.len() - j,
    {
        if selections[j] == i {
            return true;
        }
        j = j + 1;
    }
    assert(!selections@.contains(i));
    false
}

/// Diff the registry's enabled set against the set of indices the user left
/// checked: per record, the action to carry out (`run` for newly checked,
/// `kill` for newly unchecked, nothing for unchanged entries).
pub fn plan_selection(state: &State, selections: &Vec<usize>) -> (r: Vec<Toggle>)
    ensures
        r@.len() == state@.len(),
        forall|i: int|
            0 <= i < state@.len() ==> r@[i] == spec_toggle(
                state@[i]@.status.spec_enabled(),
                selections@.contains(i as usize),
            ),
{
    let n = state.len();
    let mut r: Vec<Toggle> = Vec::new();
    let mut i: usize = 0;
    while i < n
        invariant
            i <= n,
            n == state@.len(),
            r@.len() == i,
            forall|k: int|
                0 <= k < i ==> r@[k] == spec_toggle(
                    state@[k]@.status.spec_enabled(),
                    selections@.contains(k as usize),
                ),
        decreases n - i,
    {
        let enabled = state[i].is_enabled();
        let selected = contains_index(selections, i);
        let t = if enabled && !selected {
            Toggle::Stop
        } else if !enabled && selected {
            Toggle::Start
        } else {
            Toggle::Keep
        };
        r.push(t);
        i = i + 1;
    }
    r
}

} // verus!
