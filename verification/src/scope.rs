//! The scope guards. Each captures a snapshot of an environment table
//! at construction and, at release time, turns the table seen then
//! into the plan of operations that restores the snapshot exactly.

use vstd::prelude::*;

use crate::env_table::EnvTable;
use crate::model::apply_plan;
use crate::model::release_result;
use crate::model::table_of;
use crate::model::unique_keys;
use crate::model::EnvModel;
use crate::plan::compute_restore_plan;
use crate::plan::RestorePlan;

verus! {

/// A scope guard over an environment table. Construction snapshots
/// the table; the snapshot is never updated afterwards. Releasing the
/// guard means asking it for the restore plan against the table seen
/// at release time and performing that plan's operations.
///
/// Releasing more than once is harmless by construction: every plan
/// restores to the same snapshot, so a second release of an already
/// restored table is the identity.
#[derive(Debug)]
pub struct TempEnvScope {
    original_vars: EnvTable,
}

impl TempEnvScope {
    /// The bindings captured at construction.
    pub closed spec fn snapshot(&self) -> EnvModel {
        self.original_vars@
    }

    /// The captured table is well-formed.
    pub closed spec fn wf(&self) -> bool {
        self.original_vars.wf()
    }

    /// Capture the current table. The guard keeps its own copy: later
    /// mutation of `current` does not reach the snapshot.
    pub fn new(current: &EnvTable) -> (scope: TempEnvScope)
        requires
            current.wf(),
        ensures
            scope.wf(),
            scope.snapshot() == current@,
    {
        TempEnvScope { original_vars: current.duplicate() }
    }

    /// The snapshot, as a table.
    pub fn original_vars(&self) -> (r: &EnvTable)
        ensures
            r@ == self.snapshot(),
            r.wf() == self.wf(),
    {
        &self.original_vars
    }

    /// The plan a release performs against `after`, the table seen at
    /// release time: remove what was added, then set every snapshotted
    /// binding back. Performing it restores the snapshot exactly.
    pub fn restore_plan(&self, after: &EnvTable) -> (plan: RestorePlan)
        requires
            self.wf(),
            after.wf(),
        ensures
            forall|k: Seq<char>| #[trigger] plan.removal_views().contains(k)
                <==> (after@.contains_key(k) && !self.snapshot().contains_key(k)),
            unique_keys(plan.set_views()),
            table_of(plan.set_views()) == self.snapshot(),
            apply_plan(after@, plan.removal_views(), plan.set_views()) == self.snapshot(),
            apply_plan(after@, plan.removal_views(), plan.set_views())
                == release_result(self.snapshot(), after@),
    {
        compute_restore_plan(&self.original_vars, after)
    }
}

/// A scope guard identical in behaviour to [`TempEnvScope`], offered
/// under the name callers use when driving a guard directly from a
/// test body. The two kinds of guard share nothing at run time; each
/// value restores to its own snapshot.
#[derive(Debug)]
pub struct TestEnvScope {
    original_vars: EnvTable,
}

impl TestEnvScope {
    /// The bindings captured at construction.
    pub closed spec fn snapshot(&self) -> EnvModel {
        self.original_vars@
    }

    /// The captured table is well-formed.
    pub closed spec fn wf(&self) -> bool {
        self.original_vars.wf()
    }

    /// Capture the current table. The guard keeps its own copy: later
    /// mutation of `current` does not reach the snapshot.
    pub fn new(current: &EnvTable) -> (scope: TestEnvScope)
        requires
            current.wf(),
        ensures
            scope.wf(),
            scope.snapshot() == current@,
    {
        TestEnvScope { original_vars: current.duplicate() }
    }

    /// The snapshot, as a table.
    pub fn original_vars(&self) -> (r: &EnvTable)
        ensures
            r@ == self.snapshot(),
            r.wf() == self.wf(),
    {
        &self.original_vars
    }

    /// The plan a release performs against `after`, the table seen at
    /// release time: remove what was added, then set every snapshotted
    /// binding back. Performing it restores the snapshot exactly.
    pub fn restore_plan(&self, after: &EnvTable) -> (plan: RestorePlan)
        requires
            self.wf(),
            after.wf(),
        ensures
            forall|k: Seq<char>| #[trigger] plan.removal_views().contains(k)
                <==> (after@.contains_key(k) && !self.snapshot().contains_key(k)),
            unique_keys(plan.set_views()),
            table_of(plan.set_views()) == self.snapshot(),
            apply_plan(after@, plan.removal_views(), plan.set_views()) == self.snapshot(),
            apply_plan(after@, plan.removal_views(), plan.set_views())
                == release_result(self.snapshot(), after@),
    {
        compute_restore_plan(&self.original_vars, after)
    }
}

} // verus!
