//! The laws of releasing a scope guard, stated over the model:
//! whatever happened to the table while the guard was live, a release
//! undoes it, and guards do so independently of one another.

use vstd::prelude::*;

use crate::model::lemma_release_restores;
use crate::model::release_result;
use crate::model::EnvModel;

verus! {

/// Restore-identity: if the table was not mutated while the guard was
/// live — it still equals the snapshot `before` — a release leaves it
/// exactly as it was at construction.
pub proof fn lemma_restore_identity(before: EnvModel)
    ensures
        release_result(before, before) == before,
{
    lemma_release_restores(before, before);
}

/// Addition-reversal: a name unbound at construction is unbound again
/// after release, whatever value it was given meanwhile and whatever
/// else changed.
pub proof fn lemma_addition_reversal(before: EnvModel, during: EnvModel, name: Seq<char>)
    requires
        !before.contains_key(name),
    ensures
        !release_result(before, during).contains_key(name),
{
    lemma_release_restores(before, during);
}

/// Modification-reversal: a name bound to `value` at construction and
/// rebound to a different `changed` value meanwhile is bound to
/// `value` again after release.
pub proof fn lemma_modification_reversal(
    before: EnvModel,
    during: EnvModel,
    name: Seq<char>,
    value: Seq<char>,
    changed: Seq<char>,
)
    requires
        before.contains_key(name),
        before[name] == value,
        during.contains_key(name),
        during[name] == changed,
        changed != value,
    ensures
        release_result(before, during).contains_key(name),
        release_result(before, during)[name] == value,
{
    lemma_release_restores(before, during);
}

/// Deletion-reversal: a name bound to `value` at construction and
/// removed meanwhile is bound to `value` again after release.
pub proof fn lemma_deletion_reversal(
    before: EnvModel,
    during: EnvModel,
    name: Seq<char>,
    value: Seq<char>,
)
    requires
        before.contains_key(name),
        before[name] == value,
        !during.contains_key(name),
    ensures
        release_result(before, during).contains_key(name),
        release_result(before, during)[name] == value,
{
    lemma_release_restores(before, during);
}

/// Nesting independence: an outer guard is constructed when the table
/// is `outer_start`; after arbitrary mutation the table is `between`,
/// where an inner guard is constructed — its snapshot thus includes
/// everything that changed since the outer construction. Releasing
/// the inner guard from any table `inner_end` restores `between`, and
/// releasing the outer guard later, from any table `outer_end`,
/// restores `outer_start`: each guard restores its own snapshot, with
/// no coordination between the two.
pub proof fn lemma_nesting_independence(
    outer_start: EnvModel,
    between: EnvModel,
    inner_end: EnvModel,
    outer_end: EnvModel,
)
    ensures
        release_result(between, inner_end) == between,
        release_result(outer_start, outer_end) == outer_start,
{
    lemma_release_restores(between, inner_end);
    lemma_release_restores(outer_start, outer_end);
}

} // verus!
