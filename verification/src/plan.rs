//! The restore plan: the exact sequence of operations a release asks
//! its caller to perform on the ambient environment, together with the
//! proof that performing them restores the snapshot.

use vstd::prelude::*;

use crate::env_table::EnvTable;
use crate::model::apply_plan;
use crate::model::apply_removals;
use crate::model::apply_sets;
use crate::model::entry_views;
use crate::model::lemma_contains_drop_last;
use crate::model::lemma_plan_restores;
use crate::model::name_views;
use crate::model::release_result;
use crate::model::table_of;
use crate::model::unique_keys;

verus! {

/// What a release must do to the ambient environment: remove every
/// name in `removals`, then set every pair in `sets`, in that order.
#[derive(Debug)]
pub struct RestorePlan {
    /// Names to remove: the variables added while the guard was live.
    pub removals: Vec<String>,
    /// Bindings to set back: the guard's snapshot, spelled out.
    pub sets: Vec<(String, String)>,
}

impl RestorePlan {
    /// The names to remove, as sequences of characters.
    pub open spec fn removal_views(&self) -> Seq<Seq<char>> {
        name_views(self.removals@)
    }

    /// The bindings to set, as pairs of character sequences.
    pub open spec fn set_views(&self) -> Seq<(Seq<char>, Seq<char>)> {
        entry_views(self.sets@)
    }

    /// Apply the plan's operations, in order, to a table standing in
    /// for the ambient environment, and return the table they reach.
    pub fn apply_to(&self, table: &EnvTable) -> (r: EnvTable)
        requires
            table.wf(),
        ensures
            r.wf(),
            r@ == apply_plan(table@, self.removal_views(), self.set_views()),
    {
        let ghost rv = self.removal_views();
        let ghost sv = self.set_views();
        let mut t = table.duplicate();
        let n = self.removals.len();
        let mut i: usize = 0;
        proof {
            assert(rv.take(0) =~= Seq::<Seq<char>>::empty());
        }
        while i < n
            invariant
                i <= n,
                n == self.removals@.len(),
                rv == self.removal_views(),
                t.wf(),
                t@ == apply_removals(table@, rv.take(i as int)),
            decreases n - i,
        {
            t.remove_var(self.removals[i].as_str());
            proof {
                assert(rv.take(i as int + 1).drop_last() =~= rv.take(i as int));
                assert(rv.take(i as int + 1).last() == rv[i as int]);
                assert(rv[i as int] == self.removals@[i as int]@);
            }
            i = i + 1;
        }
        proof {
            assert(rv.take(n as int) =~= rv);
        }
        let ghost pruned = t@;
        let m = self.sets.len();
        let mut j: usize = 0;
        proof {
            assert(sv.take(0) =~= Seq::<(Seq<char>, Seq<char>)>::empty());
        }
        while j < m
            invariant
                j <= m,
                m == self.sets@.len(),
                sv == self.set_views(),
                pruned == apply_removals(table@, self.removal_views()),
                t.wf(),
                t@ == apply_sets(pruned, sv.take(j as int)),
            decreases m - j,
        {
            t.set_var(self.sets[j].0.as_str(), self.sets[j].1.as_str());
            proof {
                assert(sv.take(j as int + 1).drop_last() =~= sv.take(j as int));
                assert(sv.take(j as int + 1).last() == sv[j as int]);
                assert(sv[j as int] == (self.sets@[j as int].0@, self.sets@[j as int].1@));
            }
            j = j + 1;
        }
        proof {
            assert(sv.take(m as int) =~= sv);
        }
        t
    }
}

/// Compare `after`, the table at release time, with `snapshot`, the
/// table at construction time, and produce the plan a release
/// prescribes: remove the names that were added, then set every
/// snapshotted binding back. Performing the plan restores the
/// snapshot exactly.
pub fn compute_restore_plan(snapshot: &EnvTable, after: &EnvTable) -> (plan: RestorePlan)
    requires
        snapshot.wf(),
        after.wf(),
    ensures
        forall|k: Seq<char>| #[trigger] plan.removal_views().contains(k)
            <==> (after@.contains_key(k) && !snapshot@.contains_key(k)),
        unique_keys(plan.set_views()),
        table_of(plan.set_views()) == snapshot@,
        apply_plan(after@, plan.removal_views(), plan.set_views()) == snapshot@,
        apply_plan(after@, plan.removal_views(), plan.set_views())
            == release_result(snapshot@, after@),
{
    let after_names = after.var_names();
    let ghost anv = name_views(after_names@);
    let mut removals: Vec<String> = Vec::new();
    let n = after_names.len();
    let mut i: usize = 0;
    proof {
        assert forall|k: Seq<char>| !(#[trigger] anv.take(0).contains(k)) by {
            assert(anv.take(0).len() == 0);
        }
        assert forall|k: Seq<char>| !(#[trigger] name_views(removals@).contains(k)) by {
            assert(name_views(removals@).len() == 0);
        }
    }
    while i < n
        invariant
            i <= n,
            n == after_names@.len(),
            anv == name_views(after_names@),
            snapshot.wf(),
            forall|k: Seq<char>| #[trigger] name_views(removals@).contains(k)
                <==> (anv.take(i as int).contains(k) && !snapshot@.contains_key(k)),
        decreases n - i,
    {
        let ghost old_nv = name_views(removals@);
        let absent = !snapshot.contains_var(after_names[i].as_str());
        if absent {
            removals.push(after_names[i].clone());
        }
        proof {
            let nv = name_views(removals@);
            assert(anv[i as int] == after_names@[i as int]@);
            if absent {
                assert(nv =~= old_nv.push(anv[i as int]));
                assert(nv.drop_last() =~= old_nv);
            }
            assert forall|k: Seq<char>| #[trigger] nv.contains(k)
                <==> (anv.take(i as int + 1).contains(k) && !snapshot@.contains_key(k)) by {
                lemma_contains_drop_last(anv.take(i as int + 1), k);
                assert(anv.take(i as int + 1).drop_last() =~= anv.take(i as int));
                assert(anv.take(i as int + 1).last() == anv[i as int]);
                if absent {
                    lemma_contains_drop_last(nv, k);
                } else {
                    assert(nv == old_nv);
                    if k == anv[i as int] {
                        assert(snapshot@.contains_key(k));
                    }
                }
            }
        }
        i = i + 1;
    }
    let sets = snapshot.var_pairs();
    let plan = RestorePlan { removals, sets };
    proof {
        assert(anv.take(n as int) =~= anv);
        assert forall|k: Seq<char>| #[trigger] plan.removal_views().contains(k)
            <==> (after@.contains_key(k) && !snapshot@.contains_key(k)) by {
            assert(name_views(plan.removals@).contains(k)
                <==> (anv.contains(k) && !snapshot@.contains_key(k)));
        }
        lemma_plan_restores(snapshot@, after@, plan.removal_views(), plan.set_views());
    }
    plan
}

} // verus!
