//! Mathematical model of an environment table and of the restore
//! algorithm: remove every variable that was added, then set every
//! snapshotted binding back.

use vstd::prelude::*;

verus! {

/// A table of environment bindings, as a mathematical map from a
/// variable name to its value.
pub type EnvModel = Map<Seq<char>, Seq<char>>;

/// The views of a sequence of owned name/value pairs.
pub open spec fn entry_views(es: Seq<(String, String)>) -> Seq<(Seq<char>, Seq<char>)> {
    es.map_values(|p: (String, String)| (p.0@, p.1@))
}

/// The views of a sequence of owned names.
pub open spec fn name_views(ns: Seq<String>) -> Seq<Seq<char>> {
    ns.map_values(|s: String| s@)
}

/// No two pairs bind the same name.
pub open spec fn unique_keys(es: Seq<(Seq<char>, Seq<char>)>) -> bool {
    forall|i: int, j: int| 0 <= i < j < es.len() ==> es[i].0 != es[j].0
}

/// Some pair binds `name`.
pub open spec fn has_key(es: Seq<(Seq<char>, Seq<char>)>, name: Seq<char>) -> bool {
    exists|i: int| 0 <= i < es.len() && es[i].0 == name
}

/// The table reached from `m` by removing `names` one after another,
/// first name first.
pub open spec fn apply_removals(m: EnvModel, names: Seq<Seq<char>>) -> EnvModel
    decreases names.len(),
{
    if names.len() == 0 {
        m
    } else {
        apply_removals(m, names.drop_last()).remove(names.last())
    }
}

/// The table reached from `m` by setting the pairs of `es` one after
/// another, first pair first; a later pair overwrites an earlier one.
pub open spec fn apply_sets(m: EnvModel, es: Seq<(Seq<char>, Seq<char>)>) -> EnvModel
    decreases es.len(),
{
    if es.len() == 0 {
        m
    } else {
        apply_sets(m, es.drop_last()).insert(es.last().0, es.last().1)
    }
}

/// The table that a sequence of pairs denotes.
pub open spec fn table_of(es: Seq<(Seq<char>, Seq<char>)>) -> EnvModel {
    apply_sets(Map::<Seq<char>, Seq<char>>::empty(), es)
}

/// The table reached from `m` by performing every removal, then every
/// set, in order — the exact sequence of operations a restore plan asks
/// its caller to perform on the ambient environment.
pub open spec fn apply_plan(
    m: EnvModel,
    removals: Seq<Seq<char>>,
    sets: Seq<(Seq<char>, Seq<char>)>,
) -> EnvModel {
    apply_sets(apply_removals(m, removals), sets)
}

/// The names present in `after` but absent from `snapshot`: the
/// variables added while the guard was live, which a release removes.
pub open spec fn extra_names(snapshot: EnvModel, after: EnvModel) -> Set<Seq<char>> {
    after.dom().difference(snapshot.dom())
}

/// The net effect a release prescribes on a table `after`, for a guard
/// whose snapshot is `snapshot`: drop the added names, then set every
/// snapshotted binding unconditionally.
pub open spec fn release_result(snapshot: EnvModel, after: EnvModel) -> EnvModel {
    after.remove_keys(extra_names(snapshot, after)).union_prefer_right(snapshot)
}

/// Membership in a sequence with the last element split off.
pub proof fn lemma_contains_drop_last(names: Seq<Seq<char>>, name: Seq<char>)
    requires
        names.len() > 0,
    ensures
        names.contains(name) <==> (names.drop_last().contains(name) || names.last() == name),
{
    if names.contains(name) {
        let i = choose|i: int| 0 <= i < names.len() && names[i] == name;
        if i < names.len() - 1 {
            assert(names.drop_last()[i] == name);
        }
    }
    if names.drop_last().contains(name) {
        let i = choose|i: int|
            0 <= i < names.drop_last().len() && names.drop_last()[i] == name;
        assert(names[i] == name);
    }
    if names.last() == name {
        assert(names[names.len() - 1] == name);
    }
}

/// A bound key in a sequence of pairs with the last pair split off.
pub proof fn lemma_has_key_drop_last(es: Seq<(Seq<char>, Seq<char>)>, name: Seq<char>)
    requires
        es.len() > 0,
    ensures
        has_key(es, name) <==> (has_key(es.drop_last(), name) || es.last().0 == name),
{
    if has_key(es, name) {
        let i = choose|i: int| 0 <= i < es.len() && es[i].0 == name;
        if i < es.len() - 1 {
            assert(es.drop_last()[i].0 == name);
        }
    }
    if has_key(es.drop_last(), name) {
        let i = choose|i: int| 0 <= i < es.drop_last().len() && es.drop_last()[i].0 == name;
        assert(es[i].0 == name);
    }
    if es.last().0 == name {
        assert(es[es.len() - 1].0 == name);
    }
}

/// Removing a sequence of names removes exactly those names and keeps
/// every other binding unchanged.
pub proof fn lemma_apply_removals_characterized(m: EnvModel, names: Seq<Seq<char>>)
    ensures
        forall|k: Seq<char>| #[trigger] apply_removals(m, names).contains_key(k)
            <==> (m.contains_key(k) && !names.contains(k)),
        forall|k: Seq<char>| #[trigger] apply_removals(m, names).contains_key(k)
            ==> apply_removals(m, names)[k] == m[k],
    decreases names.len(),
{
    if names.len() > 0 {
        let prefix = names.drop_last();
        let prev = apply_removals(m, prefix);
        lemma_apply_removals_characterized(m, prefix);
        assert(apply_removals(m, names) == prev.remove(names.last()));
        assert forall|k: Seq<char>| #[trigger] apply_removals(m, names).contains_key(k)
            <==> (m.contains_key(k) && !names.contains(k)) by {
            lemma_contains_drop_last(names, k);
            assert(prev.contains_key(k) <==> (m.contains_key(k) && !prefix.contains(k)));
            assert(apply_removals(m, names).contains_key(k)
                <==> (prev.contains_key(k) && k != names.last()));
        }
        assert forall|k: Seq<char>| #[trigger] apply_removals(m, names).contains_key(k)
            implies apply_removals(m, names)[k] == m[k] by {
            assert(prev.contains_key(k));
        }
    }
}

/// Setting a sequence of pairs with pairwise distinct names adds
/// exactly those bindings, keeps every other binding unchanged, and
/// gives each named variable the value its pair carries.
pub proof fn lemma_apply_sets_characterized(m: EnvModel, es: Seq<(Seq<char>, Seq<char>)>)
    requires
        unique_keys(es),
    ensures
        forall|k: Seq<char>| #[trigger] apply_sets(m, es).contains_key(k)
            <==> (m.contains_key(k) || has_key(es, k)),
        forall|k: Seq<char>| m.contains_key(k) && !has_key(es, k)
            ==> #[trigger] apply_sets(m, es)[k] == m[k],
        forall|i: int| 0 <= i < es.len() ==> apply_sets(m, es)[#[trigger] es[i].0] == es[i].1,
    decreases es.len(),
{
    if es.len() > 0 {
        let prefix = es.drop_last();
        assert(unique_keys(prefix)) by {
            assert forall|i: int, j: int| 0 <= i < j < prefix.len()
                implies prefix[i].0 != prefix[j].0 by {
                assert(prefix[i] == es[i]);
                assert(prefix[j] == es[j]);
            }
        }
        lemma_apply_sets_characterized(m, prefix);
        let prev = apply_sets(m, prefix);
        assert(apply_sets(m, es) == prev.insert(es.last().0, es.last().1));
        assert forall|k: Seq<char>| #[trigger] apply_sets(m, es).contains_key(k)
            <==> (m.contains_key(k) || has_key(es, k)) by {
            lemma_has_key_drop_last(es, k);
            assert(prev.contains_key(k) <==> (m.contains_key(k) || has_key(prefix, k)));
            assert(apply_sets(m, es).contains_key(k)
                <==> (prev.contains_key(k) || k == es.last().0));
        }
        assert forall|k: Seq<char>| m.contains_key(k) && !has_key(es, k)
            implies #[trigger] apply_sets(m, es)[k] == m[k] by {
            lemma_has_key_drop_last(es, k);
            assert(!has_key(prefix, k));
            assert(prev[k] == m[k]);
        }
        assert(!has_key(prefix, es.last().0)) by {
            if has_key(prefix, es.last().0) {
                let i = choose|i: int| 0 <= i < prefix.len() && prefix[i].0 == es.last().0;
                assert(es[i].0 == es[es.len() - 1].0);
            }
        }
        assert forall|i: int| 0 <= i < es.len()
            implies apply_sets(m, es)[#[trigger] es[i].0] == es[i].1 by {
            if i < es.len() - 1 {
                assert(es[i].0 != es.last().0);
                assert(prefix[i] == es[i]);
                assert(prev[prefix[i].0] == prefix[i].1);
                assert(apply_sets(m, es)[es[i].0] == prev[es[i].0]);
            }
        }
    }
}

/// A sequence of pairs with pairwise distinct names denotes the table
/// whose domain is its names, binding each to the paired value.
pub proof fn lemma_table_of_characterized(es: Seq<(Seq<char>, Seq<char>)>)
    requires
        unique_keys(es),
    ensures
        forall|k: Seq<char>| #[trigger] table_of(es).contains_key(k) <==> has_key(es, k),
        forall|i: int| 0 <= i < es.len() ==> table_of(es)[#[trigger] es[i].0] == es[i].1,
{
    lemma_apply_sets_characterized(Map::<Seq<char>, Seq<char>>::empty(), es);
}

/// Releasing a guard restores its snapshot exactly, whatever table the
/// environment holds at release time.
pub proof fn lemma_release_restores(snapshot: EnvModel, after: EnvModel)
    ensures
        release_result(snapshot, after) == snapshot,
{
    assert(release_result(snapshot, after) =~= snapshot);
}

/// A restore plan whose removals are exactly the added names and whose
/// sets spell out the snapshot, applied as a sequence of operations,
/// rebuilds the snapshot exactly — and so agrees with `release_result`.
pub proof fn lemma_plan_restores(
    snapshot: EnvModel,
    after: EnvModel,
    removals: Seq<Seq<char>>,
    sets: Seq<(Seq<char>, Seq<char>)>,
)
    requires
        forall|k: Seq<char>| #[trigger] removals.contains(k)
            <==> (after.contains_key(k) && !snapshot.contains_key(k)),
        unique_keys(sets),
        table_of(sets) == snapshot,
    ensures
        apply_plan(after, removals, sets) == snapshot,
        apply_plan(after, removals, sets) == release_result(snapshot, after),
{
    let pruned = apply_removals(after, removals);
    lemma_apply_removals_characterized(after, removals);
    lemma_apply_sets_characterized(pruned, sets);
    lemma_table_of_characterized(sets);
    assert forall|k: Seq<char>| #[trigger] apply_plan(after, removals, sets).contains_key(k)
        implies snapshot.contains_key(k) && apply_plan(after, removals, sets)[k] == snapshot[k] by {
        if has_key(sets, k) {
            let i = choose|i: int| 0 <= i < sets.len() && sets[i].0 == k;
            assert(apply_sets(pruned, sets)[sets[i].0] == sets[i].1);
            assert(table_of(sets)[sets[i].0] == sets[i].1);
        } else {
            assert(pruned.contains_key(k));
            assert(snapshot.contains_key(k));
        }
    }
    assert forall|k: Seq<char>| snapshot.contains_key(k)
        implies #[trigger] apply_plan(after, removals, sets).contains_key(k) by {
        assert(table_of(sets).contains_key(k));
    }
    assert(apply_plan(after, removals, sets) =~= snapshot);
    lemma_release_restores(snapshot, after);
}

} // verus!
