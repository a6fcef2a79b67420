//! An environment-variable table held as plain values: names bound to
//! values, each name bound at most once. It mirrors the ambient process
//! environment without touching it; a thin shell converts in both
//! directions.

use vstd::prelude::*;

use crate::model::entry_views;
use crate::model::has_key;
use crate::model::lemma_table_of_characterized;
use crate::model::name_views;
use crate::model::table_of;
use crate::model::unique_keys;
use crate::model::EnvModel;

verus! {

/// A table of environment bindings. The abstract value (`@`) is the
/// map from variable name to value; well-formedness (`wf`) says no
/// name occurs twice.
#[derive(Debug)]
pub struct EnvTable {
    entries: Vec<(String, String)>,
}

impl View for EnvTable {
    type V = EnvModel;

    closed spec fn view(&self) -> EnvModel {
        table_of(entry_views(self.entries@))
    }
}

/// Removing the pair at index `i` from a table with pairwise distinct
/// names removes exactly that binding from the table it denotes.
proof fn lemma_table_of_remove_index(es: Seq<(Seq<char>, Seq<char>)>, i: int)
    requires
        unique_keys(es),
        0 <= i < es.len(),
    ensures
        unique_keys(es.remove(i)),
        table_of(es.remove(i)) == table_of(es).remove(es[i].0),
    decreases es.len(),
{
    let shorter = es.remove(i);
    assert forall|p: int, q: int| 0 <= p < q < shorter.len()
        implies shorter[p].0 != shorter[q].0 by {
        assert(shorter[p] == if p < i { es[p] } else { es[p + 1] });
        assert(shorter[q] == if q < i { es[q] } else { es[q + 1] });
    }
    let dl = es.drop_last();
    assert(unique_keys(dl)) by {
        assert forall|p: int, q: int| 0 <= p < q < dl.len() implies dl[p].0 != dl[q].0 by {
            assert(dl[p] == es[p]);
            assert(dl[q] == es[q]);
        }
    }
    lemma_table_of_characterized(es);
    lemma_table_of_characterized(dl);
    if i == es.len() - 1 {
        assert(shorter =~= dl);
        assert(!has_key(dl, es[i].0)) by {
            if has_key(dl, es[i].0) {
                let j = choose|j: int| 0 <= j < dl.len() && dl[j].0 == es[i].0;
                assert(es[j].0 == es[i].0);
            }
        }
        assert(table_of(dl) =~= table_of(dl).insert(es.last().0, es.last().1).remove(es[i].0));
    } else {
        let k = es[i].0;
        let last = es.last();
        lemma_table_of_remove_index(dl, i);
        assert(shorter.drop_last() =~= dl.remove(i));
        assert(shorter.last() == last) by {
            assert(shorter[shorter.len() - 1] == es[es.len() - 1]);
        }
        assert(table_of(shorter) == table_of(dl.remove(i)).insert(last.0, last.1));
        assert(k != last.0) by {
            assert(es[i].0 != es[es.len() - 1].0);
        }
        assert(table_of(dl).remove(k).insert(last.0, last.1)
            =~= table_of(dl).insert(last.0, last.1).remove(k));
        assert(table_of(es).remove(k) == table_of(dl).insert(last.0, last.1).remove(k));
    }
}

impl EnvTable {
    /// No variable name is bound twice.
    pub closed spec fn wf(&self) -> bool {
        unique_keys(entry_views(self.entries@))
    }

    /// The empty table.
    pub fn new() -> (t: EnvTable)
        ensures
            t.wf(),
            t@ == EnvModel::empty(),
    {
        let t = EnvTable { entries: Vec::new() };
        proof {
            assert(entry_views(t.entries@) =~= Seq::<(Seq<char>, Seq<char>)>::empty());
            assert(t@ =~= EnvModel::empty());
        }
        t
    }

    /// The index at which `name` is bound, if any.
    fn position_of(&self, name: &String) -> (r: Option<usize>)
        ensures
            match r {
                Some(i) => i < self.entries@.len() && self.entries@[i as int].0@ == name@,
                None => forall|i: int| 0 <= i < self.entries@.len()
                    ==> (#[trigger] self.entries@[i]).0@ != name@,
            },
    {
        let n = self.entries.len();
        let mut i: usize = 0;
        while i < n
            invariant
                i <= n,
                n == self.entries@.len(),
                forall|j: int| 0 <= j < i ==> (#[trigger] self.entries@[j]).0@ != name@,
            decreases n - i,
        {
            if self.entries[i].0 == *name {
                return Some(i);
            }
            i = i + 1;
        }
        None
    }

    /// The value bound to `name`, if any.
    pub fn get<'a>(&'a self, name: &str) -> (r: Option<&'a String>)
        requires
            self.wf(),
        ensures
            match r {
                Some(v) => self@.contains_key(name@) && v@ == self@[name@],
                None => !self@.contains_key(name@),
            },
    {
        let owned = name.to_owned();
        let r = self.position_of(&owned);
        proof {
            lemma_table_of_characterized(entry_views(self.entries@));
        }
        match r {
            Some(i) => {
                proof {
                    let es = entry_views(self.entries@);
                    assert(es[i as int].0 == name@);
                    assert(has_key(es, name@));
                    assert(table_of(es)[es[i as int].0] == es[i as int].1);
                }
                Some(&self.entries[i].1)
            },
            None => {
                proof {
                    let es = entry_views(self.entries@);
                    if has_key(es, name@) {
                        let j = choose|j: int| 0 <= j < es.len() && es[j].0 == name@;
                        assert(self.entries@[j].0@ == name@);
                    }
                }
                None
            },
        }
    }

    /// Whether `name` is bound.
    pub fn contains_var(&self, name: &str) -> (r: bool)
        requires
            self.wf(),
        ensures
            r == self@.contains_key(name@),
    {
        self.get(name).is_some()
    }

    /// Unbind `name`; a table without it is left unchanged.
    pub fn remove_var(&mut self, name: &str)
        requires
            old(self).wf(),
        ensures
            final(self).wf(),
            final(self)@ == old(self)@.remove(name@),
    {
        let owned = name.to_owned();
        let r = self.position_of(&owned);
        match r {
            Some(i) => {
                proof {
                    let es = entry_views(self.entries@);
                    lemma_table_of_remove_index(es, i as int);
                    assert(es[i as int].0 == name@);
                }
                let ghost old_views = entry_views(self.entries@);
                self.entries.remove(i);
                proof {
                    assert(entry_views(self.entries@) =~= old_views.remove(i as int));
                }
            },
            None => {
                proof {
                    let es = entry_views(self.entries@);
                    lemma_table_of_characterized(es);
                    if has_key(es, name@) {
                        let j = choose|j: int| 0 <= j < es.len() && es[j].0 == name@;
                        assert(self.entries@[j].0@ == name@);
                    }
                    assert(self@ =~= self@.remove(name@));
                }
            },
        }
    }

    /// Bind `name` to `value`, replacing any previous binding.
    pub fn set_var(&mut self, name: &str, value: &str)
        requires
            old(self).wf(),
        ensures
            final(self).wf(),
            final(self)@ == old(self)@.insert(name@, value@),
    {
        self.remove_var(name);
        let owned_name = name.to_owned();
        let owned_value = value.to_owned();
        let ghost mid_views = entry_views(self.entries@);
        let ghost mid_table = self@;
        proof {
            lemma_table_of_characterized(mid_views);
            if has_key(mid_views, name@) {
                let j = choose|j: int| 0 <= j < mid_views.len() && mid_views[j].0 == name@;
                assert(mid_table.contains_key(name@));
            }
        }
        self.entries.push((owned_name, owned_value));
        proof {
            let es = entry_views(self.entries@);
            assert(es =~= mid_views.push((name@, value@)));
            assert forall|p: int, q: int| 0 <= p < q < es.len() implies es[p].0 != es[q].0 by {
                if q < es.len() - 1 {
                    assert(mid_views[p].0 != mid_views[q].0);
                } else {
                    assert(!has_key(mid_views, name@));
                    assert(mid_views[p].0 != name@);
                }
            }
            assert(es.drop_last() =~= mid_views);
            assert(self@ == mid_table.insert(name@, value@));
            assert(self@ =~= old(self)@.insert(name@, value@));
        }
    }

    /// A copy with the same bindings.
    pub fn duplicate(&self) -> (r: EnvTable)
        ensures
            r@ == self@,
            r.wf() == self.wf(),
    {
        let n = self.entries.len();
        let mut entries: Vec<(String, String)> = Vec::new();
        let mut i: usize = 0;
        while i < n
            invariant
                i <= n,
                n == self.entries@.len(),
                entries@.len() == i,
                forall|j: int| 0 <= j < i ==> entries@[j] == self.entries@[j],
            decreases n - i,
        {
            entries.push((self.entries[i].0.clone(), self.entries[i].1.clone()));
            i = i + 1;
        }
        let r = EnvTable { entries };
        proof {
            assert(entry_views(r.entries@) =~= entry_views(self.entries@));
        }
        r
    }

    /// Every bound name, each once.
    pub fn var_names(&self) -> (r: Vec<String>)
        requires
            self.wf(),
        ensures
            forall|i: int, j: int| 0 <= i < j < name_views(r@).len()
                ==> name_views(r@)[i] != name_views(r@)[j],
            forall|k: Seq<char>| #[trigger] name_views(r@).contains(k) <==> self@.contains_key(k),
    {
        let n = self.entries.len();
        let mut r: Vec<String> = Vec::new();
        let mut i: usize = 0;
        while i < n
            invariant
                i <= n,
                n == self.entries@.len(),
                r@.len() == i,
                forall|j: int| 0 <= j < i ==> r@[j]@ == (#[trigger] self.entries@[j]).0@,
            decreases n - i,
        {
            r.push(self.entries[i].0.clone());
            i = i + 1;
        }
        proof {
            let es = entry_views(self.entries@);
            let nv = name_views(r@);
            lemma_table_of_characterized(es);
            assert forall|j: int| 0 <= j < nv.len() implies nv[j] == es[j].0 by {
                assert(r@[j]@ == self.entries@[j].0@);
            }
            assert forall|k: Seq<char>| #[trigger] nv.contains(k)
                implies self@.contains_key(k) by {
                let j = choose|j: int| 0 <= j < nv.len() && nv[j] == k;
                assert(es[j].0 == k);
                assert(has_key(es, k));
            }
            assert forall|k: Seq<char>| self@.contains_key(k)
                implies #[trigger] nv.contains(k) by {
                let j = choose|j: int| 0 <= j < es.len() && es[j].0 == k;
                assert(nv[j] == k);
            }
        }
        r
    }

    /// Every binding as an owned pair, names pairwise distinct.
    pub fn var_pairs(&self) -> (r: Vec<(String, String)>)
        requires
            self.wf(),
        ensures
            unique_keys(entry_views(r@)),
            table_of(entry_views(r@)) == self@,
    {
        let n = self.entries.len();
        let mut r: Vec<(String, String)> = Vec::new();
        let mut i: usize = 0;
        while i < n
            invariant
                i <= n,
                n == self.entries@.len(),
                r@.len() == i,
                forall|j: int| 0 <= j < i ==> r@[j] == self.entries@[j],
            decreases n - i,
        {
            r.push((self.entries[i].0.clone(), self.entries[i].1.clone()));
            i = i + 1;
        }
        proof {
            assert(entry_views(r@) =~= entry_views(self.entries@));
        }
        r
    }

    /// Whether two tables hold exactly the same bindings.
    pub fn same_bindings(&self, other: &EnvTable) -> (r: bool)
        requires
            self.wf(),
            other.wf(),
        ensures
            r == (self@ == other@),
    {
        proof {
            lemma_table_of_characterized(entry_views(self.entries@));
            lemma_table_of_characterized(entry_views(other.entries@));
        }
        let n = self.entries.len();
        let mut i: usize = 0;
        while i < n
            invariant
                i <= n,
                n == self.entries@.len(),
                self.wf(),
                other.wf(),
                forall|j: int| 0 <= j < i ==> {
                    let k = (#[trigger] self.entries@[j]).0@;
                    other@.contains_key(k) && other@[k] == self.entries@[j].1@
                },
            decreases n - i,
        {
            proof {
                lemma_table_of_characterized(entry_views(self.entries@));
                assert(entry_views(self.entries@)[i as int].0 == self.entries@[i as int].0@);
            }
            match other.get(self.entries[i].0.as_str()) {
                Some(v) => {
                    if !(*v == self.entries[i].1) {
                        proof {
                            let k = self.entries@[i as int].0@;
                            assert(self@[k] == self.entries@[i as int].1@);
                        }
                        return false;
                    }
                },
                None => {
                    proof {
                        let k = self.entries@[i as int].0@;
                        assert(self@.contains_key(k));
                    }
                    return false;
                },
            }
            i = i + 1;
        }
        let m = other.entries.len();
        let mut j: usize = 0;
        while j < m
            invariant
                j <= m,
                m == other.entries@.len(),
                self.wf(),
                other.wf(),
                forall|p: int| 0 <= p < self.entries@.len() ==> {
                    let k = (#[trigger] self.entries@[p]).0@;
                    other@.contains_key(k) && other@[k] == self.entries@[p].1@
                },
                forall|q: int| 0 <= q < j ==> self@.contains_key(
                    (#[trigger] other.entries@[q]).0@,
                ),
            decreases m - j,
        {
            proof {
                lemma_table_of_characterized(entry_views(other.entries@));
                assert(entry_views(other.entries@)[j as int].0 == other.entries@[j as int].0@);
            }
            match self.get(other.entries[j].0.as_str()) {
                Some(_) => {},
                None => {
                    proof {
                        let k = other.entries@[j as int].0@;
                        assert(other@.contains_key(k));
                    }
                    return false;
                },
            }
            j = j + 1;
        }
        proof {
            let es = entry_views(self.entries@);
            let os = entry_views(other.entries@);
            lemma_table_of_characterized(es);
            lemma_table_of_characterized(os);
            assert forall|k: Seq<char>| #[trigger] self@.contains_key(k)
                implies other@.contains_key(k) && other@[k] == self@[k] by {
                let p = choose|p: int| 0 <= p < es.len() && es[p].0 == k;
                assert(self.entries@[p].0@ == k);
                assert(self@[k] == es[p].1);
            }
            assert forall|k: Seq<char>| #[trigger] other@.contains_key(k)
                implies self@.contains_key(k) by {
                let q = choose|q: int| 0 <= q < os.len() && os[q].0 == k;
                assert(other.entries@[q].0@ == k);
            }
            assert(self@ =~= other@);
        }
        true
    }
}

} // verus!
