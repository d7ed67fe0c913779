//! The scenario store: a table of records keyed by identifier, read back
//! ordered by `updated_at` descending.
//!
//! The table contents are modelled as a map from identifier to record view;
//! a save is an insertion that replaces any record under the same key, and a
//! delete is a removal that is a no-op on an absent key.

use vstd::prelude::*;
use crate::order::{lex_leq, lex_le, lemma_lex_leq_refl, lemma_lex_leq_total, lemma_lex_leq_trans};
use crate::scenario::{SavedScenario, ScenarioView, clone_scenario};

verus! {

/// The sequence of record views held by a sequence of records.
pub open spec fn views_of(rows: Seq<SavedScenario>) -> Seq<ScenarioView> {
    rows.map_values(|s: SavedScenario| s@)
}

/// No two records share an identifier.
pub open spec fn ids_unique(rows: Seq<ScenarioView>) -> bool {
    forall|i: int, j: int| 0 <= i < j < rows.len() ==> rows[i].id != rows[j].id
}

/// Ordered by `updated_at` descending; records with equal timestamps may
/// stand in either order.
pub open spec fn sorted_by_updated_desc(rows: Seq<ScenarioView>) -> bool {
    forall|i: int, j: int|
        0 <= i < j < rows.len() ==> lex_leq(rows[j].updated_at, rows[i].updated_at)
}

/// The table contents of a sequence of records, as a map from identifier to
/// record; of several records with one identifier, the last stands.
pub open spec fn rows_as_map(rows: Seq<ScenarioView>) -> Map<Seq<char>, ScenarioView>
    decreases rows.len(),
{
    if rows.len() == 0 {
        Map::empty()
    } else {
        rows_as_map(rows.drop_last()).insert(rows.last().id, rows.last())
    }
}

/// What a save leaves in the table: the record stands under its identifier,
/// fully replacing any previous record with that identifier.
pub open spec fn save_model(m: Map<Seq<char>, ScenarioView>, s: ScenarioView) -> Map<
    Seq<char>,
    ScenarioView,
> {
    m.insert(s.id, s)
}

/// What a delete leaves in the table: the identifier is absent afterwards.
pub open spec fn delete_model(m: Map<Seq<char>, ScenarioView>, id: Seq<char>) -> Map<
    Seq<char>,
    ScenarioView,
> {
    m.remove(id)
}

/// Round trip: a saved record stands in the table under its identifier with
/// exactly the field values that were saved, so a read after a save hands it
/// back unchanged.
pub proof fn lemma_save_round_trip(m: Map<Seq<char>, ScenarioView>, s: ScenarioView)
    ensures
        save_model(m, s).contains_key(s.id),
        save_model(m, s)[s.id] == s,
{
}

/// Upsert idempotence: saving twice under one identifier leaves the table as
/// a single save of the second record would; exactly one record carries the
/// identifier, with the second save's values.
pub proof fn lemma_upsert_idempotent(
    m: Map<Seq<char>, ScenarioView>,
    first: ScenarioView,
    second: ScenarioView,
)
    requires
        first.id == second.id,
    ensures
        save_model(save_model(m, first), second) == save_model(m, second),
{
    assert(save_model(save_model(m, first), second) =~= save_model(m, second));
}

/// Delete idempotence: deleting an identifier that carries no record leaves
/// the table unchanged.
pub proof fn lemma_delete_absent_noop(m: Map<Seq<char>, ScenarioView>, id: Seq<char>)
    requires
        !m.contains_key(id),
    ensures
        delete_model(m, id) == m,
{
    assert(delete_model(m, id) =~= m);
}

/// Deleting twice is the same as deleting once.
pub proof fn lemma_delete_twice(m: Map<Seq<char>, ScenarioView>, id: Seq<char>)
    ensures
        delete_model(delete_model(m, id), id) == delete_model(m, id),
{
    assert(delete_model(delete_model(m, id), id) =~= delete_model(m, id));
}

/// A key is in the table exactly when some record carries it.
proof fn lemma_rows_as_map_contains(rows: Seq<ScenarioView>, k: Seq<char>)
    ensures
        rows_as_map(rows).contains_key(k) <==> exists|i: int|
            0 <= i < rows.len() && rows[i].id == k,
    decreases rows.len(),
{
    if rows.len() > 0 {
        let prefix = rows.drop_last();
        lemma_rows_as_map_contains(prefix, k);
        if rows.last().id == k {
            assert(rows[rows.len() - 1].id == k);
        } else if rows_as_map(rows).contains_key(k) {
            let i = choose|i: int| 0 <= i < prefix.len() && prefix[i].id == k;
            assert(rows[i].id == k);
        } else if exists|i: int| 0 <= i < rows.len() && rows[i].id == k {
            let i = choose|i: int| 0 <= i < rows.len() && rows[i].id == k;
            assert(prefix[i].id == k);
        }
    }
}

/// Under unique identifiers, each record stands in the table under its own
/// identifier.
proof fn lemma_rows_as_map_index(rows: Seq<ScenarioView>, i: int)
    requires
        ids_unique(rows),
        0 <= i < rows.len(),
    ensures
        rows_as_map(rows).contains_key(rows[i].id),
        rows_as_map(rows)[rows[i].id] == rows[i],
    decreases rows.len(),
{
    let prefix = rows.drop_last();
    if i == rows.len() - 1 {
    } else {
        assert(ids_unique(prefix));
        lemma_rows_as_map_index(prefix, i);
        assert(rows[i].id != rows.last().id);
    }
}

/// Appending a record inserts it into the table.
proof fn lemma_rows_as_map_push(rows: Seq<ScenarioView>, s: ScenarioView)
    ensures
        rows_as_map(rows.push(s)) == rows_as_map(rows).insert(s.id, s),
{
    assert(rows.push(s).drop_last() =~= rows);
    assert(rows.push(s).last() == s);
}

/// Under unique identifiers, removing a record removes its identifier from
/// the table.
proof fn lemma_rows_as_map_remove(rows: Seq<ScenarioView>, i: int)
    requires
        ids_unique(rows),
        0 <= i < rows.len(),
    ensures
        rows_as_map(rows.remove(i)) == rows_as_map(rows).remove(rows[i].id),
    decreases rows.len(),
{
    let prefix = rows.drop_last();
    let k = rows[i].id;
    if i == rows.len() - 1 {
        assert(rows.remove(i) =~= prefix);
        lemma_rows_as_map_contains(prefix, k);
        assert(forall|j: int| 0 <= j < prefix.len() ==> prefix[j].id != k);
        assert(!rows_as_map(prefix).contains_key(k));
        assert(rows_as_map(prefix) =~= rows_as_map(prefix).insert(k, rows.last()).remove(k));
    } else {
        assert(ids_unique(prefix));
        lemma_rows_as_map_remove(prefix, i);
        assert(rows.remove(i).drop_last() =~= prefix.remove(i));
        assert(rows.remove(i).last() == rows.last());
        assert(k != rows.last().id);
        assert(rows_as_map(prefix).remove(k).insert(rows.last().id, rows.last())
            =~= rows_as_map(prefix).insert(rows.last().id, rows.last()).remove(k));
    }
}

/// Finds the position of a record whose `updated_at` is greatest in the
/// lexicographic order.
fn index_of_latest(v: &Vec<SavedScenario>) -> (r: usize)
    requires
        v@.len() > 0,
    ensures
        r < v@.len(),
        forall|j: int|
            0 <= j < v@.len() ==> lex_leq(
                views_of(v@)[j].updated_at,
                views_of(v@)[r as int].updated_at,
            ),
{
    let mut best: usize = 0;
    proof {
        lemma_lex_leq_refl(views_of(v@)[0].updated_at);
    }
    let mut j: usize = 1;
    while j < v.len()
        invariant
            1 <= j <= v@.len(),
            best < j,
            forall|t: int|
                0 <= t < j ==> lex_leq(
                    views_of(v@)[t].updated_at,
                    views_of(v@)[best as int].updated_at,
                ),
        decreases v@.len() - j,
    {
        if !lex_le(v[j].updated_at.as_str(), v[best].updated_at.as_str()) {
            proof {
                let vv = views_of(v@);
                lemma_lex_leq_total(vv[j as int].updated_at, vv[best as int].updated_at);
                assert forall|t: int| 0 <= t < j implies lex_leq(
                    vv[t].updated_at,
                    vv[j as int].updated_at,
                ) by {
                    lemma_lex_leq_trans(
                        vv[t].updated_at,
                        vv[best as int].updated_at,
                        vv[j as int].updated_at,
                    );
                }
                lemma_lex_leq_refl(vv[j as int].updated_at);
            }
            best = j;
        }
        j = j + 1;
    }
    best
}

/// Reorders the records so that `updated_at` runs descending; the records
/// themselves are kept, none added or lost.
pub fn sort_by_updated_desc(v: &mut Vec<SavedScenario>)
    ensures
        sorted_by_updated_desc(views_of(final(v)@)),
        views_of(final(v)@).to_multiset() == views_of(old(v)@).to_multiset(),
{
    broadcast use vstd::seq_lib::group_to_multiset_ensures;

    let mut out: Vec<SavedScenario> = Vec::new();
    proof {
        assert(views_of(out@) =~= Seq::<ScenarioView>::empty());
        assert(views_of(out@).to_multiset().add(views_of(v@).to_multiset()) =~= views_of(
            v@,
        ).to_multiset());
    }
    while v.len() > 0
        invariant
            views_of(out@).to_multiset().add(views_of(v@).to_multiset()) == views_of(
                old(v)@,
            ).to_multiset(),
            sorted_by_updated_desc(views_of(out@)),
            forall|p: int, q: int|
                0 <= p < views_of(out@).len() && 0 <= q < views_of(v@).len() ==> lex_leq(
                    views_of(v@)[q].updated_at,
                    views_of(out@)[p].updated_at,
                ),
        decreases v@.len(),
    {
        let ghost vv = views_of(v@);
        let ghost oo = views_of(out@);
        let k = index_of_latest(v);
        let x = v.remove(k);
        out.push(x);
        proof {
            broadcast use vstd::multiset::group_multiset_axioms;

            let e = vv[k as int];
            assert(x@ == e);
            assert(views_of(v@) =~= vv.remove(k as int));
            assert(views_of(out@) =~= oo.push(e));
            vv.to_multiset_ensures();
            oo.to_multiset_ensures();
            assert(vv.contains(e)) by {
                assert(vv[k as int] == e);
            }
            assert(vv.to_multiset().count(e) > 0);
            assert(oo.push(e).to_multiset() == oo.to_multiset().insert(e));
            assert(vv.remove(k as int).to_multiset() == vv.to_multiset().remove(e));
            assert(oo.to_multiset().insert(e).add(vv.to_multiset().remove(e))
                =~= oo.to_multiset().add(vv.to_multiset()));
            assert(sorted_by_updated_desc(oo.push(e))) by {
                assert forall|p: int, q: int| 0 <= p < q < oo.push(e).len() implies lex_leq(
                    oo.push(e)[q].updated_at,
                    oo.push(e)[p].updated_at,
                ) by {
                    if q < oo.len() {
                        assert(lex_leq(oo[q].updated_at, oo[p].updated_at));
                    } else {
                        assert(oo.push(e)[q] == e);
                        assert(lex_leq(vv[k as int].updated_at, oo[p].updated_at));
                    }
                }
            }
            assert forall|p: int, q: int|
                0 <= p < views_of(out@).len() && 0 <= q < views_of(v@).len() implies lex_leq(
                views_of(v@)[q].updated_at,
                views_of(out@)[p].updated_at,
            ) by {
                let f = vv.remove(k as int)[q];
                assert(f == if q < k { vv[q] } else { vv[q + 1] });
                assert(lex_leq(f.updated_at, vv[k as int].updated_at));
                if p < oo.len() {
                    assert(lex_leq(f.updated_at, oo[p].updated_at));
                } else {
                    assert(views_of(out@)[p] == e);
                }
            }
        }
    }
    proof {
        assert(views_of(v@) =~= Seq::<ScenarioView>::empty());
        assert(views_of(out@).to_multiset().add(views_of(v@).to_multiset()) =~= views_of(
            out@,
        ).to_multiset());
    }
    *v = out;
}

/// The scenario store: an in-memory table of records with unique
/// identifiers.
pub struct ScenarioStore {
    rows: Vec<SavedScenario>,
}

impl View for ScenarioStore {
    type V = Map<Seq<char>, ScenarioView>;

    /// The table contents: a map from identifier to record view.
    closed spec fn view(&self) -> Map<Seq<char>, ScenarioView> {
        rows_as_map(views_of(self.rows@))
    }
}

impl ScenarioStore {
    /// Well-formedness: no two records share an identifier.
    pub closed spec fn wf(&self) -> bool {
        ids_unique(views_of(self.rows@))
    }

    /// Creates an empty store.
    pub fn new() -> (r: ScenarioStore)
        ensures
            r.wf(),
            r@ == Map::<Seq<char>, ScenarioView>::empty(),
    {
        let r = ScenarioStore { rows: Vec::new() };
        proof {
            assert(views_of(r.rows@) =~= Seq::<ScenarioView>::empty());
        }
        r
    }

    /// Finds the position of the record carrying `id`, if any.
    fn find_index(&self, id: &String) -> (r: Option<usize>)
        ensures
            match r {
                Some(i) => i < self.rows@.len() && views_of(self.rows@)[i as int].id == id@,
                None => forall|i: int|
                    0 <= i < self.rows@.len() ==> views_of(self.rows@)[i].id != id@,
            },
    {
        let mut i: usize = 0;
        while i < self.rows.len()
            invariant
                i <= self.rows@.len(),
                forall|j: int| 0 <= j < i ==> views_of(self.rows@)[j].id != id@,
            decreases self.rows@.len() - i,
        {
            if self.rows[i].id == *id {
                return Some(i);
            }
            i = i + 1;
        }
        None
    }

    /// Saves a record: inserts it if its identifier is unseen, otherwise
    /// fully replaces the record that carries it.
    pub fn save(&mut self, scenario: SavedScenario)
        requires
            old(self).wf(),
        ensures
            final(self).wf(),
            final(self)@ == save_model(old(self)@, scenario@),
    {
        let ghost rows0 = views_of(self.rows@);
        let idx = self.find_index(&scenario.id);
        match idx {
            Some(i) => {
                let ghost k = rows0[i as int].id;
                self.rows.remove(i);
                proof {
                    assert(views_of(self.rows@) =~= rows0.remove(i as int));
                    lemma_rows_as_map_remove(rows0, i as int);
                    assert(ids_unique(rows0.remove(i as int))) by {
                        assert(forall|p: int, q: int|
                            0 <= p < q < rows0.remove(i as int).len() ==> rows0.remove(
                                i as int,
                            )[p].id != rows0.remove(i as int)[q].id);
                    }
                    assert(forall|j: int|
                        0 <= j < rows0.remove(i as int).len() ==> rows0.remove(i as int)[j].id
                            != k);
                }
                let ghost rows1 = views_of(self.rows@);
                self.rows.push(scenario);
                proof {
                    assert(views_of(self.rows@) =~= rows1.push(scenario@));
                    lemma_rows_as_map_push(rows1, scenario@);
                    assert(rows_as_map(rows0).remove(k).insert(scenario@.id, scenario@)
                        =~= rows_as_map(rows0).insert(scenario@.id, scenario@));
                }
            },
            None => {
                self.rows.push(scenario);
                proof {
                    assert(views_of(self.rows@) =~= rows0.push(scenario@));
                    lemma_rows_as_map_push(rows0, scenario@);
                }
            },
        }
    }

    /// Reads all records back, ordered by `updated_at` descending (records
    /// with equal timestamps in no fixed order). The result carries exactly
    /// the table's records: each returned record stands in the table under
    /// its identifier, every identifier in the table is returned, and no
    /// identifier is returned twice. An empty store yields an empty vector.
    pub fn list(&self) -> (r: Vec<SavedScenario>)
        requires
            self.wf(),
        ensures
            sorted_by_updated_desc(views_of(r@)),
            ids_unique(views_of(r@)),
            forall|i: int|
                0 <= i < r@.len() ==> self@.contains_key(#[trigger] views_of(r@)[i].id)
                    && self@[views_of(r@)[i].id] == views_of(r@)[i],
            forall|k: Seq<char>|
                #[trigger] self@.contains_key(k) ==> exists|i: int|
                    0 <= i < r@.len() && views_of(r@)[i].id == k,
    {
        let ghost vs = views_of(self.rows@);
        let mut r: Vec<SavedScenario> = Vec::new();
        proof {
            assert(views_of(r@) =~= vs.take(0));
        }
        let mut i: usize = 0;
        while i < self.rows.len()
            invariant
                i <= self.rows@.len(),
                vs == views_of(self.rows@),
                views_of(r@) == vs.take(i as int),
            decreases self.rows@.len() - i,
        {
            let ghost pre = views_of(r@);
            let s = clone_scenario(&self.rows[i]);
            r.push(s);
            proof {
                assert(views_of(r@) =~= pre.push(s@));
                assert(s@ == vs[i as int]);
                assert(vs.take(i as int + 1) =~= vs.take(i as int).push(vs[i as int]));
            }
            i = i + 1;
        }
        proof {
            assert(views_of(r@) =~= vs);
        }
        sort_by_updated_desc(&mut r);
        proof {
            broadcast use vstd::multiset::group_multiset_axioms;

            let vr = views_of(r@);
            vs.to_multiset_ensures();
            vr.to_multiset_ensures();
            assert(vr.to_multiset() == vs.to_multiset());
            assert(vs.no_duplicates()) by {
                assert forall|p: int, q: int|
                    0 <= p < vs.len() && 0 <= q < vs.len() && p != q implies vs[p] != vs[q] by {
                    assert(vs[p].id != vs[q].id);
                }
            }
            vs.lemma_multiset_has_no_duplicates();
            vr.lemma_multiset_has_no_duplicates_conv();
            assert(ids_unique(vr)) by {
                assert forall|p: int, q: int| 0 <= p < q < vr.len() implies vr[p].id != vr[q].id by {
                    if vr[p].id == vr[q].id {
                        assert(vr[p] != vr[q]);
                        assert(vr.contains(vr[p]));
                        assert(vr.contains(vr[q]));
                        assert(vs.to_multiset().count(vr[p]) > 0);
                        assert(vs.to_multiset().count(vr[q]) > 0);
                        assert(vs.contains(vr[p]));
                        assert(vs.contains(vr[q]));
                        let p2 = choose|u: int| 0 <= u < vs.len() && vs[u] == vr[p];
                        let q2 = choose|u: int| 0 <= u < vs.len() && vs[u] == vr[q];
                        assert(vs[p2].id == vs[q2].id);
                        assert(p2 != q2);
                    }
                }
            }
            assert forall|t: int| 0 <= t < r@.len() implies self@.contains_key(
                #[trigger] views_of(r@)[t].id,
            ) && self@[views_of(r@)[t].id] == views_of(r@)[t] by {
                assert(vr.contains(vr[t]));
                assert(vs.to_multiset().count(vr[t]) > 0);
                assert(vs.contains(vr[t]));
                let u = choose|u: int| 0 <= u < vs.len() && vs[u] == vr[t];
                lemma_rows_as_map_index(vs, u);
            }
            assert forall|k: Seq<char>| #[trigger] self@.contains_key(k) implies exists|t: int|
                0 <= t < r@.len() && views_of(r@)[t].id == k by {
                lemma_rows_as_map_contains(vs, k);
                let u = choose|u: int| 0 <= u < vs.len() && vs[u].id == k;
                assert(vs.contains(vs[u])) by {
                    assert(vs[u] == vs[u]);
                }
                assert(vr.to_multiset().count(vs[u]) > 0);
                assert(vr.contains(vs[u]));
                let t = choose|t: int| 0 <= t < vr.len() && vr[t] == vs[u];
                assert(0 <= t < r@.len() && views_of(r@)[t].id == k);
            }
        }
        r
    }

    /// Deletes the record carrying `id`; deleting an absent identifier is a
    /// successful no-op.
    pub fn delete(&mut self, id: &String)
        requires
            old(self).wf(),
        ensures
            final(self).wf(),
            final(self)@ == delete_model(old(self)@, id@),
    {
        let ghost rows0 = views_of(self.rows@);
        let idx = self.find_index(id);
        match idx {
            Some(i) => {
                self.rows.remove(i);
                proof {
                    assert(views_of(self.rows@) =~= rows0.remove(i as int));
                    lemma_rows_as_map_remove(rows0, i as int);
                    assert(ids_unique(rows0.remove(i as int))) by {
                        assert(forall|p: int, q: int|
                            0 <= p < q < rows0.remove(i as int).len() ==> rows0.remove(
                                i as int,
                            )[p].id != rows0.remove(i as int)[q].id);
                    }
                }
            },
            None => {
                proof {
                    lemma_rows_as_map_contains(rows0, id@);
                    assert(rows_as_map(rows0) =~= rows_as_map(rows0).remove(id@));
                }
            },
        }
    }
}

} // verus!
