//! Merging two configuration tables: keys whose values are tables on both
//! sides have their entries combined, the overlay winning inside; any other
//! overlay value replaces the base value outright; a table meeting a
//! non-table is a conflict.  Only the top level merges; nothing deeper.
use vstd::prelude::*;

use crate::errors::UserError;
use crate::table::{
    entries_view, lemma_canonical, lemma_entries_view, lemma_mo_concat, lemma_mo_contains,
    lemma_mo_index, lemma_mo_mid_fresh, lemma_sorted_distinct, lemma_tab_values_wf, map_of,
    sorted_entries, tab_values_wf, view_wf, ConfigTable, ConfigValue, Entries, ValueView,
};

verus! {

/// A conflict at one key: the overlay brings a table where the base holds a
/// plain value.
pub open spec fn merge_conflict_at(
    b: Map<Seq<char>, ValueView>,
    o: Map<Seq<char>, ValueView>,
    k: Seq<char>,
) -> bool {
    o.contains_key(k) && b.contains_key(k) && (o[k] is Tab) && !(b[k] is Tab)
}

/// The merge succeeds exactly when no key conflicts.
pub open spec fn merge_ok(b: Map<Seq<char>, ValueView>, o: Map<Seq<char>, ValueView>) -> bool {
    forall|k: Seq<char>| !(#[trigger] merge_conflict_at(b, o, k))
}

/// What the merged map holds at one key.
pub open spec fn merged_at(
    b: Map<Seq<char>, ValueView>,
    o: Map<Seq<char>, ValueView>,
    r: Map<Seq<char>, ValueView>,
    k: Seq<char>,
) -> bool {
    if o.contains_key(k) {
        if b.contains_key(k) && (b[k] is Tab) && (o[k] is Tab) {
            r[k] is Tab && map_of(r[k]->Tab_0) == map_of(b[k]->Tab_0).union_prefer_right(
                map_of(o[k]->Tab_0),
            )
        } else {
            r[k] == o[k]
        }
    } else if b.contains_key(k) {
        r[k] == b[k]
    } else {
        true
    }
}

/// The merged map: overlay keys decide, base keys fill in the rest.
pub open spec fn merged(
    b: Map<Seq<char>, ValueView>,
    o: Map<Seq<char>, ValueView>,
    r: Map<Seq<char>, ValueView>,
) -> bool {
    r.dom() == b.dom().union(o.dom()) && forall|k: Seq<char>| #[trigger] merged_at(b, o, r, k)
}

/// Combines two sorted tables, the second winning on every key collision.
fn extend(into: ConfigTable, from: ConfigTable) -> (r: ConfigTable)
    requires
        into.wf(),
        from.wf(),
    ensures
        r.wf(),
        r.as_map() == into.as_map().union_prefer_right(from.as_map()),
{
    let ghost total = from@;
    let ghost base_map = into.as_map();
    proof {
        lemma_entries_view(from.entries@);
        lemma_sorted_distinct(total);
        lemma_tab_values_wf(total);
    }
    let mut result = into;
    let mut rest = from.entries;
    proof {
        assert(entries_view(rest@) =~= total.skip(0));
        assert(map_of(total.take(0)) =~= Map::<Seq<char>, ValueView>::empty());
        assert(result.as_map() =~= base_map.union_prefer_right(map_of(total.take(0))));
    }
    while rest.len() > 0
        invariant
            result.wf(),
            total.len() >= rest@.len(),
            entries_view(rest@) =~= total.skip(total.len() - rest@.len()),
            result.as_map() == base_map.union_prefer_right(
                map_of(total.take(total.len() - rest@.len())),
            ),
            forall|t: int| 0 <= t < total.len() ==> #[trigger] view_wf(total[t].1),
        decreases rest@.len(),
    {
        let ghost done = total.len() - rest@.len();
        let ghost rest0 = rest@;
        let (k, v) = rest.remove(0);
        proof {
            lemma_entries_view(rest0);
            assert(entries_view(rest0)[0] == (k@, v@));
            assert((k@, v@) == total[done]);
            assert(view_wf(total[done].1));
            assert(v.wf());
            lemma_entries_view(rest@);
            assert forall|t: int| 0 <= t < rest@.len() implies #[trigger] entries_view(rest@)[t]
                == total.skip(done + 1)[t] by {
                assert(rest@[t] == rest0[t + 1]);
                assert(entries_view(rest0)[t + 1] == total.skip(done)[t + 1]);
            }
            assert(entries_view(rest@) =~= total.skip(done + 1));
        }
        result.set(k, v);
        proof {
            assert(total.take(done + 1) =~= total.take(done).push(total[done]));
            assert(total.take(done + 1).drop_last() =~= total.take(done));
            assert(map_of(total.take(done + 1)) == map_of(total.take(done)).insert(k@, v@));
            assert(result.as_map() =~= base_map.union_prefer_right(map_of(total.take(done + 1))));
        }
    }
    proof {
        assert(total.take(total.len() as int) =~= total);
        assert(result.as_map() == base_map.union_prefer_right(map_of(total)));
    }
    result
}

/// Merges the overlay manifest into the base manifest: top-level tables are
/// combined entry by entry, anything else is replaced, and a table meeting a
/// non-table fails.  The result is exactly the merged map, in sorted form.
pub fn merge_manifest(base: ConfigTable, overlay: ConfigTable) -> (r: Result<
    ConfigTable,
    UserError,
>)
    requires
        base.wf(),
        overlay.wf(),
    ensures
        r is Ok <==> merge_ok(base.as_map(), overlay.as_map()),
        r matches Ok(t) ==> t.wf() && merged(base.as_map(), overlay.as_map(), t.as_map()),
        r matches Err(e) ==> e is MergeConflict,
{
    let ghost b = base.as_map();
    let ghost total = overlay@;
    proof {
        lemma_entries_view(overlay.entries@);
        lemma_sorted_distinct(total);
        lemma_tab_values_wf(total);
    }
    let ghost o_full = overlay.as_map();
    let mut result = base;
    let mut rest = overlay.entries;
    proof {
        assert(entries_view(rest@) =~= total.skip(0));
        assert(map_of(total.take(0)) =~= Map::<Seq<char>, ValueView>::empty());
        assert(result.as_map().dom() =~= b.dom().union(map_of(total.take(0)).dom()));
        assert(forall|k2: Seq<char>| #[trigger] merged_at(b, map_of(total.take(0)), b, k2));
        assert(merged(b, map_of(total.take(0)), result.as_map()));
    }
    while rest.len() > 0
        invariant
            result.wf(),
            b == base.as_map(),
            o_full == overlay.as_map(),
            o_full == map_of(total),
            total.len() >= rest@.len(),
            sorted_entries(total),
            entries_view(rest@) =~= total.skip(total.len() - rest@.len()),
            merged(b, map_of(total.take(total.len() - rest@.len())), result.as_map()),
            forall|t: int| 0 <= t < total.len() ==> #[trigger] view_wf(total[t].1),
            forall|t: int|
                0 <= t < total.len() - rest@.len() ==> !merge_conflict_at(
                    b,
                    map_of(total),
                    (#[trigger] total[t]).0,
                ),
        decreases rest@.len(),
    {
        let ghost done = total.len() - rest@.len();
        let ghost pmap = map_of(total.take(done));
        let ghost rest0 = rest@;
        let (k, v) = rest.remove(0);
        proof {
            lemma_entries_view(rest0);
            assert(entries_view(rest0)[0] == (k@, v@));
            assert((k@, v@) == total[done]);
            assert(view_wf(total[done].1));
            assert(v.wf());
            lemma_entries_view(rest@);
            assert forall|t: int| 0 <= t < rest@.len() implies #[trigger] entries_view(rest@)[t]
                == total.skip(done + 1)[t] by {
                assert(rest@[t] == rest0[t + 1]);
                assert(entries_view(rest0)[t + 1] == total.skip(done)[t + 1]);
            }
            assert(entries_view(rest@) =~= total.skip(done + 1));
            // The key being processed is fresh: it is not among the already
            // processed entries.
            lemma_sorted_distinct(total);
            lemma_mo_contains(total.take(done), k@);
            assert(forall|t: int|
                0 <= t < done ==> (#[trigger] total.take(done)[t]) == total[t]);
            if map_of(total.take(done)).contains_key(k@) {
                let i = choose|i: int|
                    0 <= i < total.take(done).len() && (#[trigger] total.take(done)[i]).0 == k@;
                assert(total[i].0 == total[done].0);
                assert(false);
            }
            assert(!pmap.contains_key(k@));
            // Its value in the full overlay map is v's shape.
            lemma_mo_index(total, done);
            assert(map_of(total)[k@] == v@);
            lemma_mo_contains(total, k@);
            // What the result currently holds at this key is what the base
            // holds: the processed keys are all different from it.
            assert(merged_at(b, pmap, result.as_map(), k@));
        }
        let ghost rmap0 = result.as_map();
        let ghost vv = v@;
        match v {
            ConfigValue::Tab(sub) => {
                let taken = result.take(k.as_str());
                match taken {
                    Some((k0, ConfigValue::Tab(bsub))) => {
                        proof {
                            assert(rmap0.contains_key(k@) && rmap0[k@] == b[k@]);
                            assert(b[k@] is Tab && b[k@]->Tab_0 == bsub@);
                            assert(bsub.wf());
                        }
                        let merged_sub = extend(bsub, sub);
                        result.set(k0, ConfigValue::Tab(merged_sub));
                        proof {
                            assert(result.as_map() =~= rmap0.insert(
                                k@,
                                ValueView::Tab(merged_sub@),
                            ));
                        }
                    },
                    Some((k0, other)) => {
                        proof {
                            assert(rmap0.contains_key(k@) && rmap0[k@] == b[k@]);
                            assert(b[k@] == other@);
                            assert(!(b[k@] is Tab));
                            assert(o_full == map_of(total));
                            assert(o_full.contains_key(k@));
                            assert(o_full[k@] == vv);
                            assert(merge_conflict_at(b, o_full, k@));
                            assert(b == base.as_map() && o_full == overlay.as_map());
                            assert(merge_conflict_at(base.as_map(), overlay.as_map(), k@));
                            assert(!merge_ok(base.as_map(), overlay.as_map()));
                        }
                        return Err(UserError::MergeConflict);
                    },
                    None => {
                        proof {
                            assert(!rmap0.contains_key(k@));
                            assert(!b.contains_key(k@));
                        }
                        result.set(k, ConfigValue::Tab(sub));
                    },
                }
            },
            other => {
                result.set(k, other);
            },
        }
        proof {
            assert(total.take(done + 1) =~= total.take(done).push(total[done]));
            assert(total.take(done + 1).drop_last() =~= total.take(done));
            let pmap1 = map_of(total.take(done + 1));
            assert(pmap1 == pmap.insert(k@, v@));
            assert(result.as_map().dom() =~= b.dom().union(pmap1.dom()));
            assert forall|k2: Seq<char>| #[trigger] merged_at(b, pmap1, result.as_map(), k2) by {
                if k2 == k@ {
                } else {
                    assert(merged_at(b, pmap, rmap0, k2));
                    assert(pmap1.contains_key(k2) == pmap.contains_key(k2));
                    if pmap.contains_key(k2) || b.contains_key(k2) {
                        assert(result.as_map()[k2] == rmap0[k2]);
                    }
                }
            }
            assert(merged(b, pmap1, result.as_map()));
            assert forall|t: int| 0 <= t < done + 1 implies !merge_conflict_at(
                b,
                map_of(total),
                (#[trigger] total[t]).0,
            ) by {
                if t == done {
                    assert(map_of(total)[k@] == v@);
                }
            }
        }
    }
    proof {
        assert(total.take(total.len() as int) =~= total);
        assert(o_full == map_of(total));
        assert(merged(b, o_full, result.as_map()));
        assert forall|k2: Seq<char>| !(#[trigger] merge_conflict_at(b, o_full, k2)) by {
            if merge_conflict_at(b, o_full, k2) {
                lemma_mo_contains(total, k2);
                let t = choose|t: int| 0 <= t < total.len() && (#[trigger] total[t]).0 == k2;
                assert(!merge_conflict_at(b, map_of(total), total[t].0));
            }
        }
        assert(b == base.as_map() && o_full == overlay.as_map());
        assert(merge_ok(base.as_map(), overlay.as_map()));
        assert(merged(base.as_map(), overlay.as_map(), result.as_map()));
    }
    Ok(result)
}

/// Law: merging is deterministic.  Whatever order the inputs' entries were
/// assembled in, two well-formed results of merging the same two maps are
/// the same sequence of entries, entry for entry.
pub proof fn lemma_merge_deterministic(
    b: Map<Seq<char>, ValueView>,
    o: Map<Seq<char>, ValueView>,
    t1: Entries,
    t2: Entries,
)
    requires
        view_wf(ValueView::Tab(t1)),
        view_wf(ValueView::Tab(t2)),
        merged(b, o, map_of(t1)),
        merged(b, o, map_of(t2)),
    ensures
        t1 =~= t2,
{
    lemma_tab_values_wf(t1);
    lemma_tab_values_wf(t2);
    lemma_sorted_distinct(t1);
    lemma_sorted_distinct(t2);
    assert forall|k: Seq<char>|
        map_of(t1).dom().contains(k) implies map_of(t1)[k] == map_of(t2)[k] by {
        assert(merged_at(b, o, map_of(t1), k));
        assert(merged_at(b, o, map_of(t2), k));
        if o.contains_key(k) && b.contains_key(k) && (b[k] is Tab) && (o[k] is Tab) {
            let es1 = map_of(t1)[k]->Tab_0;
            let es2 = map_of(t2)[k]->Tab_0;
            lemma_mo_contains(t1, k);
            let i1 = choose|i: int| 0 <= i < t1.len() && (#[trigger] t1[i]).0 == k;
            lemma_mo_index(t1, i1);
            assert(view_wf(t1[i1].1));
            lemma_mo_contains(t2, k);
            let i2 = choose|i: int| 0 <= i < t2.len() && (#[trigger] t2[i]).0 == k;
            lemma_mo_index(t2, i2);
            assert(view_wf(t2[i2].1));
            lemma_tab_values_wf(es1);
            lemma_tab_values_wf(es2);
            assert(sorted_entries(es1) && sorted_entries(es2));
            assert(map_of(es1) == map_of(es2));
            lemma_canonical(es1, es2);
            assert(map_of(t1)[k] == ValueView::Tab(es1) && map_of(t2)[k] == ValueView::Tab(es2));
        }
    }
    assert(map_of(t1) =~= map_of(t2));
    lemma_canonical(t1, t2);
}

/// With no key shared, a merge is exactly the union of the two maps.
pub proof fn lemma_merge_union_disjoint(
    a: Map<Seq<char>, ValueView>,
    b: Map<Seq<char>, ValueView>,
    m: Map<Seq<char>, ValueView>,
)
    requires
        a.dom().disjoint(b.dom()),
        merged(a, b, m),
    ensures
        m =~= a.union_prefer_right(b),
{
    assert forall|k: Seq<char>|
        m.dom().contains(k) implies m[k] == a.union_prefer_right(b)[k] by {
        assert(merged_at(a, b, m, k));
        if b.contains_key(k) {
            assert(!a.contains_key(k));
        }
    }
}

/// Law: merging is associative over independent top-level keys.  When the
/// three maps share no key, merging the first two and then the third gives
/// the same map as merging the last two and then the first.
pub proof fn lemma_merge_assoc_independent(
    a: Map<Seq<char>, ValueView>,
    b: Map<Seq<char>, ValueView>,
    c: Map<Seq<char>, ValueView>,
    ab: Map<Seq<char>, ValueView>,
    ab_c: Map<Seq<char>, ValueView>,
    bc: Map<Seq<char>, ValueView>,
    a_bc: Map<Seq<char>, ValueView>,
)
    requires
        a.dom().disjoint(b.dom()),
        a.dom().disjoint(c.dom()),
        b.dom().disjoint(c.dom()),
        merged(a, b, ab),
        merged(ab, c, ab_c),
        merged(b, c, bc),
        merged(a, bc, a_bc),
    ensures
        ab_c =~= a_bc,
{
    lemma_merge_union_disjoint(a, b, ab);
    assert(ab.dom().disjoint(c.dom()));
    lemma_merge_union_disjoint(ab, c, ab_c);
    lemma_merge_union_disjoint(b, c, bc);
    assert(a.dom().disjoint(bc.dom()));
    lemma_merge_union_disjoint(a, bc, a_bc);
    assert(ab_c =~= a.union_prefer_right(b).union_prefer_right(c));
    assert(a_bc =~= a.union_prefer_right(b.union_prefer_right(c)));
    assert(a.union_prefer_right(b).union_prefer_right(c) =~= a.union_prefer_right(
        b.union_prefer_right(c),
    ));
}

} // verus!
