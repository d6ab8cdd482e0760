//! The generic nested configuration table: string keys mapped to strings,
//! integers, booleans, lists, nested tables, or values carried through
//! opaquely from the parser.  A table keeps its entries strictly sorted by
//! key, so equal contents always have equal shape.
use vstd::prelude::*;

use crate::text::{lex_lt, lemma_lex_irrefl, lemma_lex_total, lemma_lex_trans, str_eq, str_lt};

verus! {

/// One value of a configuration table.
pub enum ConfigValue {
    Str(String),
    Int(i64),
    Bool(bool),
    Arr(Vec<ConfigValue>),
    Tab(ConfigTable),
    /// A value the merger never inspects (a float, a date), carried through
    /// exactly as the parser produced it.
    Other(toml::Value),
}

/// A table: entries strictly sorted by key.
pub struct ConfigTable {
    pub entries: Vec<(String, ConfigValue)>,
}

/// The mathematical shape of a `ConfigValue`.
#[verifier::ext_equal]
pub ghost enum ValueView {
    Str(Seq<char>),
    Int(int),
    Bool(bool),
    Arr(Seq<ValueView>),
    Tab(Seq<(Seq<char>, ValueView)>),
    Other(toml::Value),
}

pub type Entries = Seq<(Seq<char>, ValueView)>;

pub open spec fn value_view(v: ConfigValue) -> ValueView
    decreases v,
{
    match v {
        ConfigValue::Str(s) => ValueView::Str(s@),
        ConfigValue::Int(i) => ValueView::Int(i as int),
        ConfigValue::Bool(b) => ValueView::Bool(b),
        ConfigValue::Arr(a) => ValueView::Arr(arr_view(a@)),
        ConfigValue::Tab(t) => ValueView::Tab(entries_view(t.entries@)),
        ConfigValue::Other(v) => ValueView::Other(v),
    }
}

pub open spec fn arr_view(s: Seq<ConfigValue>) -> Seq<ValueView>
    decreases s,
{
    if s.len() == 0 {
        Seq::empty()
    } else {
        arr_view(s.drop_last()).push(value_view(s.last()))
    }
}

pub open spec fn entries_view(s: Seq<(String, ConfigValue)>) -> Entries
    decreases s,
{
    if s.len() == 0 {
        Seq::empty()
    } else {
        entries_view(s.drop_last()).push((s.last().0@, value_view(s.last().1)))
    }
}

impl View for ConfigValue {
    type V = ValueView;

    open spec fn view(&self) -> ValueView {
        value_view(*self)
    }
}

impl View for ConfigTable {
    type V = Entries;

    open spec fn view(&self) -> Entries {
        entries_view(self.entries@)
    }
}

pub proof fn lemma_arr_view(s: Seq<ConfigValue>)
    ensures
        arr_view(s).len() == s.len(),
        forall|i: int| 0 <= i < s.len() ==> arr_view(s)[i] == value_view(#[trigger] s[i]),
    decreases s,
{
    if s.len() > 0 {
        lemma_arr_view(s.drop_last());
        assert forall|i: int| 0 <= i < s.len() implies arr_view(s)[i] == value_view(
            #[trigger] s[i],
        ) by {
            if i < s.len() - 1 {
                assert(s.drop_last()[i] == s[i]);
                assert(arr_view(s.drop_last())[i] == value_view(s.drop_last()[i]));
            } else {
                assert(s.last() == s[i]);
            }
        }
    }
}

pub proof fn lemma_entries_view(s: Seq<(String, ConfigValue)>)
    ensures
        entries_view(s).len() == s.len(),
        forall|i: int|
            0 <= i < s.len() ==> entries_view(s)[i] == ((#[trigger] s[i]).0@, value_view(s[i].1)),
    decreases s,
{
    if s.len() > 0 {
        lemma_entries_view(s.drop_last());
        assert forall|i: int| 0 <= i < s.len() implies entries_view(s)[i] == (
            (#[trigger] s[i]).0@,
            value_view(s[i].1),
        ) by {
            if i < s.len() - 1 {
                assert(s.drop_last()[i] == s[i]);
                assert(entries_view(s.drop_last())[i] == (
                    s.drop_last()[i].0@,
                    value_view(s.drop_last()[i].1),
                ));
            } else {
                assert(s.last() == s[i]);
            }
        }
    }
}

/// Keys strictly increase, so they are also pairwise distinct.
pub open spec fn sorted_entries(es: Entries) -> bool {
    forall|i: int, j: int| 0 <= i < j < es.len() ==> lex_lt(#[trigger] es[i].0, #[trigger] es[j].0)
}

/// Well-formedness of a value: every table in it, at any depth, is sorted.
pub open spec fn view_wf(v: ValueView) -> bool
    decreases v,
{
    match v {
        ValueView::Arr(a) => arr_wf(a),
        ValueView::Tab(es) => sorted_entries(es) && tab_values_wf(es),
        _ => true,
    }
}

pub open spec fn arr_wf(a: Seq<ValueView>) -> bool
    decreases a,
{
    if a.len() == 0 {
        true
    } else {
        arr_wf(a.drop_last()) && view_wf(a.last())
    }
}

pub open spec fn tab_values_wf(es: Entries) -> bool
    decreases es,
{
    if es.len() == 0 {
        true
    } else {
        tab_values_wf(es.drop_last()) && view_wf(es.last().1)
    }
}

pub proof fn lemma_arr_wf(a: Seq<ValueView>)
    ensures
        arr_wf(a) <==> (forall|i: int| 0 <= i < a.len() ==> #[trigger] view_wf(a[i])),
    decreases a,
{
    if a.len() > 0 {
        lemma_arr_wf(a.drop_last());
        if arr_wf(a) {
            assert forall|i: int| 0 <= i < a.len() implies #[trigger] view_wf(a[i]) by {
                if i < a.len() - 1 {
                    assert(a.drop_last()[i] == a[i]);
                    assert(view_wf(a.drop_last()[i]));
                } else {
                    assert(a.last() == a[i]);
                }
            }
        }
        if forall|i: int| 0 <= i < a.len() ==> #[trigger] view_wf(a[i]) {
            assert forall|i: int| 0 <= i < a.drop_last().len() implies #[trigger] view_wf(
                a.drop_last()[i],
            ) by {
                assert(a.drop_last()[i] == a[i]);
            }
            assert(view_wf(a[a.len() - 1]));
            assert(arr_wf(a));
        }
    }
}

pub proof fn lemma_tab_values_wf(es: Entries)
    ensures
        tab_values_wf(es) <==> (forall|i: int|
            0 <= i < es.len() ==> #[trigger] view_wf(es[i].1)),
    decreases es,
{
    if es.len() > 0 {
        lemma_tab_values_wf(es.drop_last());
        if tab_values_wf(es) {
            assert forall|i: int| 0 <= i < es.len() implies #[trigger] view_wf(es[i].1) by {
                if i < es.len() - 1 {
                    assert(es.drop_last()[i] == es[i]);
                    assert(view_wf(es.drop_last()[i].1));
                } else {
                    assert(es.last() == es[i]);
                }
            }
        }
        if forall|i: int| 0 <= i < es.len() ==> #[trigger] view_wf(es[i].1) {
            assert forall|i: int| 0 <= i < es.drop_last().len() implies #[trigger] view_wf(
                es.drop_last()[i].1,
            ) by {
                assert(es.drop_last()[i] == es[i]);
            }
            assert(view_wf(es[es.len() - 1].1));
            assert(tab_values_wf(es));
        }
    }
}

impl ConfigValue {
    pub open spec fn wf(self) -> bool {
        view_wf(self@)
    }
}

impl ConfigTable {
    pub open spec fn wf(self) -> bool {
        view_wf(ValueView::Tab(self@))
    }

    /// The table seen as a finite map from key to value shape.
    pub open spec fn as_map(self) -> Map<Seq<char>, ValueView> {
        map_of(self@)
    }
}

/// The map described by a sequence of entries; a later entry wins.
pub open spec fn map_of(es: Entries) -> Map<Seq<char>, ValueView>
    decreases es.len(),
{
    if es.len() == 0 {
        Map::empty()
    } else {
        map_of(es.drop_last()).insert(es.last().0, es.last().1)
    }
}

pub proof fn lemma_sorted_distinct(es: Entries)
    requires
        sorted_entries(es),
    ensures
        forall|i: int, j: int|
            0 <= i < es.len() && 0 <= j < es.len() && i != j ==> (#[trigger] es[i].0)
                != (#[trigger] es[j].0),
{
    assert forall|i: int, j: int|
        0 <= i < es.len() && 0 <= j < es.len() && i != j implies (#[trigger] es[i].0)
        != (#[trigger] es[j].0) by {
        if i < j {
            if es[i].0 == es[j].0 {
                lemma_lex_irrefl(es[i].0);
            }
        } else {
            if es[i].0 == es[j].0 {
                lemma_lex_irrefl(es[i].0);
            }
        }
    }
}

/// A key is in the map exactly when some entry carries it.
pub proof fn lemma_mo_contains(es: Entries, k: Seq<char>)
    ensures
        map_of(es).contains_key(k) <==> exists|i: int| 0 <= i < es.len() && (#[trigger] es[i]).0
            == k,
    decreases es.len(),
{
    if es.len() > 0 {
        lemma_mo_contains(es.drop_last(), k);
        if es.last().0 == k {
            assert(es[es.len() - 1].0 == k);
        } else {
            if exists|i: int| 0 <= i < es.len() && (#[trigger] es[i]).0 == k {
                let i = choose|i: int| 0 <= i < es.len() && (#[trigger] es[i]).0 == k;
                if map_of(es).contains_key(k) {
                } else {
                    assert(0 <= i < es.len() - 1);
                    assert(es.drop_last()[i] == es[i]);
                }
            }
        }
    }
}

/// With distinct keys, each entry's value is the map's value at its key.
pub proof fn lemma_mo_index(es: Entries, i: int)
    requires
        0 <= i < es.len(),
        forall|p: int, q: int|
            0 <= p < es.len() && 0 <= q < es.len() && p != q ==> (#[trigger] es[p].0)
                != (#[trigger] es[q].0),
    ensures
        map_of(es).contains_key(es[i].0),
        map_of(es)[es[i].0] == es[i].1,
    decreases es.len(),
{
    lemma_mo_contains(es, es[i].0);
    if i == es.len() - 1 {
    } else {
        assert(es.drop_last()[i] == es[i]);
        lemma_mo_index(es.drop_last(), i);
        assert(es[es.len() - 1].0 != es[i].0);
    }
}

/// The map of a concatenation is the union, later entries preferred.
pub proof fn lemma_mo_concat(a: Entries, b: Entries)
    ensures
        map_of(a + b) == map_of(a).union_prefer_right(map_of(b)),
    decreases b.len(),
{
    if b.len() == 0 {
        assert(a + b =~= a);
        assert(map_of(a).union_prefer_right(map_of(b)) =~= map_of(a));
    } else {
        lemma_mo_concat(a, b.drop_last());
        assert(a + b =~= (a + b.drop_last()).push(b.last()));
        assert((a + b.drop_last()).push(b.last()).drop_last() =~= a + b.drop_last());
        assert(map_of(a + b) == map_of(a + b.drop_last()).insert(b.last().0, b.last().1));
        assert(map_of(a).union_prefer_right(map_of(b.drop_last())).insert(b.last().0, b.last().1)
            =~= map_of(a).union_prefer_right(map_of(b)));
    }
}

/// Inserting an entry whose key does not occur to its right acts as a map
/// insertion over the concatenation.
pub proof fn lemma_mo_mid_fresh(a: Entries, e: (Seq<char>, ValueView), b: Entries)
    requires
        forall|i: int| 0 <= i < b.len() ==> (#[trigger] b[i]).0 != e.0,
    ensures
        map_of(a + seq![e] + b) == map_of(a).union_prefer_right(map_of(b)).insert(e.0, e.1),
    decreases b.len(),
{
    if b.len() == 0 {
        assert(a + seq![e] + b =~= a.push(e));
        assert(a.push(e).drop_last() =~= a);
        assert(map_of(a + seq![e] + b) == map_of(a).insert(e.0, e.1));
        assert(map_of(a).union_prefer_right(map_of(b)).insert(e.0, e.1) =~= map_of(a).insert(
            e.0,
            e.1,
        ));
    } else {
        lemma_mo_mid_fresh(a, e, b.drop_last());
        assert(a + seq![e] + b =~= (a + seq![e] + b.drop_last()).push(b.last()));
        assert((a + seq![e] + b.drop_last()).push(b.last()).drop_last() =~= a + seq![e]
            + b.drop_last());
        assert(b[b.len() - 1].0 != e.0);
        assert(map_of(a).union_prefer_right(map_of(b.drop_last())).insert(e.0, e.1).insert(
            b.last().0,
            b.last().1,
        ) =~= map_of(a).union_prefer_right(map_of(b)).insert(e.0, e.1));
    }
}

/// Two sorted entry sequences with the same map are the same sequence.
pub proof fn lemma_canonical(a: Entries, b: Entries)
    requires
        sorted_entries(a),
        sorted_entries(b),
        map_of(a) == map_of(b),
    ensures
        a =~= b,
    decreases a.len(),
{
    lemma_sorted_distinct(a);
    lemma_sorted_distinct(b);
    if a.len() == 0 {
        if b.len() > 0 {
            lemma_mo_index(b, b.len() - 1);
            lemma_mo_contains(a, b.last().0);
        }
    } else if b.len() == 0 {
        lemma_mo_index(a, a.len() - 1);
        lemma_mo_contains(b, a.last().0);
    } else {
        let ka = a.last().0;
        let kb = b.last().0;
        // The last key of a sorted sequence is its maximum; equal maps force
        // the maxima to coincide.
        if ka != kb {
            lemma_mo_index(a, a.len() - 1);
            lemma_mo_index(b, b.len() - 1);
            lemma_mo_contains(b, ka);
            let i = choose|i: int| 0 <= i < b.len() && (#[trigger] b[i]).0 == ka;
            assert(i < b.len() - 1);
            assert(lex_lt(ka, kb));
            lemma_mo_contains(a, kb);
            let j = choose|j: int| 0 <= j < a.len() && (#[trigger] a[j]).0 == kb;
            assert(j < a.len() - 1);
            assert(lex_lt(kb, ka));
            lemma_lex_trans(ka, kb, ka);
            lemma_lex_irrefl(ka);
        }
        lemma_mo_index(a, a.len() - 1);
        lemma_mo_index(b, b.len() - 1);
        assert(a.last().1 == b.last().1);
        // Dropping the equal last entries leaves equal maps of the prefixes.
        assert(forall|i: int| 0 <= i < a.len() - 1 ==> (#[trigger] a.drop_last()[i]) == a[i]);
        assert(forall|i: int| 0 <= i < b.len() - 1 ==> (#[trigger] b.drop_last()[i]) == b[i]);
        lemma_mo_contains(a.drop_last(), ka);
        lemma_mo_contains(b.drop_last(), ka);
        assert(map_of(a.drop_last()) =~= map_of(a).remove(ka));
        assert(map_of(b.drop_last()) =~= map_of(b).remove(ka));
        lemma_canonical(a.drop_last(), b.drop_last());
        assert(a =~= a.drop_last().push(a.last()));
        assert(b =~= b.drop_last().push(b.last()));
    }
}

impl ConfigTable {
    /// An empty table.
    pub fn new() -> (t: ConfigTable)
        ensures
            t@ =~= Seq::<(Seq<char>, ValueView)>::empty(),
            t.wf(),
            t.as_map() =~= Map::<Seq<char>, ValueView>::empty(),
    {
        ConfigTable { entries: Vec::new() }
    }

    /// Finds the place of a key in the sorted entry list: either its index,
    /// or the index where it would be inserted.
    fn find(&self, k: &str) -> (r: (usize, bool))
        requires
            self.wf(),
        ensures
            r.1 ==> r.0 < self@.len() && self@[r.0 as int].0 == k@,
            !r.1 ==> forall|i: int| 0 <= i < self@.len() ==> (#[trigger] self@[i]).0 != k@,
            !r.1 ==> r.0 <= self@.len(),
            !r.1 ==> forall|i: int| 0 <= i < r.0 ==> lex_lt((#[trigger] self@[i]).0, k@),
            !r.1 ==> (r.0 == self@.len() || lex_lt(k@, self@[r.0 as int].0)),
    {
        proof {
            lemma_entries_view(self.entries@);
        }
        let n = self.entries.len();
        let mut i: usize = 0;
        while i < n && str_lt(self.entries[i].0.as_str(), k)
            invariant
                0 <= i <= n,
                n == self@.len(),
                n == self.entries@.len(),
                self.wf(),
                forall|j: int|
                    0 <= j < self@.len() ==> (#[trigger] self@[j]) == (
                    self.entries@[j].0@,
                    value_view(self.entries@[j].1),
                ),
                forall|j: int| 0 <= j < i ==> lex_lt((#[trigger] self@[j]).0, k@),
            decreases n - i,
        {
            i = i + 1;
        }
        if i < n && str_eq(self.entries[i].0.as_str(), k) {
            (i, true)
        } else {
            proof {
                if i < n {
                    // entries[i].0 is not below k and differs from it, so it
                    // is above k; everything after it is above as well.
                    lemma_lex_total(self@[i as int].0, k@);
                }
                assert forall|j: int| 0 <= j < self@.len() implies (#[trigger] self@[j]).0
                    != k@ by {
                    if j < i {
                        if self@[j].0 == k@ {
                            lemma_lex_irrefl(k@);
                        }
                    } else if i < self@.len() {
                        if j > i {
                            lemma_lex_trans(k@, self@[i as int].0, self@[j].0);
                        }
                        if self@[j].0 == k@ {
                            lemma_lex_irrefl(k@);
                        }
                    }
                }
                if i < n {
                    assert(lex_lt(k@, self@[i as int].0));
                }
            }
            (i, false)
        }
    }

    /// Inserts or replaces the value at a key, keeping the table sorted.
    /// The table afterwards describes the old map with one more binding.
    pub fn set(&mut self, k: String, v: ConfigValue)
        requires
            old(self).wf(),
            v.wf(),
        ensures
            final(self).wf(),
            final(self).as_map() == old(self).as_map().insert(k@, v@),
    {
        let ghost v0 = self.entries@;
        let ghost es0 = self@;
        let (pos, found) = self.find(k.as_str());
        let ghost p = pos as int;
        proof {
            lemma_entries_view(v0);
            lemma_sorted_distinct(es0);
            lemma_tab_values_wf(es0);
            assert(forall|t: int| 0 <= t < es0.len() ==> #[trigger] view_wf(es0[t].1));
        }
        if found {
            self.entries.remove(pos);
            self.entries.insert(pos, (k, v));
            proof {
                let v1 = self.entries@;
                v0.remove_ensures(p);
                v0.remove(p).insert_ensures(p, (k, v));
                lemma_entries_view(v1);
                let es1 = self@;
                assert(es1.len() == es0.len());
                assert forall|t: int| 0 <= t < es1.len() && t != p implies es1[t] == es0[t] by {
                    if t < p {
                        assert(v1[t] == v0[t]);
                    } else {
                        assert(v1[t] == v0.remove(p)[t - 1]);
                        assert(v0.remove(p)[t - 1] == v0[t]);
                    }
                }
                assert(es1[p] == (k@, v@));
                // The new entries spell out as prefix, new binding, suffix.
                let pre = es0.take(p);
                let suf = es0.skip(p + 1);
                assert(es1 =~= pre + seq![(k@, v@)] + suf);
                assert(es0 =~= pre + seq![(es0[p].0, es0[p].1)] + suf);
                assert(forall|t: int| 0 <= t < suf.len() ==> (#[trigger] suf[t]) == es0[t + p + 1]);
                assert(forall|t: int| 0 <= t < suf.len() ==> (#[trigger] suf[t]).0 != k@);
                lemma_mo_mid_fresh(pre, (k@, v@), suf);
                lemma_mo_mid_fresh(pre, (es0[p].0, es0[p].1), suf);
                assert(map_of(es1) =~= map_of(es0).insert(k@, v@));
                // Keys are unchanged, so order is unchanged.
                assert forall|i: int, j: int| 0 <= i < j < es1.len() implies lex_lt(
                    (#[trigger] es1[i]).0,
                    (#[trigger] es1[j]).0,
                ) by {
                    assert(es1[i].0 == es0[i].0);
                    assert(es1[j].0 == es0[j].0);
                }
                assert forall|t: int| 0 <= t < es1.len() implies #[trigger] view_wf(es1[t].1) by {
                    if t != p {
                        assert(es1[t] == es0[t]);
                    }
                }
                lemma_tab_values_wf(es1);
                assert(self.wf());
            }
        } else {
            self.entries.insert(pos, (k, v));
            proof {
                let v1 = self.entries@;
                v0.insert_ensures(p, (k, v));
                lemma_entries_view(v1);
                let es1 = self@;
                assert(es1.len() == es0.len() + 1);
                assert forall|t: int| 0 <= t < p implies (#[trigger] es1[t]) == es0[t] by {
                    assert(v1[t] == v0[t]);
                }
                assert(es1[p] == (k@, v@));
                assert forall|t: int| p < t < es1.len() implies (#[trigger] es1[t]) == es0[t
                    - 1] by {
                    assert(v1[t] == v0[t - 1]);
                }
                let pre = es0.take(p);
                let suf = es0.skip(p);
                assert(es1 =~= pre + seq![(k@, v@)] + suf);
                assert(forall|t: int| 0 <= t < suf.len() ==> (#[trigger] suf[t]) == es0[t + p]);
                assert(forall|t: int| 0 <= t < suf.len() ==> (#[trigger] suf[t]).0 != k@);
                lemma_mo_mid_fresh(pre, (k@, v@), suf);
                assert(es0 =~= pre + suf);
                lemma_mo_concat(pre, suf);
                assert(map_of(es1) =~= map_of(es0).insert(k@, v@));
                assert forall|i: int, j: int| 0 <= i < j < es1.len() implies lex_lt(
                    (#[trigger] es1[i]).0,
                    (#[trigger] es1[j]).0,
                ) by {
                    if j < p {
                        assert(es1[i] == es0[i] && es1[j] == es0[j]);
                    } else if j == p {
                        assert(es1[i] == es0[i]);
                        assert(lex_lt(es0[i].0, k@));
                    } else if i == p {
                        assert(es1[j] == es0[j - 1]);
                        assert(p < es0.len());
                        if j - 1 == p {
                            assert(lex_lt(k@, es0[p].0));
                        } else {
                            lemma_lex_trans(k@, es0[p].0, es0[j - 1].0);
                        }
                    } else if i < p {
                        assert(es1[i] == es0[i]);
                        assert(es1[j] == es0[j - 1]);
                        if j - 1 == p {
                            assert(lex_lt(k@, es0[p].0));
                        } else {
                            lemma_lex_trans(k@, es0[p].0, es0[j - 1].0);
                        }
                        lemma_lex_trans(es0[i].0, k@, es0[j - 1].0);
                    } else {
                        assert(es1[i] == es0[i - 1] && es1[j] == es0[j - 1]);
                    }
                }
                assert forall|t: int| 0 <= t < es1.len() implies #[trigger] view_wf(es1[t].1) by {
                    if t < p {
                        assert(es1[t] == es0[t]);
                    } else if t > p {
                        assert(es1[t] == es0[t - 1]);
                    }
                }
                lemma_tab_values_wf(es1);
                assert(self.wf());
            }
        }
    }

    /// Removes the entry at a key and hands it back, if present.
    pub fn take(&mut self, k: &str) -> (r: Option<(String, ConfigValue)>)
        requires
            old(self).wf(),
        ensures
            final(self).wf(),
            match r {
                Some(e) => old(self).as_map().contains_key(k@) && e.0@ == k@ && e.1@ == old(
                    self,
                ).as_map()[k@] && e.1.wf() && final(self).as_map() == old(self).as_map().remove(k@),
                None => !old(self).as_map().contains_key(k@) && final(self)@ == old(self)@,
            },
    {
        let ghost v0 = self.entries@;
        let ghost es0 = self@;
        let (pos, found) = self.find(k);
        let ghost p = pos as int;
        proof {
            lemma_entries_view(v0);
            lemma_sorted_distinct(es0);
            lemma_tab_values_wf(es0);
            lemma_mo_contains(es0, k@);
            if found {
                lemma_mo_index(es0, p);
            }
        }
        if found {
            let e = self.entries.remove(pos);
            proof {
                let v1 = self.entries@;
                v0.remove_ensures(p);
                lemma_entries_view(v1);
                let es1 = self@;
                assert(es1.len() == es0.len() - 1);
                assert forall|t: int| 0 <= t < es1.len() implies (#[trigger] es1[t]) == (
                if t < p {
                    es0[t]
                } else {
                    es0[t + 1]
                }) by {
                    if t < p {
                        assert(v1[t] == v0[t]);
                    } else {
                        assert(v1[t] == v0[t + 1]);
                    }
                }
                let pre = es0.take(p);
                let suf = es0.skip(p + 1);
                assert(es1 =~= pre + suf);
                assert(es0 =~= pre + seq![(es0[p].0, es0[p].1)] + suf);
                assert(forall|t: int| 0 <= t < suf.len() ==> (#[trigger] suf[t]) == es0[t + p + 1]);
                assert(forall|t: int| 0 <= t < suf.len() ==> (#[trigger] suf[t]).0 != k@);
                lemma_mo_concat(pre, suf);
                lemma_mo_mid_fresh(pre, (es0[p].0, es0[p].1), suf);
                lemma_mo_contains(pre, k@);
                lemma_mo_contains(suf, k@);
                assert(!map_of(pre).union_prefer_right(map_of(suf)).contains_key(k@));
                assert(map_of(es1) =~= map_of(es0).remove(k@));
                assert forall|i: int, j: int| 0 <= i < j < es1.len() implies lex_lt(
                    (#[trigger] es1[i]).0,
                    (#[trigger] es1[j]).0,
                ) by {}
                assert forall|t: int| 0 <= t < es1.len() implies #[trigger] view_wf(es1[t].1) by {}
                lemma_tab_values_wf(es1);
                assert(self.wf());
                assert(e.0@ == k@);
                assert(e.1@ == map_of(es0)[k@]);
            }
            Some(e)
        } else {
            None
        }
    }

    /// Looks a key up.
    pub fn get(&self, k: &str) -> (r: Option<&ConfigValue>)
        requires
            self.wf(),
        ensures
            match r {
                Some(v) => self.as_map().contains_key(k@) && v@ == self.as_map()[k@],
                None => !self.as_map().contains_key(k@),
            },
    {
        let (pos, found) = self.find(k);
        proof {
            lemma_entries_view(self.entries@);
            lemma_sorted_distinct(self@);
            lemma_mo_contains(self@, k@);
            if found {
                lemma_mo_index(self@, pos as int);
            }
        }
        if found {
            Some(&self.entries[pos].1)
        } else {
            None
        }
    }

    /// The number of entries.
    pub fn len(&self) -> (n: usize)
        ensures
            n == self@.len(),
    {
        proof {
            lemma_entries_view(self.entries@);
        }
        self.entries.len()
    }
}

} // verus!
