use vstd::prelude::*;
use crate::text::views_of;
use crate::order::{sorted, expected_order, sort_keys, keys_equal, compute_expected,
    lemma_expected_order_permutation, lemma_sorted_unique};
use crate::toml_io::{table_model, table_dotted, table_implicit, item_view, inline_model,
    item_pairs, model_find, vmodel_find, model_keys, keys_distinct, key_text, ItemView,
    table_keys, table_remove_entry, table_insert_entry, table_set_item, table_get_table,
    table_get_value, table_is_dotted, inline_new, inline_push, item_from_inline};

verus! {

/// Every entry of the table model is a plain value.
pub open spec fn all_scalar(m: Seq<(Seq<char>, toml_edit::Item)>) -> bool {
    forall|j: int| 0 <= j < m.len() ==> (item_view(#[trigger] m[j].1) is Val)
}

/// The (key, value) pairs of an all-scalar table model.
pub open spec fn scalar_pairs(m: Seq<(Seq<char>, toml_edit::Item)>) -> Seq<
    (Seq<char>, toml_edit::Value),
> {
    m.map_values(|p: (Seq<char>, toml_edit::Item)| (p.0, item_view(p.1)->Val_v))
}

/// An entry may be collapsed when it is a non-dotted nested table whose
/// children are all plain values.
pub open spec fn entry_collapsible(it: toml_edit::Item) -> bool {
    match item_view(it) {
        ItemView::Tbl { t } => !table_dotted(t) && all_scalar(table_model(t)),
        _ => false,
    }
}

/// What the collapser leaves at one entry: a collapsible entry becomes an
/// inline-table value carrying exactly the nested table's pairs; any other
/// entry is left untouched.
pub open spec fn collapsed_entry_ok(it0: toml_edit::Item, it1: toml_edit::Item) -> bool {
    if entry_collapsible(it0) {
        &&& item_view(it1) is Val
        &&& item_pairs(it1) == scalar_pairs(table_model(item_view(it0)->Tbl_t))
    } else {
        it1 == it0
    }
}

/// How many entries of the model are collapsible.
pub open spec fn count_collapsible(m: Seq<(Seq<char>, toml_edit::Item)>) -> int
    decreases m.len(),
{
    if m.len() == 0 {
        0
    } else {
        count_collapsible(m.drop_last()) + (if entry_collapsible(m.last().1) {
            1int
        } else {
            0int
        })
    }
}

/// A found index lies in range and carries the key searched for.
pub proof fn lemma_model_find_hit(m: Seq<(Seq<char>, toml_edit::Item)>, k: Seq<char>, i: int)
    requires
        0 <= i <= m.len(),
    ensures
        ({
            let f = model_find(m, k, i);
            f >= 0 ==> i <= f < m.len() && m[f].0 == k
        }),
    decreases m.len() - i,
{
    if i < m.len() && m[i].0 != k {
        lemma_model_find_hit(m, k, i + 1);
    }
}

/// A key that some entry carries is found.
pub proof fn lemma_model_find_contains(m: Seq<(Seq<char>, toml_edit::Item)>, k: Seq<char>, i: int)
    requires
        0 <= i <= m.len(),
    ensures
        (model_find(m, k, i) >= 0) <==> (exists|j: int| i <= j < m.len() && m[j].0 == k),
    decreases m.len() - i,
{
    if i < m.len() {
        lemma_model_find_contains(m, k, i + 1);
        if m[i].0 == k {
            assert(i <= i < m.len() && m[i].0 == k);
        }
    }
}

/// With distinct keys, looking an entry's own key up finds that entry.
pub proof fn lemma_model_find_self(m: Seq<(Seq<char>, toml_edit::Item)>, i: int)
    requires
        keys_distinct(m),
        0 <= i < m.len(),
    ensures
        model_find(m, m[i].0, 0) == i,
{
    lemma_model_find_walk(m, m[i].0, 0, i);
}

proof fn lemma_model_find_walk(m: Seq<(Seq<char>, toml_edit::Item)>, k: Seq<char>, j: int, i: int)
    requires
        0 <= j <= i < m.len(),
        m[i].0 == k,
        forall|l: int| j <= l < i ==> m[l].0 != k,
    ensures
        model_find(m, k, j) == i,
    decreases i - j,
{
    if j < i {
        lemma_model_find_walk(m, k, j + 1, i);
    }
}

/// A key that no entry carries is not found.
pub proof fn lemma_model_find_absent(m: Seq<(Seq<char>, toml_edit::Item)>, k: Seq<char>, i: int)
    requires
        0 <= i <= m.len(),
        forall|j: int| 0 <= j < m.len() ==> m[j].0 != k,
    ensures
        model_find(m, k, i) == -1,
    decreases m.len() - i,
{
    if i < m.len() {
        lemma_model_find_absent(m, k, i + 1);
    }
}

/// A key that no pair carries is not found.
pub proof fn lemma_vmodel_find_absent(m: Seq<(Seq<char>, toml_edit::Value)>, k: Seq<char>, i: int)
    requires
        0 <= i <= m.len(),
        forall|j: int| 0 <= j < m.len() ==> m[j].0 != k,
    ensures
        vmodel_find(m, k, i) == -1,
    decreases m.len() - i,
{
    if i < m.len() {
        lemma_vmodel_find_absent(m, k, i + 1);
    }
}

/// Collapses every collapsible entry of the table into an equivalent inline
/// value; every other entry is left exactly as it was. Returns the table and
/// the number of entries collapsed.
pub fn collapse_table_entries(t: toml_edit::Table) -> (r: (toml_edit::Table, usize))
    ensures
        table_model(r.0).len() == table_model(t).len(),
        forall|j: int|
            0 <= j < table_model(t).len() ==> table_model(r.0)[j].0 == table_model(t)[j].0,
        forall|j: int|
            0 <= j < table_model(t).len() ==> collapsed_entry_ok(
                table_model(t)[j].1,
                table_model(r.0)[j].1,
            ),
        r.1 == count_collapsible(table_model(t)),
        r.1 <= table_model(t).len(),
        table_dotted(r.0) == table_dotted(t),
        table_implicit(r.0) == table_implicit(t),
        r.1 == 0 ==> r.0 == t,
{
    let ghost m0 = table_model(t);
    let ghost d0 = table_dotted(t);
    let ghost imp0 = table_implicit(t);
    let ghost t_in = t;
    let keys = table_keys(&t);
    let mut t = t;
    let mut changes: usize = 0;
    let mut i: usize = 0;
    proof {
        assert(count_collapsible(m0.take(0)) == 0);
    }
    while i < keys.len()
        invariant
            0 <= i <= keys@.len(),
            keys@.len() == m0.len(),
            forall|j: int| 0 <= j < keys@.len() ==> keys@[j]@ == m0[j].0,
            forall|j: int, l: int| 0 <= j < l < keys@.len() ==> keys@[j]@ != keys@[l]@,
            table_model(t).len() == m0.len(),
            forall|j: int| 0 <= j < m0.len() ==> table_model(t)[j].0 == m0[j].0,
            forall|j: int| i <= j < m0.len() ==> table_model(t)[j] == m0[j],
            forall|j: int|
                0 <= j < i ==> collapsed_entry_ok(m0[j].1, #[trigger] table_model(t)[j].1),
            changes == count_collapsible(m0.take(i as int)),
            changes <= i,
            table_dotted(t) == d0,
            table_implicit(t) == imp0,
            changes == 0 ==> t == t_in,
        decreases keys.len() - i,
    {
        let key = &keys[i];
        let ghost m_cur = table_model(t);
        proof {
            assert(m_cur == table_model(t));
            assert forall|a: int, b: int| 0 <= a < b < m_cur.len() implies m_cur[a].0
                != m_cur[b].0 by {
                assert(table_model(t)[a].0 == m0[a].0);
                assert(table_model(t)[b].0 == m0[b].0);
                assert(keys@[a]@ == m0[a].0);
                assert(keys@[b]@ == m0[b].0);
            }
            assert(keys_distinct(m_cur));
            assert(key@ == keys@[i as int]@);
            assert(table_model(t)[i as int].0 == m0[i as int].0);
            assert(key@ == m_cur[i as int].0);
            lemma_model_find_self(m_cur, i as int);
            assert(model_find(m_cur, key@, 0) == i as int);
        }
        let mut built: Option<toml_edit::Item> = None;
        match table_get_table(&t, key) {
            Some(inner) => {
                proof {
                    assert(item_view(m_cur[i as int].1) == (ItemView::Tbl { t: *inner }));
                }
                if !table_is_dotted(inner) {
                    let ghost im = table_model(*inner);
                    let ikeys = table_keys(inner);
                    let mut inline = inline_new();
                    let mut ok = true;
                    let mut j: usize = 0;
                    proof {
                        assert(scalar_pairs(im.take(0)) =~= Seq::<
                            (Seq<char>, toml_edit::Value),
                        >::empty());
                    }
                    while j < ikeys.len() && ok
                        invariant
                            item_view(m_cur[i as int].1) == (ItemView::Tbl { t: *inner }),
                            !table_dotted(*inner),
                            0 <= j <= ikeys@.len(),
                            ikeys@.len() == im.len(),
                            im == table_model(*inner),
                            forall|l: int| 0 <= l < im.len() ==> ikeys@[l]@ == im[l].0,
                            forall|l: int, p: int|
                                0 <= l < p < ikeys@.len() ==> ikeys@[l]@ != ikeys@[p]@,
                            ok ==> forall|l: int|
                                0 <= l < j ==> (item_view(#[trigger] im[l].1) is Val),
                            ok ==> inline_model(inline) == scalar_pairs(im.take(j as int)),
                            !ok ==> exists|l: int|
                                0 <= l < im.len() && !(item_view(#[trigger] im[l].1) is Val),
                        decreases ikeys.len() - j,
                    {
                        proof {
                            assert forall|a: int, b: int| 0 <= a < b < im.len() implies im[a].0
                                != im[b].0 by {
                                assert(ikeys@[a]@ == im[a].0);
                                assert(ikeys@[b]@ == im[b].0);
                            }
                            assert(keys_distinct(im));
                            assert(ikeys@[j as int]@ == im[j as int].0);
                            lemma_model_find_self(im, j as int);
                        }
                        match table_get_value(inner, &ikeys[j]) {
                            Some(v) => {
                                proof {
                                    assert(item_view(im[j as int].1) == (ItemView::Val { v: *v }));
                                    assert(forall|l: int|
                                        0 <= l < scalar_pairs(im.take(j as int)).len()
                                            ==> scalar_pairs(im.take(j as int))[l].0 == im[l].0);
                                    lemma_vmodel_find_absent(
                                        scalar_pairs(im.take(j as int)),
                                        ikeys@[j as int]@,
                                        0,
                                    );
                                }
                                inline_push(&mut inline, &ikeys[j], v);
                                proof {
                                    assert(im.take(j + 1).drop_last() =~= im.take(j as int));
                                    assert(scalar_pairs(im.take(j + 1)) =~= scalar_pairs(
                                        im.take(j as int),
                                    ).push((im[j as int].0, item_view(im[j as int].1)->Val_v)));
                                    assert(inline_model(inline) =~= scalar_pairs(im.take(j + 1)));
                                }
                            },
                            None => {
                                proof {
                                    assert(!(item_view(im[j as int].1) is Val));
                                }
                                ok = false;
                            },
                        }
                        j += 1;
                    }
                    if ok {
                        proof {
                            assert(j == ikeys@.len());
                            assert(all_scalar(im));
                            assert(im.take(im.len() as int) =~= im);
                            assert(entry_collapsible(m_cur[i as int].1));
                        }
                        built = Some(item_from_inline(inline));
                    } else {
                        proof {
                            assert(!all_scalar(im));
                            assert(!entry_collapsible(m_cur[i as int].1));
                        }
                    }
                } else {
                    proof {
                        assert(!entry_collapsible(m_cur[i as int].1));
                    }
                }
            },
            None => {
                proof {
                    assert(!(item_view(m_cur[i as int].1) is Tbl));
                    assert(!entry_collapsible(m_cur[i as int].1));
                }
            },
        }
        match built {
            Some(item) => {
                proof {
                    assert(table_model(t) == m_cur);
                    assert(model_find(table_model(t), key@, 0) == i as int);
                }
                table_set_item(&mut t, key, item);
                changes += 1;
                proof {
                    assert(table_model(t) == m_cur.update(i as int, (key@, item)));
                    assert(collapsed_entry_ok(m0[i as int].1, table_model(t)[i as int].1));
                }
            },
            None => {
                proof {
                    assert(collapsed_entry_ok(m0[i as int].1, table_model(t)[i as int].1));
                }
            },
        }
        proof {
            assert(m0.take(i + 1).drop_last() =~= m0.take(i as int));
            assert(m0.take(i + 1).last() == m0[i as int]);
        }
        i += 1;
    }
    proof {
        assert(m0.take(m0.len() as int) =~= m0);
    }
    (t, changes)
}


/// The table `t1` holds exactly the entries of `t0`: as many, each one an
/// entry of `t0`, with the same key multiset, distinct keys, and the same
/// dotted flag.
pub open spec fn same_entries(t0: toml_edit::Table, t1: toml_edit::Table) -> bool {
    &&& table_model(t1).len() == table_model(t0).len()
    &&& table_model(t1).to_multiset() == table_model(t0).to_multiset()
    &&& keys_distinct(table_model(t1))
    &&& model_keys(table_model(t1)).to_multiset() == model_keys(table_model(t0)).to_multiset()
    &&& table_dotted(t1) == table_dotted(t0)
}

/// Rebuilds the table so that the keys of `target` stand at its end, in
/// `target`'s order; every entry keeps its key and item. When `target` names
/// every key of the table, the whole table follows `target`'s order.
pub fn reorder_table(t: toml_edit::Table, target: &Vec<Vec<char>>) -> (r: toml_edit::Table)
    requires
        keys_distinct(table_model(t)),
        views_of(target@).no_duplicates(),
        forall|l: int|
            0 <= l < target@.len() ==> model_keys(table_model(t)).contains(
                #[trigger] views_of(target@)[l],
            ),
    ensures
        same_entries(t, r),
        table_implicit(r) == table_implicit(t),
        target@.len() <= table_model(t).len(),
        forall|l: int|
            0 <= l < target@.len() ==> table_model(r)[table_model(t).len() - target@.len()
                + l].0 == views_of(target@)[l],
{
    let ghost m0 = table_model(t);
    let ghost d0 = table_dotted(t);
    let ghost imp0 = table_implicit(t);
    let ghost tv = views_of(target@);
    let mut t = t;
    let mut l: usize = 0;
    proof {
        assert(tv.len() <= m0.len()) by {
            if tv.len() > m0.len() {
                tv.unique_seq_to_set();
                lemma_model_keys_contains_set(m0, tv);
            }
        }
    }
    while l < target.len()
        invariant
            0 <= l <= target@.len(),
            tv == views_of(target@),
            tv.no_duplicates(),
            tv.len() <= m0.len(),
            forall|p: int| 0 <= p < tv.len() ==> model_keys(m0).contains(#[trigger] tv[p]),
            keys_distinct(m0),
            table_model(t).len() == m0.len(),
            keys_distinct(table_model(t)),
            model_keys(table_model(t)).to_multiset() == model_keys(m0).to_multiset(),
            table_model(t).to_multiset() == m0.to_multiset(),
            forall|p: int|
                0 <= p < l ==> table_model(t)[m0.len() - l + p].0 == #[trigger] tv[p],
            table_dotted(t) == d0,
            table_implicit(t) == imp0,
        decreases target.len() - l,
    {
        let key = &target[l];
        let ghost mc = table_model(t);
        proof {
            assert(key@ == tv[l as int]);
            assert(model_keys(m0).contains(tv[l as int]));
            vstd::seq_lib::to_multiset_contains(model_keys(m0), tv[l as int]);
            vstd::seq_lib::to_multiset_contains(model_keys(mc), tv[l as int]);
            assert(model_keys(mc).contains(tv[l as int]));
            let idx = choose|idx: int|
                0 <= idx < model_keys(mc).len() && model_keys(mc)[idx] == tv[l as int];
            assert(mc[idx].0 == tv[l as int]);
            lemma_model_find_contains(mc, key@, 0);
            lemma_model_find_hit(mc, key@, 0);
            assert(model_find(mc, key@, 0) >= 0);
        }
        let ghost f = model_find(mc, key@, 0);
        let removed = table_remove_entry(&mut t, key);
        match removed {
            Some(entry) => {
                let (moved_key, item) = entry;
                proof {
                    let mm = table_model(t);
                    assert(mm == mc.remove(f));
                    assert(item == mc[f].1);
                    assert(key_text(moved_key) == mc[f].0);
                    assert(key_text(moved_key) == key@);
                    assert forall|j: int| 0 <= j < mm.len() implies mm[j].0 != key@ by {
                        if j < f {
                            assert(mm[j] == mc[j]);
                        } else {
                            assert(mm[j] == mc[j + 1]);
                        }
                    }
                    lemma_model_find_absent(mm, key@, 0);
                }
                table_insert_entry(&mut t, moved_key, item);
                proof {
                    let mm = mc.remove(f);
                    let mn = table_model(t);
                    assert(mn == mm.push((key@, item)));
                    // f lies before the already-ordered tail.
                    assert(f < m0.len() - l) by {
                        if f >= m0.len() - l {
                            assert(mc[f].0 == tv[f - (m0.len() - l)]);
                            assert(tv[f - (m0.len() - l)] == tv[l as int]);
                        }
                    }
                    assert forall|a: int, b: int| 0 <= a < b < mn.len() implies mn[a].0
                        != mn[b].0 by {
                        if b < mn.len() - 1 {
                            let aa = if a < f { a } else { a + 1 };
                            let bb = if b < f { b } else { b + 1 };
                            assert(mn[a] == mc[aa]);
                            assert(mn[b] == mc[bb]);
                        } else {
                            assert(mn[b].0 == key@);
                            let aa = if a < f { a } else { a + 1 };
                            assert(mn[a] == mc[aa]);
                            assert(aa != f);
                        }
                    }
                    assert(keys_distinct(mn));
                    assert(model_keys(mm) =~= model_keys(mc).remove(f));
                    assert(model_keys(mn) =~= model_keys(mm).push(key@));
                    vstd::seq_lib::to_multiset_remove(model_keys(mc), f);
                    vstd::seq_lib::to_multiset_build(model_keys(mm), key@);
                    assert(model_keys(mc)[f] == key@);
                    vstd::seq_lib::to_multiset_contains(model_keys(mc), key@);
                    assert(model_keys(mn).to_multiset() =~= model_keys(mc).to_multiset());
                    assert(mc[f] == (mc[f].0, mc[f].1));
                    assert(mn == mm.push(mc[f]));
                    vstd::seq_lib::to_multiset_remove(mc, f);
                    vstd::seq_lib::to_multiset_build(mm, mc[f]);
                    assert(mc.contains(mc[f]));
                    vstd::seq_lib::to_multiset_contains(mc, mc[f]);
                    assert(mn.to_multiset() =~= mc.to_multiset());
                    assert forall|p: int| 0 <= p < l + 1 implies mn[m0.len() - (l + 1) + p].0
                        == #[trigger] tv[p] by {
                        if p < l {
                            let s = m0.len() - l + p;
                            assert(mc[s].0 == tv[p]);
                            assert(mm[s - 1] == mc[s]);
                            assert(mn[s - 1] == mm[s - 1]);
                        } else {
                            assert(mn[m0.len() - 1].0 == key@);
                        }
                    }
                }
            },
            None => {
                proof {
                    assert(false);
                }
            },
        }
        l += 1;
    }
    t
}

/// The keys of a model that `tv`'s members all belong to, as a set bound.
proof fn lemma_model_keys_contains_set(m0: Seq<(Seq<char>, toml_edit::Item)>, tv: Seq<Seq<char>>)
    requires
        tv.no_duplicates(),
        forall|p: int| 0 <= p < tv.len() ==> model_keys(m0).contains(#[trigger] tv[p]),
    ensures
        tv.len() <= m0.len(),
{
    tv.unique_seq_to_set();
    assert(tv.to_set().len() == tv.len());
    lemma_subset_cardinality(tv.to_set(), model_keys(m0));
}

/// A set of values drawn from a sequence is no larger than the sequence.
proof fn lemma_subset_cardinality(s: Set<Seq<char>>, keys: Seq<Seq<char>>)
    requires
        s.finite(),
        forall|k: Seq<char>| s.contains(k) ==> keys.contains(k),
    ensures
        s.len() <= keys.len(),
    decreases keys.len(),
{
    if s.len() > keys.len() {
        if keys.len() == 0 {
            let k = s.choose();
            assert(s.contains(k));
        } else {
            let k = keys.last();
            let keys2 = keys.drop_last();
            let s2 = s.remove(k);
            assert forall|x: Seq<char>| s2.contains(x) implies keys2.contains(x) by {
                assert(s.contains(x));
                assert(keys.contains(x));
                let i = choose|i: int| 0 <= i < keys.len() && keys[i] == x;
                if i < keys.len() - 1 {
                    assert(keys2[i] == x);
                } else {
                    assert(x == k);
                }
            }
            lemma_subset_cardinality(s2, keys2);
        }
    }
}


/// Counts the collapsible entries of a table without changing anything.
pub fn count_collapsible_entries(t: &toml_edit::Table) -> (r: usize)
    ensures
        r == count_collapsible(table_model(*t)),
        r <= table_model(*t).len(),
{
    let ghost m0 = table_model(*t);
    let keys = table_keys(t);
    let mut count: usize = 0;
    let mut i: usize = 0;
    proof {
        assert(count_collapsible(m0.take(0)) == 0);
    }
    while i < keys.len()
        invariant
            0 <= i <= keys@.len(),
            m0 == table_model(*t),
            keys@.len() == m0.len(),
            forall|j: int| 0 <= j < keys@.len() ==> keys@[j]@ == m0[j].0,
            forall|j: int, l: int| 0 <= j < l < keys@.len() ==> keys@[j]@ != keys@[l]@,
            count == count_collapsible(m0.take(i as int)),
            count <= i,
        decreases keys.len() - i,
    {
        let key = &keys[i];
        proof {
            assert forall|a: int, b: int| 0 <= a < b < m0.len() implies m0[a].0 != m0[b].0 by {
                assert(keys@[a]@ == m0[a].0);
                assert(keys@[b]@ == m0[b].0);
            }
            assert(keys_distinct(m0));
            assert(key@ == keys@[i as int]@);
            assert(key@ == m0[i as int].0);
            lemma_model_find_self(m0, i as int);
        }
        let mut collapsible = false;
        match table_get_table(t, key) {
            Some(inner) => {
                proof {
                    assert(item_view(m0[i as int].1) == (ItemView::Tbl { t: *inner }));
                }
                if !table_is_dotted(inner) {
                    let ghost im = table_model(*inner);
                    let ikeys = table_keys(inner);
                    let mut ok = true;
                    let mut j: usize = 0;
                    while j < ikeys.len() && ok
                        invariant
                            0 <= j <= ikeys@.len(),
                            im == table_model(*inner),
                            ikeys@.len() == im.len(),
                            forall|l: int| 0 <= l < im.len() ==> ikeys@[l]@ == im[l].0,
                            forall|l: int, p: int|
                                0 <= l < p < ikeys@.len() ==> ikeys@[l]@ != ikeys@[p]@,
                            ok ==> forall|l: int|
                                0 <= l < j ==> (item_view(#[trigger] im[l].1) is Val),
                            !ok ==> exists|l: int|
                                0 <= l < im.len() && !(item_view(#[trigger] im[l].1) is Val),
                        decreases ikeys.len() - j,
                    {
                        proof {
                            assert forall|a: int, b: int| 0 <= a < b < im.len() implies im[a].0
                                != im[b].0 by {
                                assert(ikeys@[a]@ == im[a].0);
                                assert(ikeys@[b]@ == im[b].0);
                            }
                            assert(keys_distinct(im));
                            assert(ikeys@[j as int]@ == im[j as int].0);
                            lemma_model_find_self(im, j as int);
                        }
                        match table_get_value(inner, &ikeys[j]) {
                            Some(_v) => {
                                proof {
                                    assert(item_view(im[j as int].1) is Val);
                                }
                            },
                            None => {
                                proof {
                                    assert(!(item_view(im[j as int].1) is Val));
                                }
                                ok = false;
                            },
                        }
                        j += 1;
                    }
                    if ok {
                        proof {
                            assert(im.take(im.len() as int) =~= im);
                            assert(all_scalar(im));
                            assert(entry_collapsible(m0[i as int].1));
                        }
                        collapsible = true;
                    } else {
                        proof {
                            assert(!entry_collapsible(m0[i as int].1));
                        }
                    }
                } else {
                    proof {
                        assert(!entry_collapsible(m0[i as int].1));
                    }
                }
            },
            None => {
                proof {
                    assert(!(item_view(m0[i as int].1) is Tbl));
                    assert(!entry_collapsible(m0[i as int].1));
                }
            },
        }
        if collapsible {
            count += 1;
        }
        proof {
            assert(m0.take(i + 1).drop_last() =~= m0.take(i as int));
            assert(m0.take(i + 1).last() == m0[i as int]);
        }
        i += 1;
    }
    proof {
        assert(m0.take(m0.len() as int) =~= m0);
    }
    count
}

/// What the key sorter does to a dependency table: no change when the keys
/// already stand in lexicographic order, otherwise one reordering that
/// leaves the keys sorted and every entry intact.
pub open spec fn sort_outcome(t0: toml_edit::Table, t1: toml_edit::Table, n: int) -> bool {
    &&& same_entries(t0, t1)
    &&& sorted(model_keys(table_model(t1)))
    &&& (n == 0 || n == 1)
    &&& ((n == 0) <==> sorted(model_keys(table_model(t0))))
    &&& (n == 0 ==> t1 == t0)
}

/// Sorts a table's entries into lexicographic key order, transplanting each
/// entry whole; reports one change when a reordering happened.
pub fn sort_table(t: toml_edit::Table) -> (r: (toml_edit::Table, usize))
    ensures
        sort_outcome(t, r.0, r.1 as int),
        table_implicit(r.0) == table_implicit(t),
{
    let ghost m0 = table_model(t);
    let keys = table_keys(&t);
    let keys2 = table_keys(&t);
    let ghost kv = views_of(keys@);
    let sorted_keys = sort_keys(keys2);
    proof {
        assert(kv =~= model_keys(m0));
        assert(views_of(keys2@) =~= model_keys(m0));
    }
    if keys_equal(&keys, &sorted_keys) {
        proof {
            assert(model_keys(m0) == views_of(sorted_keys@));
            assert(sorted(model_keys(m0)));
        }
        return (t, 0);
    }
    proof {
        assert forall|a: int, b: int| 0 <= a < b < m0.len() implies m0[a].0 != m0[b].0 by {
            assert(keys@[a]@ == m0[a].0);
            assert(keys@[b]@ == m0[b].0);
        }
        assert(keys_distinct(m0));
        if sorted(model_keys(m0)) {
            lemma_sorted_unique(kv, views_of(sorted_keys@));
            assert(kv == views_of(sorted_keys@));
            assert(false);
        }
        assert(kv.no_duplicates()) by {
            assert forall|a: int, b: int|
                0 <= a < kv.len() && 0 <= b < kv.len() && a != b implies kv[a] != kv[b] by {
                assert(kv[a] == m0[a].0);
                assert(kv[b] == m0[b].0);
            }
        }
        kv.lemma_multiset_has_no_duplicates();
        views_of(sorted_keys@).lemma_multiset_has_no_duplicates_conv();
        assert forall|l: int| 0 <= l < sorted_keys@.len() implies model_keys(m0).contains(
            #[trigger] views_of(sorted_keys@)[l],
        ) by {
            assert(views_of(sorted_keys@).contains(views_of(sorted_keys@)[l]));
            vstd::seq_lib::to_multiset_contains(
                views_of(sorted_keys@),
                views_of(sorted_keys@)[l],
            );
            vstd::seq_lib::to_multiset_contains(model_keys(m0), views_of(sorted_keys@)[l]);
        }
    }
    let t2 = reorder_table(t, &sorted_keys);
    proof {
        assert(model_keys(table_model(t2)) =~= views_of(sorted_keys@)) by {
            assert(table_model(t2).len() == m0.len());
            assert(sorted_keys@.len() == m0.len()) by {
                vstd::seq_lib::to_multiset_len(views_of(sorted_keys@));
                vstd::seq_lib::to_multiset_len(model_keys(m0));
            }
            assert forall|j: int| 0 <= j < m0.len() implies model_keys(table_model(t2))[j]
                == views_of(sorted_keys@)[j] by {
                assert(table_model(t2)[m0.len() - sorted_keys@.len() + j].0 == views_of(
                    sorted_keys@,
                )[j]);
            }
        }
        assert(sorted(model_keys(table_model(t2))));
    }
    (t2, 1)
}

/// What the canonical-key orderer does to a table: no change when the keys
/// already stand in canonical order, otherwise one reordering into it, every
/// entry intact.
pub open spec fn order_outcome(
    t0: toml_edit::Table,
    t1: toml_edit::Table,
    n: int,
    canon: Seq<Seq<char>>,
) -> bool {
    &&& same_entries(t0, t1)
    &&& model_keys(table_model(t1)) == expected_order(canon, model_keys(table_model(t0)))
    &&& (n == 0 || n == 1)
    &&& ((n == 0) <==> model_keys(table_model(t0)) == expected_order(
        canon,
        model_keys(table_model(t0)),
    ))
    &&& (n == 0 ==> t1 == t0)
}

/// Reorders a table's entries into the canonical arrangement: the canonical
/// keys that are present first, in canonical order, then the rest in their
/// original relative order.
pub fn order_table_keys(t: toml_edit::Table, canon: &Vec<Vec<char>>) -> (r: (
    toml_edit::Table,
    usize,
))
    requires
        views_of(canon@).no_duplicates(),
    ensures
        order_outcome(t, r.0, r.1 as int, views_of(canon@)),
        table_implicit(r.0) == table_implicit(t),
{
    let ghost m0 = table_model(t);
    let keys = table_keys(&t);
    let ghost kv = views_of(keys@);
    let expected = compute_expected(canon, &keys);
    proof {
        assert(kv =~= model_keys(m0));
    }
    if keys_equal(&keys, &expected) {
        return (t, 0);
    }
    proof {
        assert forall|a: int, b: int| 0 <= a < b < m0.len() implies m0[a].0 != m0[b].0 by {
            assert(keys@[a]@ == m0[a].0);
            assert(keys@[b]@ == m0[b].0);
        }
        assert(keys_distinct(m0));
        assert(kv.no_duplicates()) by {
            assert forall|a: int, b: int|
                0 <= a < kv.len() && 0 <= b < kv.len() && a != b implies kv[a] != kv[b] by {
                assert(kv[a] == m0[a].0);
                assert(kv[b] == m0[b].0);
            }
        }
        lemma_expected_order_permutation(views_of(canon@), kv);
        assert forall|l: int| 0 <= l < expected@.len() implies model_keys(m0).contains(
            #[trigger] views_of(expected@)[l],
        ) by {
            assert(views_of(expected@).contains(views_of(expected@)[l]));
        }
    }
    let t2 = reorder_table(t, &expected);
    proof {
        assert(model_keys(table_model(t2)) =~= views_of(expected@)) by {
            assert(expected@.len() == m0.len());
            assert forall|j: int| 0 <= j < m0.len() implies model_keys(table_model(t2))[j]
                == views_of(expected@)[j] by {
                assert(table_model(t2)[m0.len() - expected@.len() + j].0 == views_of(
                    expected@,
                )[j]);
            }
        }
    }
    (t2, 1)
}


/// Two models with the same keys at the same places find any key at the
/// same index.
pub proof fn lemma_model_find_same_keys(
    m0: Seq<(Seq<char>, toml_edit::Item)>,
    m1: Seq<(Seq<char>, toml_edit::Item)>,
    k: Seq<char>,
    i: int,
)
    requires
        0 <= i <= m0.len(),
        m0.len() == m1.len(),
        forall|j: int| 0 <= j < m0.len() ==> m1[j].0 == #[trigger] m0[j].0,
    ensures
        model_find(m1, k, i) == model_find(m0, k, i),
    decreases m0.len() - i,
{
    if i < m0.len() {
        lemma_model_find_same_keys(m0, m1, k, i + 1);
    }
}

/// What the collapser does to a whole table.
pub open spec fn collapse_outcome(t0: toml_edit::Table, t1: toml_edit::Table, n: int) -> bool {
    &&& table_model(t1).len() == table_model(t0).len()
    &&& (forall|j: int|
        0 <= j < table_model(t0).len() ==> table_model(t1)[j].0 == table_model(t0)[j].0)
    &&& (forall|j: int|
        0 <= j < table_model(t0).len() ==> collapsed_entry_ok(
            table_model(t0)[j].1,
            table_model(t1)[j].1,
        ))
    &&& n == count_collapsible(table_model(t0))
    &&& table_dotted(t1) == table_dotted(t0)
}

/// Decides whether a table's keys already stand in lexicographic order.
pub fn table_is_sorted(t: &toml_edit::Table) -> (r: bool)
    ensures
        r == sorted(model_keys(table_model(*t))),
{
    let ghost m0 = table_model(*t);
    let keys = table_keys(t);
    let keys2 = table_keys(t);
    let ghost kv = views_of(keys@);
    let sorted_keys = sort_keys(keys2);
    proof {
        assert(kv =~= model_keys(m0));
        assert(views_of(keys2@) =~= model_keys(m0));
    }
    let eq = keys_equal(&keys, &sorted_keys);
    proof {
        if eq {
            assert(model_keys(m0) == views_of(sorted_keys@));
        } else {
            if sorted(model_keys(m0)) {
                lemma_sorted_unique(kv, views_of(sorted_keys@));
                assert(false);
            }
        }
    }
    eq
}

} // verus!

verus! {

/// The collapsible count is never negative.
pub proof fn lemma_count_collapsible_nonneg(m: Seq<(Seq<char>, toml_edit::Item)>)
    ensures
        count_collapsible(m) >= 0,
    decreases m.len(),
{
    if m.len() > 0 {
        lemma_count_collapsible_nonneg(m.drop_last());
    }
}

/// The collapsible count is zero exactly when no entry is collapsible.
pub proof fn lemma_count_collapsible_zero(m: Seq<(Seq<char>, toml_edit::Item)>)
    ensures
        (count_collapsible(m) == 0) <==> (forall|j: int|
            0 <= j < m.len() ==> !entry_collapsible(#[trigger] m[j].1)),
    decreases m.len(),
{
    if m.len() > 0 {
        lemma_count_collapsible_zero(m.drop_last());
        lemma_count_collapsible_nonneg(m.drop_last());
        assert(m.drop_last().len() == m.len() - 1);
        assert(forall|j: int| 0 <= j < m.len() - 1 ==> m.drop_last()[j] == m[j]);
        if count_collapsible(m) == 0 {
            assert(!entry_collapsible(m.last().1));
            assert(forall|j: int| 0 <= j < m.len() - 1 ==> !entry_collapsible(#[trigger] m[j].1));
        }
    }
}

/// Collapsing is idempotent: a table the collapser has been over has
/// nothing left to collapse, so a second run reports zero changes.
pub proof fn lemma_collapse_idempotent(t0: toml_edit::Table, t1: toml_edit::Table, n: int)
    requires
        collapse_outcome(t0, t1, n),
    ensures
        count_collapsible(table_model(t1)) == 0,
{
    let m0 = table_model(t0);
    let m1 = table_model(t1);
    assert forall|j: int| 0 <= j < m1.len() implies !entry_collapsible(#[trigger] m1[j].1) by {
        assert(collapsed_entry_ok(m0[j].1, m1[j].1));
        if entry_collapsible(m0[j].1) {
            assert(item_view(m1[j].1) is Val);
        } else {
            assert(m1[j] == m0[j]);
        }
    }
    lemma_count_collapsible_zero(m1);
}

/// Sorting is idempotent: running the key sorter on its own output reports
/// zero changes and returns the table unchanged.
pub proof fn lemma_sort_idempotent(
    t0: toml_edit::Table,
    t1: toml_edit::Table,
    t2: toml_edit::Table,
    n1: int,
    n2: int,
)
    requires
        sort_outcome(t0, t1, n1),
        sort_outcome(t1, t2, n2),
    ensures
        n2 == 0,
        t2 == t1,
{
}

/// Canonical key ordering is idempotent: running the orderer on its own
/// output reports zero changes and returns the table unchanged.
pub proof fn lemma_order_idempotent(
    t0: toml_edit::Table,
    t1: toml_edit::Table,
    t2: toml_edit::Table,
    n1: int,
    n2: int,
    canon: Seq<Seq<char>>,
)
    requires
        order_outcome(t0, t1, n1, canon),
        order_outcome(t1, t2, n2, canon),
    ensures
        n2 == 0,
        t2 == t1,
{
    crate::order::lemma_expected_order_idempotent(canon, model_keys(table_model(t0)));
}

} // verus!
