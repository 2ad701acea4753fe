use vstd::prelude::*;
use crate::text::views_of;
use crate::order::{sorted, expected_order};
use crate::toml_io::{table_model, table_dotted, table_implicit, item_view, doc_model, parse_of,
    render_of, model_find, model_keys, ItemView, Parsed, doc_parse, doc_render, doc_get_table,
    doc_take_table, doc_put_table, table_set_implicit, str_chars};
use crate::transform::{collapse_outcome, sort_outcome, order_outcome, collapse_table_entries,
    count_collapsible_entries, sort_table, order_table_keys, table_is_sorted,
    lemma_model_find_same_keys};

verus! {

// The transform pipeline, one manifest at a time: collapse nested tables,
// reorder the top-level sections through the text pass, order the package
// keys, sort each dependency section, and report how many changes were made.

/// What one doc-level pass did to the named section, stated over the root
/// model: nothing at all, or exactly that section's table replaced.
pub open spec fn section_replaced(
    m0: Seq<(Seq<char>, toml_edit::Item)>,
    m1: Seq<(Seq<char>, toml_edit::Item)>,
    name: Seq<char>,
) -> bool {
    let f = model_find(m0, name, 0);
    &&& m1.len() == m0.len()
    &&& (forall|j: int| 0 <= j < m0.len() && j != f ==> m1[j] == m0[j])
    &&& m1[f].0 == name
    &&& (item_view(m1[f].1) is Tbl)
}

/// The named section's table, when that section is a standard table.
pub open spec fn section_table(m: Seq<(Seq<char>, toml_edit::Item)>, name: Seq<char>)
    -> toml_edit::Table {
    item_view(m[model_find(m, name, 0)].1)->Tbl_t
}

/// True when the root model has the named section as a standard table.
pub open spec fn has_section(m: Seq<(Seq<char>, toml_edit::Item)>, name: Seq<char>) -> bool {
    let f = model_find(m, name, 0);
    f >= 0 && (item_view(m[f].1) is Tbl)
}

/// A pass that replaces one section's item and touches nothing else keeps
/// every root key in place and finds the section where it was.
proof fn lemma_section_keys_preserved(
    m0: Seq<(Seq<char>, toml_edit::Item)>,
    m1: Seq<(Seq<char>, toml_edit::Item)>,
    name: Seq<char>,
)
    requires
        0 <= model_find(m0, name, 0) < m0.len(),
        m0[model_find(m0, name, 0)].0 == name,
        m1.len() == m0.len(),
        forall|j: int| 0 <= j < m0.len() && j != model_find(m0, name, 0) ==> m1[j] == m0[j],
        m1[model_find(m0, name, 0)].0 == name,
    ensures
        forall|j: int| 0 <= j < m0.len() ==> m1[j].0 == #[trigger] m0[j].0,
        model_find(m1, name, 0) == model_find(m0, name, 0),
{
    let f = model_find(m0, name, 0);
    assert forall|j: int| 0 <= j < m0.len() implies m1[j].0 == #[trigger] m0[j].0 by {
        if j != f {
            assert(m1[j] == m0[j]);
        }
    }
    lemma_model_find_same_keys(m0, m1, name, 0);
}

/// What collapsing one section does to the document: nothing at all when
/// the section is absent, not a table, or has nothing to collapse; else
/// exactly that section's table replaced by its collapse, marked explicit
/// so its header is emitted plainly.
pub open spec fn collapse_pass(
    din: toml_edit::DocumentMut,
    dout: toml_edit::DocumentMut,
    n: int,
    name: Seq<char>,
) -> bool {
    let m0 = doc_model(din);
    &&& (n == 0 ==> dout == din)
    &&& (if has_section(m0, name) {
        &&& n == crate::transform::count_collapsible(table_model(section_table(m0, name)))
        &&& (n > 0 ==> section_replaced(m0, doc_model(dout), name)
            && collapse_outcome(
            section_table(m0, name),
            section_table(doc_model(dout), name),
            n,
        )
            && !table_implicit(section_table(doc_model(dout), name)))
    } else {
        n == 0
    })
}

/// Collapses the eligible nested tables of one section. When the section is
/// absent, not a table, or has nothing to collapse, the document comes back
/// untouched; a changed section is marked explicit so it serializes with
/// its own header.
pub fn collapse_doc_section(doc: toml_edit::DocumentMut, name: &Vec<char>) -> (r: (
    toml_edit::DocumentMut,
    usize,
))
    ensures
        collapse_pass(doc, r.0, r.1 as int, name@),
{
    let ghost m0 = doc_model(doc);
    let cnt = match doc_get_table(&doc, name) {
        Some(sec) => count_collapsible_entries(sec),
        None => 0,
    };
    if cnt == 0 {
        return (doc, 0);
    }
    let mut doc = doc;
    match doc_take_table(&mut doc, name) {
        Some(sec) => {
            let ghost f = model_find(m0, name@, 0);
            let ghost mt = doc_model(doc);
            let (sec2, n) = collapse_table_entries(sec);
            let mut sec2 = sec2;
            table_set_implicit(&mut sec2, false);
            proof {
                crate::transform::lemma_model_find_hit(m0, name@, 0);
                lemma_section_keys_preserved(m0, mt, name@);
            }
            doc_put_table(&mut doc, name, sec2);
            proof {
                let m1 = doc_model(doc);
                lemma_section_keys_preserved(mt, m1, name@);
                assert(model_find(m1, name@, 0) == f);
                assert(section_table(m1, name@) == sec2);
            }
            (doc, n)
        },
        None => {
            proof {
                assert(false);
            }
            (doc, 0)
        },
    }
}

/// What sorting one dependency section does to the document: nothing when
/// the section is absent, not a table, or already sorted; else exactly that
/// section's table replaced by its sorted form.
pub open spec fn sort_pass(
    din: toml_edit::DocumentMut,
    dout: toml_edit::DocumentMut,
    n: int,
    name: Seq<char>,
) -> bool {
    let m0 = doc_model(din);
    &&& (n == 0 ==> dout == din)
    &&& (n == 0 || n == 1)
    &&& (if has_section(m0, name) {
        &&& ((n == 0) <==> sorted(model_keys(table_model(section_table(m0, name)))))
        &&& (n == 1 ==> section_replaced(m0, doc_model(dout), name)
            && sort_outcome(
            section_table(m0, name),
            section_table(doc_model(dout), name),
            1,
        ))
    } else {
        n == 0
    })
}

/// Sorts one dependency section into lexicographic key order. When the
/// section is absent, not a table, or already sorted, the document comes
/// back untouched.
pub fn sort_doc_section(doc: toml_edit::DocumentMut, name: &Vec<char>) -> (r: (
    toml_edit::DocumentMut,
    usize,
))
    ensures
        sort_pass(doc, r.0, r.1 as int, name@),
{
    let ghost m0 = doc_model(doc);
    let needs = match doc_get_table(&doc, name) {
        Some(sec) => !table_is_sorted(sec),
        None => false,
    };
    if !needs {
        return (doc, 0);
    }
    let mut doc = doc;
    match doc_take_table(&mut doc, name) {
        Some(sec) => {
            let ghost f = model_find(m0, name@, 0);
            let ghost mt = doc_model(doc);
            let (sec2, n) = sort_table(sec);
            proof {
                assert(n == 1);
                crate::transform::lemma_model_find_hit(m0, name@, 0);
                lemma_section_keys_preserved(m0, mt, name@);
            }
            doc_put_table(&mut doc, name, sec2);
            proof {
                let m1 = doc_model(doc);
                lemma_section_keys_preserved(mt, m1, name@);
                assert(model_find(m1, name@, 0) == f);
                assert(section_table(m1, name@) == sec2);
            }
            (doc, n)
        },
        None => {
            proof {
                assert(false);
            }
            (doc, 0)
        },
    }
}

/// What reordering one section's keys into the canonical arrangement does
/// to the document: nothing when the section is absent, not a table, or
/// already in order; else exactly that section's table replaced.
pub open spec fn order_pass(
    din: toml_edit::DocumentMut,
    dout: toml_edit::DocumentMut,
    n: int,
    name: Seq<char>,
    cv: Seq<Seq<char>>,
) -> bool {
    let m0 = doc_model(din);
    &&& (n == 0 ==> dout == din)
    &&& (n == 0 || n == 1)
    &&& (if has_section(m0, name) {
        let keys0 = model_keys(table_model(section_table(m0, name)));
        &&& ((n == 0) <==> keys0 == expected_order(cv, keys0))
        &&& (n == 1 ==> section_replaced(m0, doc_model(dout), name)
            && order_outcome(
            section_table(m0, name),
            section_table(doc_model(dout), name),
            1,
            cv,
        ))
    } else {
        n == 0
    })
}

/// Reorders the keys of one section into the canonical arrangement. When
/// the section is absent, not a table, or already in order, the document
/// comes back untouched.
pub fn order_doc_section(doc: toml_edit::DocumentMut, name: &Vec<char>, canon: &Vec<Vec<char>>)
    -> (r: (toml_edit::DocumentMut, usize))
    requires
        views_of(canon@).no_duplicates(),
    ensures
        order_pass(doc, r.0, r.1 as int, name@, views_of(canon@)),
{
    let ghost m0 = doc_model(doc);
    let needs = match doc_get_table(&doc, name) {
        Some(sec) => {
            let keys = crate::toml_io::table_keys(sec);
            let expected = crate::order::compute_expected(canon, &keys);
            let eq = crate::order::keys_equal(&keys, &expected);
            proof {
                assert(views_of(keys@) =~= model_keys(table_model(*sec)));
            }
            !eq
        },
        None => false,
    };
    if !needs {
        return (doc, 0);
    }
    let mut doc = doc;
    match doc_take_table(&mut doc, name) {
        Some(sec) => {
            let ghost f = model_find(m0, name@, 0);
            let ghost mt = doc_model(doc);
            let (sec2, n) = order_table_keys(sec, canon);
            proof {
                assert(n == 1);
                crate::transform::lemma_model_find_hit(m0, name@, 0);
                lemma_section_keys_preserved(m0, mt, name@);
            }
            doc_put_table(&mut doc, name, sec2);
            proof {
                let m1 = doc_model(doc);
                lemma_section_keys_preserved(mt, m1, name@);
                assert(model_find(m1, name@, 0) == f);
                assert(section_table(m1, name@) == sec2);
            }
            (doc, n)
        },
        None => {
            proof {
                assert(false);
            }
            (doc, 0)
        },
    }
}

} // verus!

verus! {

/// Saturating change-count accumulation: exact wherever the sum fits, and
/// zero exactly when both parts are zero.
pub fn add_changes(a: usize, b: usize) -> (r: usize)
    ensures
        (r == 0) <==> (a == 0 && b == 0),
        a + b <= usize::MAX ==> r == a + b,
        r >= a,
        r >= b,
{
    if a <= usize::MAX - b {
        a + b
    } else {
        usize::MAX
    }
}

/// The canonical top-level section order.
pub open spec fn section_canon() -> Seq<Seq<char>> {
    seq![
        "package"@,
        "lib"@,
        "bin"@,
        "test"@,
        "bench"@,
        "example"@,
        "dependencies"@,
        "dev-dependencies"@,
        "build-dependencies"@,
        "target"@,
        "features"@,
    ]
}

/// The canonical order of the package section's leading keys.
pub open spec fn package_canon() -> Seq<Seq<char>> {
    seq![
        "name"@,
        "description"@,
        "version"@,
        "edition"@,
        "license-file"@,
        "authors"@,
        "rust-version"@,
        "readme"@,
    ]
}

/// Builds the canonical section list.
pub fn section_order_list() -> (r: Vec<Vec<char>>)
    ensures
        views_of(r@) == section_canon(),
        views_of(r@).no_duplicates(),
{
    let mut r: Vec<Vec<char>> = Vec::new();
    r.push(str_chars("package"));
    r.push(str_chars("lib"));
    r.push(str_chars("bin"));
    r.push(str_chars("test"));
    r.push(str_chars("bench"));
    r.push(str_chars("example"));
    r.push(str_chars("dependencies"));
    r.push(str_chars("dev-dependencies"));
    r.push(str_chars("build-dependencies"));
    r.push(str_chars("target"));
    r.push(str_chars("features"));
    proof {
        assert(views_of(r@) =~= section_canon());
        reveal_strlit("package");
        reveal_strlit("lib");
        reveal_strlit("bin");
        reveal_strlit("test");
        reveal_strlit("bench");
        reveal_strlit("example");
        reveal_strlit("dependencies");
        reveal_strlit("dev-dependencies");
        reveal_strlit("build-dependencies");
        reveal_strlit("target");
        reveal_strlit("features");
        assert forall|i: int, j: int|
            0 <= i < views_of(r@).len() && 0 <= j < views_of(r@).len() && i != j implies views_of(
            r@,
        )[i] != views_of(r@)[j] by {
            let a = views_of(r@)[i];
            let b = views_of(r@)[j];
            if a.len() == b.len() {
                assert(a[0] != b[0]);
            }
        }
        assert(views_of(r@).no_duplicates());
    }
    r
}

/// Builds the canonical package key list.
pub fn package_order_list() -> (r: Vec<Vec<char>>)
    ensures
        views_of(r@) == package_canon(),
        views_of(r@).no_duplicates(),
{
    let mut r: Vec<Vec<char>> = Vec::new();
    r.push(str_chars("name"));
    r.push(str_chars("description"));
    r.push(str_chars("version"));
    r.push(str_chars("edition"));
    r.push(str_chars("license-file"));
    r.push(str_chars("authors"));
    r.push(str_chars("rust-version"));
    r.push(str_chars("readme"));
    proof {
        assert(views_of(r@) =~= package_canon());
        reveal_strlit("name");
        reveal_strlit("description");
        reveal_strlit("version");
        reveal_strlit("edition");
        reveal_strlit("license-file");
        reveal_strlit("authors");
        reveal_strlit("rust-version");
        reveal_strlit("readme");
        assert forall|i: int, j: int|
            0 <= i < views_of(r@).len() && 0 <= j < views_of(r@).len() && i != j implies views_of(
            r@,
        )[i] != views_of(r@)[j] by {
            let a = views_of(r@)[i];
            let b = views_of(r@)[j];
            if a.len() == b.len() {
                assert(a[0] != b[0]);
            }
        }
        assert(views_of(r@).no_duplicates());
    }
    r
}

/// Reorders the document's top-level sections through the text pass: when
/// the root keys already stand in canonical order nothing happens; else the
/// serialized text is split at its headers, reassembled in canonical order,
/// and re-parsed. A re-parse failure is surfaced and the document dropped.
pub fn reorder_sections_doc(doc: toml_edit::DocumentMut, canon: &Vec<Vec<char>>) -> (r: Result<
    (toml_edit::DocumentMut, usize),
    toml_edit::TomlError,
>)
    requires
        views_of(canon@).no_duplicates(),
    ensures
        ({
            let m0 = doc_model(doc);
            let keys0 = model_keys(m0);
            let expected = expected_order(views_of(canon@), keys0);
            let re = crate::sections::reassemble(
                crate::sections::scan_sections(crate::sections::lines_of(render_of(doc))),
                expected,
            );
            match r {
                Ok(p) => {
                    &&& (p.1 == 0 || p.1 == 1)
                    &&& ((p.1 == 0) <==> keys0 == expected)
                    &&& (p.1 == 0 ==> p.0 == doc)
                    &&& (p.1 == 1 ==> parse_of(re) == (Parsed::Doc { d: p.0 }))
                },
                Err(_) => keys0 != expected && (parse_of(re) is Fail),
            }
        }),
        ({
            // No captured section is dropped or doubled by the text pass:
            // captured names come out distinct, and whenever every captured
            // name is a root key of the document (so stands in the expected
            // order), the reassembled text holds exactly the captured
            // blocks. What the re-parse makes of that text is the parser's.
            let blocks = crate::sections::scan_sections(
                crate::sections::lines_of(render_of(doc)),
            );
            let expected = expected_order(views_of(canon@), model_keys(doc_model(doc)));
            (r matches Ok(p) && p.1 == 1) ==> {
                &&& crate::sections::block_names(blocks).no_duplicates()
                &&& ((forall|i: int|
                    0 <= i < blocks.len() ==> expected.contains(#[trigger] blocks[i].0))
                    ==> crate::sections::chosen_blocks(blocks, expected).to_multiset()
                        == blocks.to_multiset())
            }
        }),
{
    let keys = crate::toml_io::doc_keys(&doc);
    let ghost m0 = doc_model(doc);
    proof {
        assert(views_of(keys@) =~= model_keys(m0));
    }
    let expected = crate::order::compute_expected(canon, &keys);
    if crate::order::keys_equal(&keys, &expected) {
        return Ok((doc, 0));
    }
    let text = doc_render(&doc);
    let new_text = crate::sections::reorder_text(&text, &expected);
    proof {
        let blocks = crate::sections::scan_sections(crate::sections::lines_of(render_of(doc)));
        let expectedv = expected_order(views_of(canon@), model_keys(m0));
        crate::sections::lemma_scan_names_distinct(crate::sections::lines_of(render_of(doc)));
        assert(views_of(keys@).no_duplicates()) by {
            assert forall|a: int, b: int|
                0 <= a < views_of(keys@).len() && 0 <= b < views_of(keys@).len() && a != b
                implies views_of(keys@)[a] != views_of(keys@)[b] by {
                assert(views_of(keys@)[a] == keys@[a]@);
                assert(views_of(keys@)[b] == keys@[b]@);
            }
        }
        crate::order::lemma_expected_order_permutation(views_of(canon@), model_keys(m0));
        if forall|i: int| 0 <= i < blocks.len() ==> expectedv.contains(#[trigger] blocks[i].0) {
            crate::sections::lemma_reassemble_keeps_blocks(blocks, expectedv);
        }
    }
    match doc_parse(&new_text) {
        Ok(d2) => Ok((d2, 1)),
        Err(e) => Err(e),
    }
}

} // verus!

verus! {

/// The changes the walker owes one dependency table: its collapsible
/// entries, plus one when sorting is on and its keys are out of order.
pub open spec fn deps_changes(dt0: toml_edit::Table, do_sort: bool) -> int {
    crate::transform::count_collapsible(table_model(dt0)) + (if do_sort && !sorted(
        model_keys(table_model(dt0)),
    ) {
        1int
    } else {
        0int
    })
}

/// The changes the walker owes one target entry's configuration table:
/// those of its dependency table, when it has one.
pub open spec fn cfg_changes(cfg0: toml_edit::Table, do_sort: bool, dep: Seq<char>) -> int {
    if has_section(table_model(cfg0), dep) {
        deps_changes(section_table(table_model(cfg0), dep), do_sort)
    } else {
        0
    }
}

/// The changes the walker owes the whole target section: the sum over its
/// entries.
pub open spec fn targets_changes(
    tm: Seq<(Seq<char>, toml_edit::Item)>,
    do_sort: bool,
    dep: Seq<char>,
) -> int
    decreases tm.len(),
{
    if tm.len() == 0 {
        0
    } else {
        targets_changes(tm.drop_last(), do_sort, dep) + (match item_view(tm.last().1) {
            ItemView::Tbl { t } => cfg_changes(t, do_sort, dep),
            _ => 0,
        })
    }
}

/// No table owes a negative change count.
pub proof fn lemma_cfg_changes_nonneg(cfg0: toml_edit::Table, do_sort: bool, dep: Seq<char>)
    ensures
        cfg_changes(cfg0, do_sort, dep) >= 0,
{
    if has_section(table_model(cfg0), dep) {
        crate::transform::lemma_count_collapsible_nonneg(
            table_model(section_table(table_model(cfg0), dep)),
        );
    }
}

/// The target section's owed count is the sum of non-negative parts.
pub proof fn lemma_targets_changes_nonneg(
    tm: Seq<(Seq<char>, toml_edit::Item)>,
    do_sort: bool,
    dep: Seq<char>,
)
    ensures
        targets_changes(tm, do_sort, dep) >= 0,
        tm.len() > 0 ==> targets_changes(tm, do_sort, dep) >= targets_changes(
            tm.drop_last(),
            do_sort,
            dep,
        ),
    decreases tm.len(),
{
    if tm.len() > 0 {
        lemma_targets_changes_nonneg(tm.drop_last(), do_sort, dep);
        match item_view(tm.last().1) {
            ItemView::Tbl { t } => {
                lemma_cfg_changes_nonneg(t, do_sort, dep);
            },
            _ => {},
        }
    }
}

/// What processing one configuration table does: its dependency table (when
/// it has one, as a standard table) is collapsed and, when asked, sorted,
/// in place; every other entry stays; a collapsed table is marked explicit.
/// A configuration without such a dependency table comes back untouched.
pub open spec fn config_deps_result(
    cfg0: toml_edit::Table,
    cfg1: toml_edit::Table,
    do_sort: bool,
    dep: Seq<char>,
) -> bool {
    let dm0 = table_model(cfg0);
    let dm1 = table_model(cfg1);
    if has_section(dm0, dep) {
        let f = model_find(dm0, dep, 0);
        let dt0 = section_table(dm0, dep);
        &&& dm1.len() == dm0.len()
        &&& (forall|j: int| 0 <= j < dm0.len() && j != f ==> dm1[j] == dm0[j])
        &&& dm1[f].0 == dep
        &&& (item_view(dm1[f].1) is Tbl)
        &&& (exists|mid: toml_edit::Table|
            {
                let dt1 = section_table(dm1, dep);
                &&& #[trigger] crate::transform::collapse_outcome(
                    dt0,
                    mid,
                    crate::transform::count_collapsible(table_model(dt0)),
                )
                &&& (if do_sort {
                    crate::transform::sort_outcome(
                        mid,
                        dt1,
                        if sorted(model_keys(table_model(mid))) {
                            0int
                        } else {
                            1int
                        },
                    )
                } else {
                    dt1 == mid
                })
                &&& (crate::transform::count_collapsible(table_model(dt0)) > 0
                    ==> !table_implicit(dt1))
            })
    } else {
        cfg1 == cfg0
    }
}

/// What the target walker does to one entry of the target section: the
/// configuration table it holds is processed; anything else stays as it is.
pub open spec fn target_entry_ok(
    it0: toml_edit::Item,
    it1: toml_edit::Item,
    do_sort: bool,
    dep: Seq<char>,
) -> bool {
    match item_view(it0) {
        ItemView::Tbl { t } => (item_view(it1) is Tbl) && config_deps_result(
            t,
            item_view(it1)->Tbl_t,
            do_sort,
            dep,
        ),
        _ => it1 == it0,
    }
}

/// What the target walker does to the whole document: nothing at all when
/// no platform-scoped dependency table needs a change; else exactly the
/// target section replaced, entry by entry, with the owed change count.
pub open spec fn targets_pass(
    din: toml_edit::DocumentMut,
    dout: toml_edit::DocumentMut,
    n: int,
    do_sort: bool,
) -> bool {
    let m0 = doc_model(din);
    let dep = "dependencies"@;
    &&& (n == 0 ==> dout == din)
    &&& (if has_section(m0, "target"@) {
        let tm0 = table_model(section_table(m0, "target"@));
        let total = targets_changes(tm0, do_sort, dep);
        &&& ((n == 0) <==> total == 0)
        &&& (total <= usize::MAX ==> n == total)
        &&& (n > 0 ==> section_replaced(m0, doc_model(dout), "target"@) && {
            let tm1 = table_model(section_table(doc_model(dout), "target"@));
            &&& tm1.len() == tm0.len()
            &&& (forall|j: int| 0 <= j < tm0.len() ==> tm1[j].0 == #[trigger] tm0[j].0)
            &&& (forall|j: int|
                0 <= j < tm0.len() ==> target_entry_ok(
                    #[trigger] tm0[j].1,
                    tm1[j].1,
                    do_sort,
                    dep,
                ))
        })
    } else {
        n == 0
    })
}

/// Whether one target entry's dependency table would be changed.
fn doc_sub_needs(cfg: &toml_edit::Table, dep: &Vec<char>, do_sort: bool) -> (r: bool)
    ensures
        r == (cfg_changes(*cfg, do_sort, dep@) != 0),
{
    proof {
        lemma_cfg_changes_nonneg(*cfg, do_sort, dep@);
        if has_section(table_model(*cfg), dep@) {
            crate::transform::lemma_count_collapsible_nonneg(
                table_model(section_table(table_model(*cfg), dep@)),
            );
        }
    }
    match crate::toml_io::table_get_table(cfg, dep) {
        Some(dt) => {
            proof {
                crate::transform::lemma_model_find_hit(table_model(*cfg), dep@, 0);
                assert(*dt == section_table(table_model(*cfg), dep@));
            }
            let cnt = count_collapsible_entries(dt);
            if cnt > 0 {
                return true;
            }
            if do_sort {
                let srt = table_is_sorted(dt);
                return !srt;
            }
            false
        },
        None => false,
    }
}

/// Collapses and, when asked, sorts the dependency table nested in one
/// target entry; reports how many changes that took.
fn process_config_deps(cfg: toml_edit::Table, dep: &Vec<char>, do_sort: bool) -> (r: (
    toml_edit::Table,
    usize,
))
    ensures
        config_deps_result(cfg, r.0, do_sort, dep@),
        (r.1 == 0) <==> cfg_changes(cfg, do_sort, dep@) == 0,
        cfg_changes(cfg, do_sort, dep@) <= usize::MAX ==> r.1 == cfg_changes(
            cfg,
            do_sort,
            dep@,
        ),
{
    let ghost dm0 = table_model(cfg);
    let ghost cfg_in = cfg;
    proof {
        lemma_cfg_changes_nonneg(cfg, do_sort, dep@);
    }
    let mut cfg = cfg;
    match crate::toml_io::table_take_sub(&mut cfg, dep) {
        Some(dt) => {
            proof {
                let dmm = table_model(cfg);
                crate::transform::lemma_model_find_hit(dm0, dep@, 0);
                lemma_section_keys_preserved(dm0, dmm, dep@);
                assert(dt == section_table(dm0, dep@));
                crate::transform::lemma_count_collapsible_nonneg(table_model(dt));
            }
            let (dt2, c) = collapse_table_entries(dt);
            let mut dt2 = dt2;
            if c > 0 {
                table_set_implicit(&mut dt2, false);
            }
            let ghost mid = dt2;
            let (dt3, s) = if do_sort {
                sort_table(dt2)
            } else {
                (dt2, 0)
            };
            let n = add_changes(c, s);
            proof {
                assert(model_find(table_model(cfg), dep@, 0) == model_find(dm0, dep@, 0));
            }
            let ghost dmm = table_model(cfg);
            crate::toml_io::table_put_sub(&mut cfg, dep, dt3);
            proof {
                let dm1 = table_model(cfg);
                let ff = model_find(dm0, dep@, 0);
                assert(model_find(dmm, dep@, 0) == ff);
                assert(dm1.len() == dm0.len());
                assert forall|j: int| 0 <= j < dm0.len() && j != ff implies dm1[j] == dm0[j] by {
                    assert(dm1[j] == dmm[j]);
                    assert(dmm[j] == dm0[j]);
                }
                lemma_section_keys_preserved(dmm, dm1, dep@);
                assert(model_find(dm1, dep@, 0) == ff);
                let dt0 = section_table(dm0, dep@);
                assert(section_table(dm1, dep@) == dt3);
                assert(crate::transform::collapse_outcome(
                    dt0,
                    mid,
                    crate::transform::count_collapsible(table_model(dt0)) as int,
                ));
                assert(model_keys(table_model(mid)) =~= model_keys(table_model(dt0)));
                if crate::transform::count_collapsible(table_model(dt0)) > 0 {
                    assert(!table_implicit(mid));
                    assert(!table_implicit(dt3));
                }
                if do_sort {
                    assert(crate::transform::sort_outcome(
                        mid,
                        dt3,
                        if sorted(model_keys(table_model(mid))) {
                            0int
                        } else {
                            1int
                        },
                    ));
                } else {
                    assert(dt3 == mid);
                }
                assert(crate::transform::collapse_outcome(
                    section_table(table_model(cfg_in), dep@),
                    mid,
                    crate::transform::count_collapsible(
                        table_model(section_table(table_model(cfg_in), dep@)),
                    ),
                ));
                assert(config_deps_result(cfg_in, cfg, do_sort, dep@));
            }
            (cfg, n)
        },
        None => {
            proof {
                assert(!has_section(dm0, dep@));
                assert(config_deps_result(cfg_in, cfg, do_sort, dep@));
            }
            (cfg, 0)
        },
    }
}

/// Walks the platform-scoped dependency tables nested under the target
/// section: collapses each one's eligible entries and, when `do_sort` is
/// set, sorts its keys. A document with nothing to change comes back
/// untouched.
pub fn process_target_tables(doc: toml_edit::DocumentMut, do_sort: bool) -> (r: (
    toml_edit::DocumentMut,
    usize,
))
    ensures
        targets_pass(doc, r.0, r.1 as int, do_sort),
{
    let tgt = str_chars("target");
    let dep = str_chars("dependencies");
    let ghost m0 = doc_model(doc);
    let mut needs = false;
    let ghost mut tm0: Seq<(Seq<char>, toml_edit::Item)> = Seq::empty();
    match doc_get_table(&doc, &tgt) {
        Some(tt) => {
            proof {
                tm0 = table_model(*tt);
                assert(targets_changes(tm0.take(0), do_sort, dep@) == 0);
            }
            let ckeys = crate::toml_io::table_keys(tt);
            let mut i: usize = 0;
            while i < ckeys.len()
                invariant
                    0 <= i <= ckeys@.len(),
                    tm0 == table_model(*tt),
                    ckeys@.len() == tm0.len(),
                    forall|j: int| 0 <= j < tm0.len() ==> ckeys@[j]@ == tm0[j].0,
                    forall|j: int, l: int| 0 <= j < l < ckeys@.len() ==> ckeys@[j]@ != ckeys@[l]@,
                    needs == (targets_changes(tm0.take(i as int), do_sort, dep@) != 0),
                decreases ckeys.len() - i,
            {
                proof {
                    assert forall|a: int, b: int| 0 <= a < b < tm0.len() implies tm0[a].0
                        != tm0[b].0 by {
                        assert(ckeys@[a]@ == tm0[a].0);
                        assert(ckeys@[b]@ == tm0[b].0);
                    }
                    assert(crate::toml_io::keys_distinct(tm0));
                    assert(ckeys@[i as int]@ == tm0[i as int].0);
                    crate::transform::lemma_model_find_self(tm0, i as int);
                    lemma_targets_changes_nonneg(tm0.take(i as int), do_sort, dep@);
                }
                let mut entry_needs = false;
                match crate::toml_io::table_get_table(tt, &ckeys[i]) {
                    Some(cfg) => {
                        proof {
                            assert(item_view(tm0[i as int].1) == (ItemView::Tbl { t: *cfg }));
                        }
                        entry_needs = doc_sub_needs(cfg, &dep, do_sort);
                        proof {
                            lemma_cfg_changes_nonneg(*cfg, do_sort, dep@);
                        }
                    },
                    None => {
                        proof {
                            assert(!(item_view(tm0[i as int].1) is Tbl));
                        }
                    },
                }
                needs = needs || entry_needs;
                proof {
                    assert(tm0.take(i + 1).drop_last() =~= tm0.take(i as int));
                    assert(tm0.take(i + 1).last() == tm0[i as int]);
                    lemma_targets_changes_nonneg(tm0.take(i + 1), do_sort, dep@);
                }
                i += 1;
            }
            proof {
                assert(tm0.take(tm0.len() as int) =~= tm0);
            }
        },
        None => {},
    }
    if !needs {
        return (doc, 0);
    }
    let mut doc = doc;
    let mut total: usize = 0;
    match doc_take_table(&mut doc, &tgt) {
        Some(tt) => {
            let ghost f = model_find(m0, tgt@, 0);
            let ghost mt = doc_model(doc);
            proof {
                crate::transform::lemma_model_find_hit(m0, tgt@, 0);
                lemma_section_keys_preserved(m0, mt, tgt@);
                assert(tt == section_table(m0, tgt@));
                assert(targets_changes(tm0.take(0), do_sort, dep@) == 0);
            }
            let mut tt = tt;
            let ckeys = crate::toml_io::table_keys(&tt);
            let mut i: usize = 0;
            while i < ckeys.len()
                invariant
                    0 <= i <= ckeys@.len(),
                    ckeys@.len() == tm0.len(),
                    forall|j: int| 0 <= j < tm0.len() ==> ckeys@[j]@ == tm0[j].0,
                    forall|j: int, l: int| 0 <= j < l < ckeys@.len() ==> ckeys@[j]@ != ckeys@[l]@,
                    table_model(tt).len() == tm0.len(),
                    forall|j: int| 0 <= j < tm0.len() ==> table_model(tt)[j].0 == tm0[j].0,
                    forall|j: int| i <= j < tm0.len() ==> table_model(tt)[j] == tm0[j],
                    forall|j: int|
                        0 <= j < i ==> target_entry_ok(
                            #[trigger] tm0[j].1,
                            table_model(tt)[j].1,
                            do_sort,
                            dep@,
                        ),
                    (total == 0) <==> (targets_changes(tm0.take(i as int), do_sort, dep@) == 0),
                    targets_changes(tm0.take(i as int), do_sort, dep@) <= usize::MAX ==> total
                        == targets_changes(tm0.take(i as int), do_sort, dep@),
                decreases ckeys.len() - i,
            {
                let ghost tmc = table_model(tt);
                proof {
                    assert(tmc == table_model(tt));
                    assert forall|a: int, b: int| 0 <= a < b < tmc.len() implies tmc[a].0
                        != tmc[b].0 by {
                        assert(table_model(tt)[a].0 == tm0[a].0);
                        assert(table_model(tt)[b].0 == tm0[b].0);
                        assert(ckeys@[a]@ == tm0[a].0);
                        assert(ckeys@[b]@ == tm0[b].0);
                    }
                    assert(crate::toml_io::keys_distinct(tmc));
                    assert(table_model(tt)[i as int].0 == tm0[i as int].0);
                    assert(ckeys@[i as int]@ == tm0[i as int].0);
                    assert(ckeys@[i as int]@ == tmc[i as int].0);
                    crate::transform::lemma_model_find_self(tmc, i as int);
                    lemma_targets_changes_nonneg(tm0.take(i as int), do_sort, dep@);
                }
                let key = &ckeys[i];
                let ghost pre_total = total;
                match crate::toml_io::table_take_sub(&mut tt, key) {
                    Some(cfg) => {
                        proof {
                            assert(cfg == item_view(tmc[i as int].1)->Tbl_t);
                            assert(tmc[i as int] == tm0[i as int]);
                            let tmm = table_model(tt);
                            crate::transform::lemma_model_find_hit(tmc, key@, 0);
                            lemma_section_keys_preserved(tmc, tmm, key@);
                        }
                        let (cfg2, n) = process_config_deps(cfg, &dep, do_sort);
                        total = add_changes(total, n);
                        proof {
                            assert(model_find(table_model(tt), key@, 0) == i as int);
                        }
                        let ghost tmm = table_model(tt);
                        crate::toml_io::table_put_sub(&mut tt, key, cfg2);
                        proof {
                            let tmn = table_model(tt);
                            assert(model_find(tmm, key@, 0) == i as int);
                            assert(tmn.len() == tm0.len());
                            assert forall|j: int| 0 <= j < tm0.len() implies tmn[j].0
                                == tm0[j].0 by {
                                if j != i {
                                    assert(tmn[j] == tmm[j]);
                                    assert(tmm[j] == tmc[j]);
                                    assert(tmc[j].0 == tm0[j].0);
                                } else {
                                    assert(tmn[j].0 == key@);
                                }
                            }
                            assert forall|j: int| i + 1 <= j < tm0.len() implies tmn[j]
                                == tm0[j] by {
                                assert(tmn[j] == tmm[j]);
                                assert(tmm[j] == tmc[j]);
                            }
                            assert(item_view(tmn[i as int].1) == (ItemView::Tbl { t: cfg2 }));
                            assert(target_entry_ok(tm0[i as int].1, tmn[i as int].1, do_sort, dep@));
                            lemma_cfg_changes_nonneg(cfg, do_sort, dep@);
                        }
                    },
                    None => {
                        proof {
                            assert(!(item_view(tmc[i as int].1) is Tbl));
                            assert(tmc[i as int] == tm0[i as int]);
                            assert(target_entry_ok(tm0[i as int].1, table_model(tt)[i as int].1, do_sort, dep@));
                        }
                    },
                }
                proof {
                    assert(tm0.take(i + 1).drop_last() =~= tm0.take(i as int));
                    assert(tm0.take(i + 1).last() == tm0[i as int]);
                    lemma_targets_changes_nonneg(tm0.take(i + 1), do_sort, dep@);
                }
                i += 1;
            }
            proof {
                assert(tm0.take(tm0.len() as int) =~= tm0);
                assert(total >= 1) by {
                    if total == 0 {
                        assert(targets_changes(tm0, do_sort, dep@) == 0);
                    }
                }
            }
            doc_put_table(&mut doc, &tgt, tt);
            proof {
                let m1 = doc_model(doc);
                lemma_section_keys_preserved(mt, m1, tgt@);
                assert(model_find(m1, tgt@, 0) == f);
                assert(section_table(m1, tgt@) == tt);
            }
            (doc, total)
        },
        None => {
            proof {
                assert(false);
            }
            (doc, 0)
        },
    }
}

} // verus!

verus! {

/// What the caller asked for: write changes back, report them only, or
/// report them and signal failure when any were needed.
pub enum FormatMode {
    Apply,
    DryRun,
    Check,
}

/// The result of formatting one manifest: how many changes the pipeline
/// made, and the manifest text after them.
pub struct FormatOutcome {
    pub changes: usize,
    pub text: Vec<char>,
}

/// Why formatting one manifest failed.
pub enum FmtError {
    /// The manifest text did not parse.
    Parse(toml_edit::TomlError),
    /// The text reassembled by the section orderer did not parse back.
    Reorder(toml_edit::TomlError),
}

/// What the section-reordering stage does to the document, with the
/// canonical section order fixed: nothing when the root keys already stand
/// in canonical order; else the document is replaced by the re-parse of the
/// reassembled text, whose construction is pinned exactly.
pub open spec fn sections_pass_ok(
    din: toml_edit::DocumentMut,
    dout: toml_edit::DocumentMut,
    n: int,
) -> bool {
    let keys0 = model_keys(doc_model(din));
    let expected = expected_order(section_canon(), keys0);
    let re = crate::sections::reassemble(
        crate::sections::scan_sections(crate::sections::lines_of(render_of(din))),
        expected,
    );
    &&& (n == 0 || n == 1)
    &&& ((n == 0) <==> keys0 == expected)
    &&& (n == 0 ==> dout == din)
    &&& (n == 1 ==> parse_of(re) == (Parsed::Doc { d: dout }))
}

/// The pipeline's stages, in their fixed order: collapse the package and
/// the three dependency sections, collapse the target-scoped tables,
/// reorder the top-level sections, order the package keys, sort the three
/// dependency sections, then collapse and sort the target-scoped tables.
pub open spec fn stage_ok(
    k: int,
    din: toml_edit::DocumentMut,
    dout: toml_edit::DocumentMut,
    n: int,
) -> bool {
    if k == 0 {
        collapse_pass(din, dout, n, "package"@)
    } else if k == 1 {
        collapse_pass(din, dout, n, "dependencies"@)
    } else if k == 2 {
        collapse_pass(din, dout, n, "dev-dependencies"@)
    } else if k == 3 {
        collapse_pass(din, dout, n, "build-dependencies"@)
    } else if k == 4 {
        targets_pass(din, dout, n, false)
    } else if k == 5 {
        sections_pass_ok(din, dout, n)
    } else if k == 6 {
        order_pass(din, dout, n, "package"@, package_canon())
    } else if k == 7 {
        sort_pass(din, dout, n, "dependencies"@)
    } else if k == 8 {
        sort_pass(din, dout, n, "dev-dependencies"@)
    } else if k == 9 {
        sort_pass(din, dout, n, "build-dependencies"@)
    } else if k == 10 {
        targets_pass(din, dout, n, true)
    } else {
        false
    }
}

/// A run of every stage in order: `ds` holds the documents before and
/// after each stage, `ns` each stage's change count.
pub open spec fn stage_chain(ds: Seq<toml_edit::DocumentMut>, ns: Seq<int>) -> bool {
    &&& ds.len() == 12
    &&& ns.len() == 11
    &&& (forall|k: int| 0 <= k < 11 ==> stage_ok(k, ds[k], ds[k + 1], #[trigger] ns[k]))
}

/// Runs the whole transform pipeline over one manifest's text: collapse the
/// nested tables of the package, dependency and target sections; reorder
/// the top-level sections; order the package keys; sort each dependency
/// section; collapse and sort each target-scoped dependency table. The
/// result is the render of the document every stage has been over, with
/// the stages' summed change count; a manifest that needed no change comes
/// back byte-identical: its own text is returned, not a re-serialization.
pub fn format_manifest(text: &Vec<char>) -> (r: Result<FormatOutcome, FmtError>)
    ensures
        ({
            match r {
                Ok(o) => (match parse_of(text@) {
                    Parsed::Doc { d } => exists|ds: Seq<toml_edit::DocumentMut>, ns: Seq<int>|
                        #[trigger] stage_chain(ds, ns)
                        && ds[0] == d
                        && ((o.changes == 0) <==> (ns[0] == 0 && ns[1] == 0 && ns[2] == 0
                            && ns[3] == 0 && ns[4] == 0 && ns[5] == 0 && ns[6] == 0
                            && ns[7] == 0 && ns[8] == 0 && ns[9] == 0 && ns[10] == 0))
                        && (ns[0] + ns[1] + ns[2] + ns[3] + ns[4] + ns[5] + ns[6] + ns[7]
                            + ns[8] + ns[9] + ns[10] <= usize::MAX ==> o.changes == ns[0]
                            + ns[1] + ns[2] + ns[3] + ns[4] + ns[5] + ns[6] + ns[7] + ns[8]
                            + ns[9] + ns[10])
                        && (o.changes > 0 ==> o.text@ == render_of(ds[11]))
                        && (o.changes == 0 ==> o.text@ == text@),
                    Parsed::Fail => false,
                }),
                Err(e) => (match e {
                    FmtError::Parse(_) => parse_of(text@) is Fail,
                    FmtError::Reorder(_) => parse_of(text@) is Doc,
                }),
            }
        }),
{
    let doc = match doc_parse(text) {
        Ok(d) => d,
        Err(e) => {
            return Err(FmtError::Parse(e));
        },
    };
    let ghost d0 = doc;
    let pkg = str_chars("package");
    let dep = str_chars("dependencies");
    let dev = str_chars("dev-dependencies");
    let bld = str_chars("build-dependencies");
    let (doc, c1) = collapse_doc_section(doc, &pkg);
    let ghost g1 = doc;
    let (doc, c2) = collapse_doc_section(doc, &dep);
    let ghost g2 = doc;
    let (doc, c3) = collapse_doc_section(doc, &dev);
    let ghost g3 = doc;
    let (doc, c4) = collapse_doc_section(doc, &bld);
    let ghost g4 = doc;
    let (doc, c5) = process_target_tables(doc, false);
    let ghost g5 = doc;
    let scanon = section_order_list();
    let (doc, c6) = match reorder_sections_doc(doc, &scanon) {
        Ok(p) => p,
        Err(e) => {
            return Err(FmtError::Reorder(e));
        },
    };
    let ghost g6 = doc;
    let pcanon = package_order_list();
    let (doc, c7) = order_doc_section(doc, &pkg, &pcanon);
    let ghost g7 = doc;
    let (doc, c8) = sort_doc_section(doc, &dep);
    let ghost g8 = doc;
    let (doc, c9) = sort_doc_section(doc, &dev);
    let ghost g9 = doc;
    let (doc, c10) = sort_doc_section(doc, &bld);
    let ghost g10 = doc;
    let (doc, c11) = process_target_tables(doc, true);
    let ghost g11 = doc;
    let mut total: usize = 0;
    total = add_changes(total, c1);
    total = add_changes(total, c2);
    total = add_changes(total, c3);
    total = add_changes(total, c4);
    total = add_changes(total, c5);
    total = add_changes(total, c6);
    total = add_changes(total, c7);
    total = add_changes(total, c8);
    total = add_changes(total, c9);
    total = add_changes(total, c10);
    total = add_changes(total, c11);
    proof {
        let ds = seq![d0, g1, g2, g3, g4, g5, g6, g7, g8, g9, g10, g11];
        let ns = seq![
            c1 as int,
            c2 as int,
            c3 as int,
            c4 as int,
            c5 as int,
            c6 as int,
            c7 as int,
            c8 as int,
            c9 as int,
            c10 as int,
            c11 as int,
        ];
        assert(sections_pass_ok(g5, g6, c6 as int)) by {
            assert(views_of(scanon@) == section_canon());
        }
        assert forall|k: int| 0 <= k < 11 implies stage_ok(k, ds[k], ds[k + 1], ns[k]) by {
            if k == 0 {
                assert(collapse_pass(d0, g1, c1 as int, "package"@));
            } else if k == 1 {
                assert(collapse_pass(g1, g2, c2 as int, "dependencies"@));
            } else if k == 2 {
                assert(collapse_pass(g2, g3, c3 as int, "dev-dependencies"@));
            } else if k == 3 {
                assert(collapse_pass(g3, g4, c4 as int, "build-dependencies"@));
            } else if k == 4 {
                assert(targets_pass(g4, g5, c5 as int, false));
            } else if k == 5 {
                assert(sections_pass_ok(g5, g6, c6 as int));
            } else if k == 6 {
                assert(order_pass(g6, g7, c7 as int, "package"@, package_canon())) by {
                    assert(views_of(pcanon@) == package_canon());
                }
            } else if k == 7 {
                assert(sort_pass(g7, g8, c8 as int, "dependencies"@));
            } else if k == 8 {
                assert(sort_pass(g8, g9, c9 as int, "dev-dependencies"@));
            } else if k == 9 {
                assert(sort_pass(g9, g10, c10 as int, "build-dependencies"@));
            } else {
                assert(targets_pass(g10, g11, c11 as int, true));
            }
        }
        assert(stage_chain(ds, ns));
    }
    if total == 0 {
        proof {
            assert(doc == d0);
        }
        let out = crate::text::clone_key(text);
        return Ok(FormatOutcome { changes: 0, text: out });
    }
    let out = doc_render(&doc);
    Ok(FormatOutcome { changes: total, text: out })
}

/// Whether a run in this mode writes the rewritten manifest back: only a
/// true apply run with at least one change does.
pub fn should_write(mode: &FormatMode, changes: usize) -> (r: bool)
    ensures
        r == ((mode is Apply) && changes > 0),
{
    match mode {
        FormatMode::Apply => changes > 0,
        FormatMode::DryRun => false,
        FormatMode::Check => false,
    }
}

/// Whether a run in this mode must signal failure to its caller: only a
/// check run that found changes needed does.
pub fn check_failed(mode: &FormatMode, total_changes: usize) -> (r: bool)
    ensures
        r == ((mode is Check) && total_changes > 0),
{
    match mode {
        FormatMode::Check => total_changes > 0,
        FormatMode::Apply => false,
        FormatMode::DryRun => false,
    }
}

} // verus!

verus! {

/// A dependency table that owes no change when sorting is on owes none
/// when it is off either.
proof fn lemma_targets_changes_sorted_zero(
    tm: Seq<(Seq<char>, toml_edit::Item)>,
    dep: Seq<char>,
)
    requires
        targets_changes(tm, true, dep) == 0,
    ensures
        targets_changes(tm, false, dep) == 0,
    decreases tm.len(),
{
    if tm.len() > 0 {
        lemma_targets_changes_nonneg(tm.drop_last(), true, dep);
        lemma_targets_changes_nonneg(tm.drop_last(), false, dep);
        match item_view(tm.last().1) {
            ItemView::Tbl { t } => {
                lemma_cfg_changes_nonneg(t, true, dep);
                lemma_cfg_changes_nonneg(t, false, dep);
                if has_section(table_model(t), dep) {
                    crate::transform::lemma_count_collapsible_nonneg(
                        table_model(section_table(table_model(t), dep)),
                    );
                }
            },
            _ => {},
        }
        lemma_targets_changes_sorted_zero(tm.drop_last(), dep);
    }
}

/// A document already in fully canonical form: nothing to collapse in the
/// package, dependency or target-scoped tables, root sections in canonical
/// order, package keys in canonical order, and every dependency table
/// sorted.
pub open spec fn doc_canonical(d: toml_edit::DocumentMut) -> bool {
    let m = doc_model(d);
    &&& (has_section(m, "package"@) ==> crate::transform::count_collapsible(
        table_model(section_table(m, "package"@)),
    ) == 0)
    &&& (has_section(m, "dependencies"@) ==> crate::transform::count_collapsible(
        table_model(section_table(m, "dependencies"@)),
    ) == 0)
    &&& (has_section(m, "dev-dependencies"@) ==> crate::transform::count_collapsible(
        table_model(section_table(m, "dev-dependencies"@)),
    ) == 0)
    &&& (has_section(m, "build-dependencies"@) ==> crate::transform::count_collapsible(
        table_model(section_table(m, "build-dependencies"@)),
    ) == 0)
    &&& (has_section(m, "target"@) ==> targets_changes(
        table_model(section_table(m, "target"@)),
        true,
        "dependencies"@,
    ) == 0)
    &&& model_keys(m) == expected_order(section_canon(), model_keys(m))
    &&& (has_section(m, "package"@) ==> {
        let k = model_keys(table_model(section_table(m, "package"@)));
        k == expected_order(package_canon(), k)
    })
    &&& (has_section(m, "dependencies"@) ==> sorted(
        model_keys(table_model(section_table(m, "dependencies"@))),
    ))
    &&& (has_section(m, "dev-dependencies"@) ==> sorted(
        model_keys(table_model(section_table(m, "dev-dependencies"@))),
    ))
    &&& (has_section(m, "build-dependencies"@) ==> sorted(
        model_keys(table_model(section_table(m, "build-dependencies"@))),
    ))
}

/// A fully canonical document passes through every stage unchanged with
/// zero changes: the pipeline reports no work on canonical input, which is
/// also what makes a second run over its own output quiet wherever the
/// first run left a canonical document.
pub proof fn lemma_canonical_chain_stable(ds: Seq<toml_edit::DocumentMut>, ns: Seq<int>)
    requires
        stage_chain(ds, ns),
        doc_canonical(ds[0]),
    ensures
        forall|k: int| 0 <= k < 11 ==> ns[k] == 0,
        ds[11] == ds[0],
{
    let d = ds[0];
    let m = doc_model(d);
    assert(stage_ok(0, ds[0], ds[1], ns[0]));
    assert(ns[0] == 0 && ds[1] == ds[0]);
    assert(stage_ok(1, ds[1], ds[2], ns[1]));
    assert(ns[1] == 0 && ds[2] == ds[0]);
    assert(stage_ok(2, ds[2], ds[3], ns[2]));
    assert(ns[2] == 0 && ds[3] == ds[0]);
    assert(stage_ok(3, ds[3], ds[4], ns[3]));
    assert(ns[3] == 0 && ds[4] == ds[0]);
    assert(stage_ok(4, ds[4], ds[5], ns[4]));
    if has_section(m, "target"@) {
        lemma_targets_changes_sorted_zero(table_model(section_table(m, "target"@)), "dependencies"@);
    }
    assert(ns[4] == 0 && ds[5] == ds[0]);
    assert(stage_ok(5, ds[5], ds[6], ns[5]));
    assert(ns[5] == 0 && ds[6] == ds[0]);
    assert(stage_ok(6, ds[6], ds[7], ns[6]));
    assert(ns[6] == 0 && ds[7] == ds[0]);
    assert(stage_ok(7, ds[7], ds[8], ns[7]));
    assert(ns[7] == 0 && ds[8] == ds[0]);
    assert(stage_ok(8, ds[8], ds[9], ns[8]));
    assert(ns[8] == 0 && ds[9] == ds[0]);
    assert(stage_ok(9, ds[9], ds[10], ns[9]));
    assert(ns[9] == 0 && ds[10] == ds[0]);
    assert(stage_ok(10, ds[10], ds[11], ns[10]));
    assert(ns[10] == 0 && ds[11] == ds[0]);
}

} // verus!
