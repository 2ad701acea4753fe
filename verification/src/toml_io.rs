use vstd::prelude::*;

verus! {

// The document tree itself belongs to toml_edit; the library sees it through
// the declarations and wrappers below. Each table is modelled by the ordered
// sequence of its (key, item) entries; items are opaque except for the little
// the transformations must know: which kind an item is, whether a table is
// dotted, and the key/value pairs of an inline-table value.

#[verifier::external_type_specification]
#[verifier::external_body]
pub struct ExDocumentMut(toml_edit::DocumentMut);

#[verifier::external_type_specification]
#[verifier::external_body]
pub struct ExTable(toml_edit::Table);

#[verifier::external_type_specification]
#[verifier::external_body]
pub struct ExItem(toml_edit::Item);

#[verifier::external_type_specification]
#[verifier::external_body]
pub struct ExInlineTable(toml_edit::InlineTable);

#[verifier::external_type_specification]
#[verifier::external_body]
pub struct ExValue(toml_edit::Value);

#[verifier::external_type_specification]
#[verifier::external_body]
pub struct ExTomlError(toml_edit::TomlError);

#[verifier::external_type_specification]
#[verifier::external_body]
pub struct ExKey(toml_edit::Key);

/// What one tree item is, as far as the transformations read it: a plain
/// value, a nested table, or anything else (an array of tables, an empty
/// placeholder).
pub enum ItemView {
    Val { v: toml_edit::Value },
    Tbl { t: toml_edit::Table },
    Other,
}

/// What parsing manifest text yields: a document, or a failure.
pub enum Parsed {
    Doc { d: toml_edit::DocumentMut },
    Fail,
}

/// The ordered (key, item) entries of a table.
pub uninterp spec fn table_model(t: toml_edit::Table) -> Seq<(Seq<char>, toml_edit::Item)>;

/// Whether a table is a dotted-key wrapper rather than a standard table.
pub uninterp spec fn table_dotted(t: toml_edit::Table) -> bool;

/// Whether a table is implicit: one whose header is left out when it has no
/// direct key/value pairs of its own.
pub uninterp spec fn table_implicit(t: toml_edit::Table) -> bool;

/// The kind of an item, with its payload where the library reads it.
pub uninterp spec fn item_view(i: toml_edit::Item) -> ItemView;

/// The ordered (key, value) entries of an inline table.
pub uninterp spec fn inline_model(t: toml_edit::InlineTable) -> Seq<(Seq<char>, toml_edit::Value)>;

/// The (key, value) entries of an item that is an inline-table value.
pub uninterp spec fn item_pairs(i: toml_edit::Item) -> Seq<(Seq<char>, toml_edit::Value)>;

/// The ordered (key, item) entries of a document's root table.
pub uninterp spec fn doc_model(d: toml_edit::DocumentMut) -> Seq<(Seq<char>, toml_edit::Item)>;

/// What parsing the given text yields; parsing is a function of the text.
pub uninterp spec fn parse_of(t: Seq<char>) -> Parsed;

/// The serialization of a document; a function of the document.
pub uninterp spec fn render_of(d: toml_edit::DocumentMut) -> Seq<char>;

/// The text of a key, without its surrounding decor.
pub uninterp spec fn key_text(k: toml_edit::Key) -> Seq<char>;

/// Index of the first entry with key `k` at or after `i` in a table model,
/// or -1.
pub open spec fn model_find(
    m: Seq<(Seq<char>, toml_edit::Item)>,
    k: Seq<char>,
    i: int,
) -> int
    decreases m.len() - i,
{
    if i < 0 || i >= m.len() {
        -1
    } else if m[i].0 == k {
        i
    } else {
        model_find(m, k, i + 1)
    }
}

/// Index of the first entry with key `k` in an inline-table model, or -1.
pub open spec fn vmodel_find(
    m: Seq<(Seq<char>, toml_edit::Value)>,
    k: Seq<char>,
    i: int,
) -> int
    decreases m.len() - i,
{
    if i < 0 || i >= m.len() {
        -1
    } else if m[i].0 == k {
        i
    } else {
        vmodel_find(m, k, i + 1)
    }
}

/// The keys of a table model, in order.
pub open spec fn model_keys(m: Seq<(Seq<char>, toml_edit::Item)>) -> Seq<Seq<char>> {
    m.map_values(|p: (Seq<char>, toml_edit::Item)| p.0)
}

/// No two entries share a key.
pub open spec fn keys_distinct(m: Seq<(Seq<char>, toml_edit::Item)>) -> bool {
    forall|i: int, j: int| 0 <= i < j < m.len() ==> m[i].0 != m[j].0
}

/// Relies on str::chars: the characters of the string, in order.
#[verifier::external_body]
pub(crate) fn str_chars(s: &str) -> (r: Vec<char>)
    ensures
        r@ == s@,
{
    s.chars().collect()
}

/// Relies on DocumentMut's FromStr: parsing is deterministic in the text
/// and fails exactly when the text is not well-formed manifest syntax.
#[verifier::external_body]
pub(crate) fn doc_parse(text: &Vec<char>) -> (r: Result<toml_edit::DocumentMut, toml_edit::TomlError>)
    ensures
        (match parse_of(text@) {
            Parsed::Doc { d } => r == Ok::<toml_edit::DocumentMut, toml_edit::TomlError>(d),
            Parsed::Fail => r.is_err(),
        }),
{
    let s: String = text.iter().collect();
    s.parse::<toml_edit::DocumentMut>()
}

/// Relies on DocumentMut's Display: serialization is a function of the
/// document value.
#[verifier::external_body]
pub(crate) fn doc_render(d: &toml_edit::DocumentMut) -> (r: Vec<char>)
    ensures
        r@ == render_of(*d),
{
    d.to_string().chars().collect()
}

/// Relies on Table::iter (through DocumentMut::as_table): the keys of the
/// root table, in order; an IndexMap holds each key once.
#[verifier::external_body]
pub(crate) fn doc_keys(d: &toml_edit::DocumentMut) -> (r: Vec<Vec<char>>)
    ensures
        r@.len() == doc_model(*d).len(),
        forall|i: int| 0 <= i < r@.len() ==> r@[i]@ == doc_model(*d)[i].0,
        forall|i: int, j: int| 0 <= i < j < r@.len() ==> r@[i]@ != r@[j]@,
{
    d.as_table().iter().map(|(k, _)| k.chars().collect()).collect()
}

/// Relies on Table::get_mut and mem::take: lends out the named section's
/// table, leaving an empty one behind; keys and the other entries stay.
#[verifier::external_body]
pub(crate) fn doc_take_table(d: &mut toml_edit::DocumentMut, key: &Vec<char>) -> (r: Option<
    toml_edit::Table,
>)
    ensures
        ({
            let m0 = doc_model(*old(d));
            let m1 = doc_model(*final(d));
            let f = model_find(m0, key@, 0);
            if f >= 0 && (item_view(m0[f].1) is Tbl) {
                &&& r == Some(item_view(m0[f].1)->Tbl_t)
                &&& m1.len() == m0.len()
                &&& forall|j: int| 0 <= j < m0.len() && j != f ==> m1[j] == m0[j]
                &&& m1[f].0 == key@
            } else {
                r is None && *final(d) == *old(d)
            }
        }),
{
    let k: String = key.iter().collect();
    d.as_table_mut().get_mut(&k).and_then(toml_edit::Item::as_table_mut).map(std::mem::take)
}

/// Relies on Table::get_mut: replaces the named section's item with the
/// given table; every other entry stays.
#[verifier::external_body]
pub(crate) fn doc_put_table(d: &mut toml_edit::DocumentMut, key: &Vec<char>, t: toml_edit::Table)
    requires
        model_find(doc_model(*old(d)), key@, 0) >= 0,
    ensures
        doc_model(*final(d)).len() == doc_model(*old(d)).len(),
        forall|j: int|
            0 <= j < doc_model(*old(d)).len() && j != model_find(doc_model(*old(d)), key@, 0)
                ==> doc_model(*final(d))[j] == doc_model(*old(d))[j],
        doc_model(*final(d))[model_find(doc_model(*old(d)), key@, 0)].0 == key@,
        item_view(doc_model(*final(d))[model_find(doc_model(*old(d)), key@, 0)].1) == (
        ItemView::Tbl { t }),
{
    let k: String = key.iter().collect();
    if let Some(slot) = d.as_table_mut().get_mut(&k) {
        *slot = toml_edit::Item::Table(t);
    }
}

/// Relies on Item::as_table (through Table::get on the root table): lends
/// out the named section's table when that section is a standard table.
#[verifier::external_body]
pub(crate) fn doc_get_table<'a>(d: &'a toml_edit::DocumentMut, key: &Vec<char>) -> (r: Option<
    &'a toml_edit::Table,
>)
    ensures
        ({
            let m = doc_model(*d);
            let f = model_find(m, key@, 0);
            match r {
                Some(st) => f >= 0 && item_view(m[f].1) == (ItemView::Tbl { t: *st }),
                None => f < 0 || !(item_view(m[f].1) is Tbl),
            }
        }),
{
    let k: String = key.iter().collect();
    d.as_table().get(&k).and_then(toml_edit::Item::as_table)
}

/// Relies on Table::iter: the keys of the table, in order; an IndexMap
/// holds each key once.
#[verifier::external_body]
pub(crate) fn table_keys(t: &toml_edit::Table) -> (r: Vec<Vec<char>>)
    ensures
        r@.len() == table_model(*t).len(),
        forall|i: int| 0 <= i < r@.len() ==> r@[i]@ == table_model(*t)[i].0,
        forall|i: int, j: int| 0 <= i < j < r@.len() ==> r@[i]@ != r@[j]@,
{
    t.iter().map(|(k, _)| k.chars().collect()).collect()
}

/// Relies on Table::remove_entry (a shift-remove): takes the named entry
/// out together with its key, whose decor carries any leading comment; the
/// remaining entries keep their order.
#[verifier::external_body]
pub(crate) fn table_remove_entry(t: &mut toml_edit::Table, key: &Vec<char>) -> (r: Option<
    (toml_edit::Key, toml_edit::Item),
>)
    ensures
        ({
            let m0 = table_model(*old(t));
            let m1 = table_model(*final(t));
            let f = model_find(m0, key@, 0);
            if f >= 0 {
                match r {
                    Some(p) => key_text(p.0) == m0[f].0 && p.1 == m0[f].1 && m1 == m0.remove(f),
                    None => false,
                }
            } else {
                r is None && m1 == m0
            }
        }),
        table_dotted(*final(t)) == table_dotted(*old(t)),
        table_implicit(*final(t)) == table_implicit(*old(t)),
{
    let k: String = key.iter().collect();
    t.remove_entry(&k).filter(|p| !p.1.is_none())
}

/// Relies on Table::remove and Table::insert_formatted: inserting an absent
/// key appends its entry at the end, keeping the key's own decor and with
/// it any leading comment (any hidden placeholder is cleared first).
#[verifier::external_body]
pub(crate) fn table_insert_entry(t: &mut toml_edit::Table, key: toml_edit::Key, item: toml_edit::Item)
    requires
        model_find(table_model(*old(t)), key_text(key), 0) < 0,
    ensures
        table_model(*final(t)) == table_model(*old(t)).push((key_text(key), item)),
        table_dotted(*final(t)) == table_dotted(*old(t)),
        table_implicit(*final(t)) == table_implicit(*old(t)),
{
    let k: String = key.get().to_string();
    t.remove(&k);
    t.insert_formatted(&key, item);
}

/// Relies on Table::insert on an occupied slot: replaces the named entry's
/// item in place and normalizes the key's spacing.
#[verifier::external_body]
pub(crate) fn table_set_item(t: &mut toml_edit::Table, key: &Vec<char>, item: toml_edit::Item)
    requires
        model_find(table_model(*old(t)), key@, 0) >= 0,
    ensures
        ({
            let m0 = table_model(*old(t));
            let f = model_find(m0, key@, 0);
            table_model(*final(t)) == m0.update(f, (key@, item))
        }),
        table_dotted(*final(t)) == table_dotted(*old(t)),
        table_implicit(*final(t)) == table_implicit(*old(t)),
{
    let k: String = key.iter().collect();
    t.insert(&k, item);
}

/// Relies on Item::as_table (through Table::get): lends out the named
/// entry's table when the entry is a nested table.
#[verifier::external_body]
pub(crate) fn table_get_table<'a>(t: &'a toml_edit::Table, key: &Vec<char>) -> (r: Option<
    &'a toml_edit::Table,
>)
    ensures
        ({
            let m = table_model(*t);
            let f = model_find(m, key@, 0);
            match r {
                Some(st) => f >= 0 && item_view(m[f].1) == (ItemView::Tbl { t: *st }),
                None => f < 0 || !(item_view(m[f].1) is Tbl),
            }
        }),
{
    let k: String = key.iter().collect();
    t.get(&k).and_then(toml_edit::Item::as_table)
}

/// Relies on Item::as_value (through Table::get): lends out the named
/// entry's value when the entry is a plain value.
#[verifier::external_body]
pub(crate) fn table_get_value<'a>(t: &'a toml_edit::Table, key: &Vec<char>) -> (r: Option<
    &'a toml_edit::Value,
>)
    ensures
        ({
            let m = table_model(*t);
            let f = model_find(m, key@, 0);
            match r {
                Some(v) => f >= 0 && item_view(m[f].1) == (ItemView::Val { v: *v }),
                None => f < 0 || !(item_view(m[f].1) is Val),
            }
        }),
{
    let k: String = key.iter().collect();
    t.get(&k).and_then(toml_edit::Item::as_value)
}

/// Relies on Table::is_dotted.
#[verifier::external_body]
pub(crate) fn table_is_dotted(t: &toml_edit::Table) -> (r: bool)
    ensures
        r == table_dotted(*t),
{
    t.is_dotted()
}

/// Relies on Table::set_implicit: sets only the implicit flag; the entries
/// and the dotted flag stay.
#[verifier::external_body]
pub(crate) fn table_set_implicit(t: &mut toml_edit::Table, implicit: bool)
    ensures
        table_model(*final(t)) == table_model(*old(t)),
        table_dotted(*final(t)) == table_dotted(*old(t)),
        table_implicit(*final(t)) == implicit,
{
    t.set_implicit(implicit);
}

/// Relies on Table::get_mut and mem::take: lends out the named entry's
/// nested table, leaving an empty one behind; keys and other entries stay.
#[verifier::external_body]
pub(crate) fn table_take_sub(t: &mut toml_edit::Table, key: &Vec<char>) -> (r: Option<toml_edit::Table>)
    ensures
        ({
            let m0 = table_model(*old(t));
            let m1 = table_model(*final(t));
            let f = model_find(m0, key@, 0);
            if f >= 0 && (item_view(m0[f].1) is Tbl) {
                &&& r == Some(item_view(m0[f].1)->Tbl_t)
                &&& m1.len() == m0.len()
                &&& forall|j: int| 0 <= j < m0.len() && j != f ==> m1[j] == m0[j]
                &&& m1[f].0 == key@
            } else {
                r is None && *final(t) == *old(t)
            }
        }),
        table_dotted(*final(t)) == table_dotted(*old(t)),
        table_implicit(*final(t)) == table_implicit(*old(t)),
{
    let k: String = key.iter().collect();
    t.get_mut(&k).and_then(toml_edit::Item::as_table_mut).map(std::mem::take)
}

/// Relies on Table::get_mut: replaces the named entry's item with the given
/// nested table; every other entry stays.
#[verifier::external_body]
pub(crate) fn table_put_sub(t: &mut toml_edit::Table, key: &Vec<char>, sub: toml_edit::Table)
    requires
        model_find(table_model(*old(t)), key@, 0) >= 0,
    ensures
        table_model(*final(t)).len() == table_model(*old(t)).len(),
        forall|j: int|
            0 <= j < table_model(*old(t)).len() && j != model_find(
                table_model(*old(t)),
                key@,
                0,
            ) ==> table_model(*final(t))[j] == table_model(*old(t))[j],
        table_model(*final(t))[model_find(table_model(*old(t)), key@, 0)].0 == key@,
        item_view(table_model(*final(t))[model_find(table_model(*old(t)), key@, 0)].1) == (
        ItemView::Tbl { t: sub }),
        table_dotted(*final(t)) == table_dotted(*old(t)),
        table_implicit(*final(t)) == table_implicit(*old(t)),
{
    let k: String = key.iter().collect();
    if let Some(slot) = t.get_mut(&k) {
        *slot = toml_edit::Item::Table(sub);
    }
}

/// Relies on InlineTable::new: an empty inline table.
#[verifier::external_body]
pub(crate) fn inline_new() -> (r: toml_edit::InlineTable)
    ensures
        inline_model(r) == Seq::<(Seq<char>, toml_edit::Value)>::empty(),
{
    toml_edit::InlineTable::new()
}

/// Relies on InlineTable::insert: inserting an absent key appends its
/// (key, value) pair at the end; the value is a clone of the one given.
#[verifier::external_body]
pub(crate) fn inline_push(it: &mut toml_edit::InlineTable, key: &Vec<char>, v: &toml_edit::Value)
    requires
        vmodel_find(inline_model(*old(it)), key@, 0) < 0,
    ensures
        inline_model(*final(it)) == inline_model(*old(it)).push((key@, *v)),
{
    let k: String = key.iter().collect();
    it.insert(k, v.clone());
}

/// Relies on InlineTable::fmt and the Item::Value and Value::InlineTable
/// constructors: the new item is an inline-table value carrying exactly the
/// given pairs, with normalized spacing.
#[verifier::external_body]
pub(crate) fn item_from_inline(it: toml_edit::InlineTable) -> (r: toml_edit::Item)
    ensures
        (item_view(r) is Val),
        item_pairs(r) == inline_model(it),
{
    let mut it = it;
    it.fmt();
    toml_edit::Item::Value(toml_edit::Value::InlineTable(it))
}

} // verus!
