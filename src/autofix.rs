//! Automatic fixes to crate manifests, editing the TOML document in place so that
//! everything that is not touched keeps its text.

use vstd::prelude::*;
use crate::editor::{
    append_to_feature, appended_items, canon_fails, canon_items, canonicalize_feature, copy_array, entry_views, EditError, FeatureArray,
    FeatureEntry, EntryView, Mode,
};
use crate::metadata::DependencyKind;
use crate::text::{starts_with, starts_with_str, trim_end_matches, trim_start_matches};

verus! {

#[verifier::external_type_specification]
#[verifier::external_body]
pub struct ExDocumentMut(toml_edit::DocumentMut);

#[verifier::external_type_specification]
#[verifier::external_body]
pub struct ExInlineTable(toml_edit::InlineTable);

#[verifier::external_type_specification]
#[verifier::external_body]
pub struct ExArray(toml_edit::Array);

/// The entries of each feature of a document that is an array of strings, by
/// feature name.
pub uninterp spec fn doc_features(d: toml_edit::DocumentMut) -> Map<Seq<char>, Seq<EntryView>>;

/// The keys of an inline table.
pub uninterp spec fn inline_keys(t: toml_edit::InlineTable) -> Set<Seq<char>>;

/// Whether a string parses as a version requirement.
pub uninterp spec fn is_version_req(s: Seq<char>) -> bool;

/// Relies on `DocumentMut::from_str`: parse a manifest, keeping its formatting.
#[verifier::external_body]
fn parse_document(raw: &str) -> (r: Result<toml_edit::DocumentMut, String>) {
    raw.parse::<toml_edit::DocumentMut>().map_err(|e| e.to_string())
}

/// The text of a document.
pub uninterp spec fn doc_text(d: toml_edit::DocumentMut) -> Seq<char>;

/// Relies on `DocumentMut`'s `Display`: the text of the document.
#[verifier::external_body]
fn document_text(doc: &toml_edit::DocumentMut) -> (r: String)
    ensures
        r@ == doc_text(*doc),
{
    doc.to_string()
}

/// Relies on `Table::iter` of the `[features]` table: every key of the table,
/// each once, in order. Keys whose value is no array of strings are listed too.
#[verifier::external_body]
fn feature_names(doc: &toml_edit::DocumentMut) -> (r: Vec<String>)
    ensures
        forall|k: Seq<char>| #[trigger] doc_features(*doc).contains_key(k) ==> exists|i: int| 0 <= i < r@.len() && r@[i]@ == k,
        forall|i: int, j: int| 0 <= i < j < r@.len() ==> r@[i]@ != r@[j]@,
        !has_features_table(*doc) ==> r@.len() == 0,
{
    match doc.get("features").and_then(|f| f.as_table()) {
        Some(t) => t.iter().map(|(k, _)| k.to_string()).collect(),
        None => Vec::new(),
    }
}

/// The string under `key` of dependency `name` of table `table`, when that is an inline table.
pub uninterp spec fn dep_str(d: toml_edit::DocumentMut, table: Seq<char>, name: Seq<char>, key: Seq<char>) -> Option<Seq<char>>;

/// The boolean under `key` of dependency `name` of table `table`, when that is an inline table.
pub uninterp spec fn dep_bool(d: toml_edit::DocumentMut, table: Seq<char>, name: Seq<char>, key: Seq<char>) -> Option<bool>;

/// Whether `table` may hold dependencies: not `[features]` nor `[workspace]`.
pub open spec fn dep_table(table: Seq<char>) -> bool {
    table != "features"@ && table != "workspace"@
}

/// `a` and `b` agree on every dependency table and on `[workspace]`.
pub open spec fn deps_frame(a: toml_edit::DocumentMut, b: toml_edit::DocumentMut) -> bool {
    &&& forall|t: Seq<char>, n: Seq<char>| #![trigger dep_present(b, t, n)] dep_table(t) ==> dep_present(b, t, n) == dep_present(a, t, n)
        && dep_keys(b, t, n) == dep_keys(a, t, n) && dep_version(b, t, n) == dep_version(a, t, n)
    &&& forall|t: Seq<char>, n: Seq<char>, k: Seq<char>| #![trigger dep_str(b, t, n, k)] dep_table(t) ==> dep_str(b, t, n, k) == dep_str(a, t, n, k)
    &&& forall|t: Seq<char>, n: Seq<char>, k: Seq<char>| #![trigger dep_bool(b, t, n, k)] dep_table(t) ==> dep_bool(b, t, n, k) == dep_bool(a, t, n, k)
    &&& has_workspace(b) == has_workspace(a)
    &&& has_ws_deps(b) == has_ws_deps(a)
    &&& forall|n: Seq<char>| #![trigger ws_present(b, n)] ws_present(b, n) == ws_present(a, n) && ws_keys(b, n) == ws_keys(a, n)
    &&& forall|n: Seq<char>, k: Seq<char>| #![trigger ws_str(b, n, k)] ws_str(b, n, k) == ws_str(a, n, k) && ws_bool(b, n, k) == ws_bool(a, n, k)
}

pub proof fn lemma_deps_frame_trans(a: toml_edit::DocumentMut, b: toml_edit::DocumentMut, c: toml_edit::DocumentMut)
    requires
        deps_frame(a, b),
        deps_frame(b, c),
    ensures
        deps_frame(a, c),
{
    assert forall|t: Seq<char>, n: Seq<char>| #![trigger dep_present(c, t, n)] dep_table(t) implies dep_present(c, t, n) == dep_present(a, t, n)
        && dep_keys(c, t, n) == dep_keys(a, t, n) && dep_version(c, t, n) == dep_version(a, t, n) by {
        assert(dep_present(b, t, n) == dep_present(a, t, n));
    }
    assert forall|t: Seq<char>, n: Seq<char>, k: Seq<char>| #![trigger dep_str(c, t, n, k)] dep_table(t) implies dep_str(c, t, n, k) == dep_str(a, t, n, k) by {
        assert(dep_str(b, t, n, k) == dep_str(a, t, n, k));
    }
    assert forall|t: Seq<char>, n: Seq<char>, k: Seq<char>| #![trigger dep_bool(c, t, n, k)] dep_table(t) implies dep_bool(c, t, n, k) == dep_bool(a, t, n, k) by {
        assert(dep_bool(b, t, n, k) == dep_bool(a, t, n, k));
    }
    assert forall|n: Seq<char>| #![trigger ws_present(c, n)] ws_present(c, n) == ws_present(a, n) && ws_keys(c, n) == ws_keys(a, n) by {
        assert(ws_present(b, n) == ws_present(a, n));
    }
    assert forall|n: Seq<char>, k: Seq<char>| #![trigger ws_str(c, n, k)] ws_str(c, n, k) == ws_str(a, n, k) && ws_bool(c, n, k) == ws_bool(a, n, k) by {
        assert(ws_str(b, n, k) == ws_str(a, n, k));
    }
}

/// `a` and `b` agree on `[features]`.
pub open spec fn features_frame(a: toml_edit::DocumentMut, b: toml_edit::DocumentMut) -> bool {
    &&& doc_features(b) == doc_features(a)
    &&& has_features_table(b) == has_features_table(a)
    &&& forall|k: Seq<char>| #![trigger feature_key(b, k)] feature_key(b, k) == feature_key(a, k)
}

/// The entries of a TOML array that was built here.
pub uninterp spec fn array_items(a: toml_edit::Array) -> Seq<EntryView>;

/// Relies on `Table::get`, `Array::iter`, `Value::as_str` and `Value::decor`: for
/// each entry of feature `name`, its string (if it is one) and the text before
/// and after it.
#[verifier::external_body]
fn feature_values(doc: &toml_edit::DocumentMut, name: &str) -> (r: Option<Vec<(Option<String>, String, String)>>)
    ensures
        r is None ==> !doc_features(*doc).contains_key(name@),
        r matches Some(v) ==> (doc_features(*doc).contains_key(name@) <==> forall|i: int| 0 <= i < v@.len() ==> (#[trigger] v@[i]).0 is Some),
        r matches Some(v) ==> (doc_features(*doc).contains_key(name@) ==> doc_features(*doc)[name@] == v@.map_values(
            |e: (Option<String>, String, String)| (e.0->0@, e.1@, e.2@),
        )),
{
    let text = |r: Option<&toml_edit::RawString>| r.and_then(|p| p.as_str()).unwrap_or("").to_string();
    let arr = doc.get("features")?.as_table()?.get(name)?.as_array()?;
    Some(arr.iter().map(|v| (v.as_str().map(|s| s.to_string()), text(v.decor().prefix()), text(v.decor().suffix()))).collect())
}

/// Relies on `Array::trailing`, `Array::trailing_comma` and `Array::decor`: the
/// text after the last entry, the trailing comma, and the text around the brackets
/// of feature `name`.
#[verifier::external_body]
fn feature_frame(doc: &toml_edit::DocumentMut, name: &str) -> (r: Option<(String, bool, Option<String>, Option<String>)>) {
    let text = |r: Option<&toml_edit::RawString>| r.and_then(|p| p.as_str()).map(|p| p.to_string());
    let arr = doc.get("features")?.as_table()?.get(name)?.as_array()?;
    Some((text(Some(arr.trailing())).unwrap_or_default(), arr.trailing_comma(), text(arr.decor().prefix()), text(arr.decor().suffix())))
}

/// The array of feature `name` with its formatting, if it is an array of strings.
fn read_feature(doc: &toml_edit::DocumentMut, name: &str) -> (r: Option<FeatureArray>)
    ensures
        r matches Some(a) ==> doc_features(*doc).contains_key(name@) && doc_features(*doc)[name@] == a.items(),
        r is None ==> !doc_features(*doc).contains_key(name@),
{
    let vals = feature_values(doc, name)?;
    let mut entries: Vec<FeatureEntry> = Vec::new();
    let mut k: usize = 0;
    while k < vals.len()
        invariant
            k <= vals@.len(),
            doc_features(*doc).contains_key(name@) <==> forall|i: int| 0 <= i < vals@.len() ==> (#[trigger] vals@[i]).0 is Some,
            doc_features(*doc).contains_key(name@) ==> doc_features(*doc)[name@] == vals@.map_values(
                |e: (Option<String>, String, String)| (e.0->0@, e.1@, e.2@),
            ),
            forall|i: int| 0 <= i < k ==> (#[trigger] vals@[i]).0 is Some,
            entry_views(entries@) =~= vals@.take(k as int).map_values(|e: (Option<String>, String, String)| (e.0->0@, e.1@, e.2@)),
        decreases vals@.len() - k,
    {
        let (v, p, s) = &vals[k];
        match v {
            None => {
                assert(vals@[k as int].0 is None);
                return None;
            },
            Some(v) => {
                let ghost o = entries@;
                let e = FeatureEntry { value: v.clone(), prefix: p.clone(), suffix: s.clone() };
                entries.push(e);
                proof {
                    assert(entry_views(entries@) =~= entry_views(o).push(e@));
                    assert(vals@.take(k as int + 1) =~= vals@.take(k as int).push(vals@[k as int]));
                }
            },
        }
        k = k + 1;
    }
    assert(vals@.take(vals@.len() as int) =~= vals@);
    let (trailing, trailing_comma, decor_prefix, decor_suffix) = match feature_frame(doc, name) {
        Some(f) => f,
        None => (String::new(), false, None, None),
    };
    Some(FeatureArray { entries, trailing, trailing_comma, decor_prefix, decor_suffix })
}

/// Relies on `Array::new`: an empty array.
#[verifier::external_body]
fn new_array() -> (r: toml_edit::Array)
    ensures
        array_items(r) == Seq::<EntryView>::empty(),
{
    toml_edit::Array::new()
}

/// Relies on `Array::push_formatted`: append string `value` with the given text
/// before and after it.
#[verifier::external_body]
fn array_push(a: &mut toml_edit::Array, value: &str, prefix: &str, suffix: &str)
    ensures
        array_items(*final(a)) == array_items(*old(a)).push((value@, prefix@, suffix@)),
{
    a.push_formatted(toml_edit::Value::from(value).decorated(prefix, suffix));
}

/// Relies on `Array::set_trailing`, `Array::set_trailing_comma` and the array's
/// `Decor`: set the text after the entries and around the brackets.
#[verifier::external_body]
fn array_set_frame(a: &mut toml_edit::Array, trailing: &str, comma: bool, prefix: &Option<String>, suffix: &Option<String>)
    ensures
        array_items(*final(a)) == array_items(*old(a)),
{
    a.set_trailing(trailing);
    a.set_trailing_comma(comma);
    a.decor_mut().clear();
    if let Some(p) = prefix { a.decor_mut().set_prefix(p.as_str()); }
    if let Some(s) = suffix { a.decor_mut().set_suffix(s.as_str()); }
}

/// No feature arrays at all.
pub open spec fn no_features() -> Map<Seq<char>, Seq<EntryView>> {
    Map::empty()
}

/// Whether the document has a `[features]` table.
pub uninterp spec fn has_features_table(d: toml_edit::DocumentMut) -> bool;

/// Whether the `[features]` table has key `name`, whatever its value.
pub uninterp spec fn feature_key(d: toml_edit::DocumentMut, name: Seq<char>) -> bool;

/// Relies on `Table::contains_table`: whether `[features]` is a table. Without
/// one the document has no feature arrays.
#[verifier::external_body]
fn features_table_present(doc: &toml_edit::DocumentMut) -> (r: bool)
    ensures
        r == has_features_table(*doc),
        !r ==> doc_features(*doc) == no_features(),
{
    doc.contains_table("features")
}

/// Relies on `Table::insert`: put an empty `[features]` table in place of
/// whatever `features` held.
#[verifier::external_body]
fn insert_features_table(doc: &mut toml_edit::DocumentMut)
    ensures
        has_features_table(*final(doc)),
        doc_features(*final(doc)) == no_features(),
        forall|k: Seq<char>| !feature_key(*final(doc), k),
        deps_frame(*old(doc), *final(doc)),
{
    doc.insert("features", toml_edit::table());
}

/// Relies on `Table::contains_key` of the `[features]` table: whether it has key
/// `name`; false without the table.
#[verifier::external_body]
fn feature_key_present(doc: &toml_edit::DocumentMut, name: &str) -> (r: bool)
    ensures
        r == feature_key(*doc, name@),
        doc_features(*doc).contains_key(name@) ==> r,
{
    doc.get("features").and_then(|f| f.as_table()).map_or(false, |t| t.contains_key(name))
}

/// Relies on `Table::insert`: store `a` as feature `name` of the `[features]`
/// table.
#[verifier::external_body]
fn store_feature(doc: &mut toml_edit::DocumentMut, name: &str, a: toml_edit::Array)
    requires
        has_features_table(*old(doc)),
    ensures
        doc_features(*final(doc)) == doc_features(*old(doc)).insert(name@, array_items(a)),
        has_features_table(*final(doc)),
        feature_key(*final(doc), name@),
        deps_frame(*old(doc), *final(doc)),
{
    if let Some(t) = doc.get_mut("features").and_then(|f| f.as_table_mut()) {
        t.insert(name, toml_edit::value(a));
    }
}

/// Store `a` as the array of feature `name`, creating `[features]` if needed.
fn write_feature(doc: &mut toml_edit::DocumentMut, name: &str, a: &FeatureArray)
    ensures
        doc_features(*final(doc)) == doc_features(*old(doc)).insert(name@, a.items()),
        deps_frame(*old(doc), *final(doc)),
{
    if !features_table_present(doc) {
        insert_features_table(doc);
    }
    let mut arr = new_array();
    let mut k: usize = 0;
    while k < a.entries.len()
        invariant
            k <= a.entries@.len(),
            array_items(arr) =~= a.items().take(k as int),
        decreases a.entries@.len() - k,
    {
        let e = &a.entries[k];
        array_push(&mut arr, e.value.as_str(), e.prefix.as_str(), e.suffix.as_str());
        proof {
            assert(a.items().take(k as int + 1) =~= a.items().take(k as int).push(e@));
        }
        k = k + 1;
    }
    assert(a.items().take(a.entries@.len() as int) =~= a.items());
    array_set_frame(&mut arr, a.trailing.as_str(), a.trailing_comma, &a.decor_prefix, &a.decor_suffix);
    store_feature(doc, name, arr);
}

/// Relies on `Table::insert`: add `name = []` to the `[features]` table.
#[verifier::external_body]
fn insert_empty_array(doc: &mut toml_edit::DocumentMut, name: &str)
    requires
        has_features_table(*old(doc)),
    ensures
        doc_features(*final(doc)) == doc_features(*old(doc)).insert(name@, Seq::<EntryView>::empty()),
        feature_key(*final(doc), name@),
        deps_frame(*old(doc), *final(doc)),
{
    if let Some(t) = doc.get_mut("features").and_then(|f| f.as_table_mut()) {
        t.insert(name, toml_edit::value(toml_edit::Array::new()));
    }
}

/// The shape of a dependency entry in a dependency table.
pub enum DepEntry {
    /// No such table or entry.
    Absent,
    /// `name = "req"`.
    Version(String),
    /// `name = { ... }`.
    Inline(toml_edit::InlineTable),
    /// Anything else, such as a `[dependencies.name]` table.
    Other,
}

/// Whether dependency table `table` has an entry `name`.
pub uninterp spec fn dep_present(d: toml_edit::DocumentMut, table: Seq<char>, name: Seq<char>) -> bool;

/// The string of entry `name` of dependency table `table`, when it is one.
pub uninterp spec fn dep_version(d: toml_edit::DocumentMut, table: Seq<char>, name: Seq<char>) -> Option<Seq<char>>;

/// The keys of entry `name` of dependency table `table`, when it is an inline table.
pub uninterp spec fn dep_keys(d: toml_edit::DocumentMut, table: Seq<char>, name: Seq<char>) -> Option<Set<Seq<char>>>;

/// Relies on `Table::get`: a copy of the entry `name` of table `table`.
#[verifier::external_body]
fn read_dependency(doc: &toml_edit::DocumentMut, table: &str, name: &str) -> (r: DepEntry)
    ensures
        r matches DepEntry::Inline(t) ==> dep_keys(*doc, table@, name@) == Some(inline_keys(t)),
        r matches DepEntry::Inline(t) ==> forall|k: Seq<char>| #![trigger inline_str_of(t, k)] #![trigger inline_bool_of(t, k)] inline_str_of(t, k) == dep_str(*doc, table@, name@, k)
            && inline_bool_of(t, k) == dep_bool(*doc, table@, name@, k),
        !(r is Inline) ==> dep_keys(*doc, table@, name@) is None,
        (r is Absent) == !dep_present(*doc, table@, name@),
        r matches DepEntry::Version(v) ==> dep_version(*doc, table@, name@) == Some(v@),
        !(r is Version) ==> dep_version(*doc, table@, name@) is None,
{
    match doc.get(table).and_then(|t| t.as_table()).and_then(|t| t.get(name)) {
        None => DepEntry::Absent,
        Some(item) => match (item.as_str(), item.as_inline_table()) {
            (Some(v), _) => DepEntry::Version(v.to_string()),
            (None, Some(t)) => DepEntry::Inline(t.clone()),
            (None, None) => DepEntry::Other,
        },
    }
}

/// Relies on `Table::insert`: replace entry `name` of table `table` by `t`.
#[verifier::external_body]
fn write_dependency(doc: &mut toml_edit::DocumentMut, table: &str, name: &str, t: toml_edit::InlineTable)
    requires
        dep_present(*old(doc), table@, name@),
        dep_table(table@),
    ensures
        dep_keys(*final(doc), table@, name@) == Some(inline_keys(t)),
        dep_present(*final(doc), table@, name@),
        forall|k: Seq<char>| #![trigger dep_str(*final(doc), table@, name@, k)] #![trigger dep_bool(*final(doc), table@, name@, k)] dep_str(*final(doc), table@, name@, k) == inline_str_of(t, k)
            && dep_bool(*final(doc), table@, name@, k) == inline_bool_of(t, k),
        features_frame(*old(doc), *final(doc)),
{
    if let Some(deps) = doc.get_mut(table).and_then(|d| d.as_table_mut()) {
        deps.insert(name, toml_edit::Item::Value(toml_edit::Value::InlineTable(t)));
    }
}

/// Relies on `InlineTable::new`: an empty inline table.
#[verifier::external_body]
fn new_inline_table() -> (r: toml_edit::InlineTable)
    ensures
        inline_keys(r) == Set::<Seq<char>>::empty(),
        forall|k: Seq<char>| #![trigger inline_str_of(r, k)] #![trigger inline_bool_of(r, k)] inline_str_of(r, k) is None && inline_bool_of(r, k) is None,
{
    toml_edit::InlineTable::new()
}

/// Relies on `InlineTable::contains_key`.
#[verifier::external_body]
fn inline_has(t: &toml_edit::InlineTable, key: &str) -> (r: bool)
    ensures
        r == inline_keys(*t).contains(key@),
{
    t.contains_key(key)
}

/// Relies on `InlineTable::remove`: the key is gone afterwards.
#[verifier::external_body]
fn inline_remove(t: &mut toml_edit::InlineTable, key: &str)
    ensures
        inline_keys(*final(t)) == inline_keys(*old(t)).remove(key@),
        inline_str_of(*final(t), key@) is None,
        inline_bool_of(*final(t), key@) is None,
        forall|k: Seq<char>| #![trigger inline_str_of(*final(t), k)] #![trigger inline_bool_of(*final(t), k)] k != key@ ==> inline_str_of(*final(t), k) == inline_str_of(*old(t), k)
            && inline_bool_of(*final(t), k) == inline_bool_of(*old(t), k),
{
    t.remove(key);
}

/// Relies on `InlineTable::insert`: the key holds the boolean afterwards.
#[verifier::external_body]
fn inline_set_bool(t: &mut toml_edit::InlineTable, key: &str, b: bool)
    ensures
        inline_keys(*final(t)) == inline_keys(*old(t)).insert(key@),
        inline_bool_of(*final(t), key@) == Some(b),
        inline_str_of(*final(t), key@) is None,
        forall|k: Seq<char>| #![trigger inline_str_of(*final(t), k)] #![trigger inline_bool_of(*final(t), k)] k != key@ ==> inline_str_of(*final(t), k) == inline_str_of(*old(t), k)
            && inline_bool_of(*final(t), k) == inline_bool_of(*old(t), k),
{
    t.insert(key, toml_edit::Value::from(b));
}

/// Relies on `InlineTable::insert`: the key holds the string afterwards.
#[verifier::external_body]
fn inline_set_str(t: &mut toml_edit::InlineTable, key: &str, s: &str)
    ensures
        inline_keys(*final(t)) == inline_keys(*old(t)).insert(key@),
        inline_str_of(*final(t), key@) == Some(s@),
        inline_bool_of(*final(t), key@) is None,
        forall|k: Seq<char>| #![trigger inline_str_of(*final(t), k)] #![trigger inline_bool_of(*final(t), k)] k != key@ ==> inline_str_of(*final(t), k) == inline_str_of(*old(t), k)
            && inline_bool_of(*final(t), k) == inline_bool_of(*old(t), k),
{
    t.insert(key, toml_edit::Value::from(s));
}

/// Relies on `InlineTable::get` and `Value::as_str`.
#[verifier::external_body]
fn inline_str(t: &toml_edit::InlineTable, key: &str) -> (r: Option<String>)
    ensures
        r is Some ==> inline_keys(*t).contains(key@),
        r matches Some(v) ==> inline_str_of(*t, key@) == Some(v@),
        r is None ==> inline_str_of(*t, key@) is None,
{
    t.get(key).and_then(|v| v.as_str()).map(|s| s.to_string())
}

/// Relies on `InlineTable::get` and `Value::as_bool`.
#[verifier::external_body]
fn inline_bool(t: &toml_edit::InlineTable, key: &str) -> (r: Option<bool>)
    ensures
        r is Some ==> inline_keys(*t).contains(key@),
        r == inline_bool_of(*t, key@),
{
    t.get(key).and_then(|v| v.as_bool())
}

/// Relies on `semver::VersionReq::parse`: whether `s` is a version requirement.
#[verifier::external_body]
fn parses_as_version_req(s: &str) -> (r: bool)
    ensures
        r == is_version_req(s@),
{
    cargo_metadata::semver::VersionReq::parse(s).is_ok()
}

/// An entry under `[workspace.dependencies]`.
pub enum WorkspaceDep {
    /// The manifest has no `[workspace]` table.
    NoWorkspace,
    /// No entry of that name.
    Absent,
    /// An inline table.
    Inline(toml_edit::InlineTable),
    /// Another table-like entry, with its `package` key if it has one.
    TableLike(Option<String>),
    /// Anything else.
    Other,
}

/// The string under `key` of an inline table, if it is one.
pub uninterp spec fn inline_str_of(t: toml_edit::InlineTable, key: Seq<char>) -> Option<Seq<char>>;

/// The boolean under `key` of an inline table, if it is one.
pub uninterp spec fn inline_bool_of(t: toml_edit::InlineTable, key: Seq<char>) -> Option<bool>;

/// Whether the document has a `[workspace]` table.
pub uninterp spec fn has_workspace(d: toml_edit::DocumentMut) -> bool;

/// Whether `[workspace]` has a `dependencies` table.
pub uninterp spec fn has_ws_deps(d: toml_edit::DocumentMut) -> bool;

/// Whether `[workspace.dependencies]` has entry `name`.
pub uninterp spec fn ws_present(d: toml_edit::DocumentMut, name: Seq<char>) -> bool;

/// The keys of `[workspace.dependencies].name`, when it is an inline table.
pub uninterp spec fn ws_keys(d: toml_edit::DocumentMut, name: Seq<char>) -> Option<Set<Seq<char>>>;

/// The string under `key` of `[workspace.dependencies].name`, when it is an inline table.
pub uninterp spec fn ws_str(d: toml_edit::DocumentMut, name: Seq<char>, key: Seq<char>) -> Option<Seq<char>>;

/// The boolean under `key` of `[workspace.dependencies].name`, when it is an inline table.
pub uninterp spec fn ws_bool(d: toml_edit::DocumentMut, name: Seq<char>, key: Seq<char>) -> Option<bool>;

/// Relies on `Table::get`: a copy of `[workspace.dependencies].name`.
#[verifier::external_body]
fn read_workspace_dep(doc: &toml_edit::DocumentMut, name: &str) -> (r: WorkspaceDep)
    ensures
        (r is NoWorkspace) == !has_workspace(*doc),
        has_workspace(*doc) ==> ((r is Absent) == !ws_present(*doc, name@)),
        r matches WorkspaceDep::Inline(t) ==> ws_keys(*doc, name@) == Some(inline_keys(t))
            && (forall|k: Seq<char>| #[trigger] inline_str_of(t, k) == ws_str(*doc, name@, k))
            && (forall|k: Seq<char>| #[trigger] inline_bool_of(t, k) == ws_bool(*doc, name@, k)),
        !(r is Inline) ==> ws_keys(*doc, name@) is None,
{
    let Some(ws) = doc.get("workspace").and_then(|w| w.as_table()) else { return WorkspaceDep::NoWorkspace };
    match ws.get("dependencies").and_then(|d| d.as_table()).and_then(|d| d.get(name)) {
        None => WorkspaceDep::Absent,
        Some(item) => match (item.as_inline_table(), item.as_table_like()) {
            (Some(t), _) => WorkspaceDep::Inline(t.clone()),
            (None, Some(t)) => WorkspaceDep::TableLike(t.get("package").and_then(|p| p.as_str()).map(|p| p.to_string())),
            (None, None) => WorkspaceDep::Other,
        },
    }
}

/// Relies on `Table::contains_table`: whether `[workspace]` has a
/// `dependencies` table.
#[verifier::external_body]
fn ws_deps_table_present(doc: &toml_edit::DocumentMut) -> (r: bool)
    ensures
        r == has_ws_deps(*doc),
        !r ==> forall|n: Seq<char>| !ws_present(*doc, n) && ws_keys(*doc, n) is None,
{
    doc.get("workspace").and_then(|w| w.as_table()).map_or(false, |w| w.contains_table("dependencies"))
}

/// Relies on `Table::insert`: put an empty `dependencies` table in `[workspace]`.
#[verifier::external_body]
fn insert_ws_deps_table(doc: &mut toml_edit::DocumentMut)
    requires
        has_workspace(*old(doc)),
    ensures
        has_workspace(*final(doc)),
        has_ws_deps(*final(doc)),
        forall|n: Seq<char>| !ws_present(*final(doc), n) && ws_keys(*final(doc), n) is None,
        forall|n: Seq<char>, k: Seq<char>| #![trigger ws_str(*final(doc), n, k)] #![trigger ws_bool(*final(doc), n, k)] ws_str(*final(doc), n, k) is None && ws_bool(*final(doc), n, k) is None,
        features_frame(*old(doc), *final(doc)),
{
    if let Some(ws) = doc.get_mut("workspace").and_then(|w| w.as_table_mut()) {
        ws.insert("dependencies", toml_edit::table());
    }
}

/// Relies on `Table::insert`: store `t` as `[workspace.dependencies].name`.
#[verifier::external_body]
fn write_workspace_dep(doc: &mut toml_edit::DocumentMut, name: &str, t: toml_edit::InlineTable)
    requires
        has_workspace(*old(doc)),
        has_ws_deps(*old(doc)),
    ensures
        has_workspace(*final(doc)),
        has_ws_deps(*final(doc)),
        ws_present(*final(doc), name@),
        ws_keys(*final(doc), name@) == Some(inline_keys(t)),
        forall|n: Seq<char>| n != name@ ==> ws_keys(*final(doc), n) == ws_keys(*old(doc), n) && ws_present(*final(doc), n) == ws_present(*old(doc), n),
        forall|k: Seq<char>| #![trigger ws_str(*final(doc), name@, k)] #![trigger ws_bool(*final(doc), name@, k)] ws_str(*final(doc), name@, k) == inline_str_of(t, k)
            && ws_bool(*final(doc), name@, k) == inline_bool_of(t, k),
        features_frame(*old(doc), *final(doc)),
{
    if let Some(deps) = doc.get_mut("workspace").and_then(|w| w.get_mut("dependencies")).and_then(|d| d.as_table_mut()) {
        deps.insert(name, toml_edit::Item::Value(toml_edit::Value::InlineTable(t)));
    }
}

/// Relies on `Table::remove`: drop `[workspace.dependencies].name`.
#[verifier::external_body]
fn remove_workspace_dep(doc: &mut toml_edit::DocumentMut, name: &str)
    ensures
        has_workspace(*final(doc)) == has_workspace(*old(doc)),
        has_ws_deps(*final(doc)) == has_ws_deps(*old(doc)),
        !ws_present(*final(doc), name@),
        ws_keys(*final(doc), name@) is None,
        forall|n: Seq<char>| n != name@ ==> ws_keys(*final(doc), n) == ws_keys(*old(doc), n) && ws_present(*final(doc), n) == ws_present(*old(doc), n),
        features_frame(*old(doc), *final(doc)),
{
    if let Some(deps) = doc.get_mut("workspace").and_then(|w| w.get_mut("dependencies")).and_then(|d| d.as_table_mut()) {
        deps.remove(name);
    }
}

/// The keys of a workspace entry after adding a dependency to it: `version`, or
/// `path` instead for a local one, and `default-features` when it is off.
pub open spec fn ws_entry_keys(k: Set<Seq<char>>, local: bool, default_feats: bool) -> Set<Seq<char>> {
    let a = k.insert("version"@);
    let b = if local { a.insert("path"@).remove("version"@) } else { a };
    if !default_feats { b.insert("default-features"@) } else { b }
}

/// Whether fixing was asked for.
#[derive(Debug, Clone, Copy, Default)]
pub struct AutoFixerArgs {
    pub enable: bool,
}

/// Where a dependency comes from.
#[derive(Debug, Clone, Copy, PartialEq, Eq, Structural)]
pub enum SourceLocationSelector {
    /// Referenced through a `path`.
    Local,
    /// From git or a registry.
    Remote,
}

/// Why a dependency could not be lifted into the workspace.
#[derive(Debug, Clone, Copy, PartialEq, Eq, Structural)]
pub enum LiftError {
    /// A `git` dependency.
    GitDependency,
    /// Lifting would turn a path dependency into a registry one.
    LocalToRemote,
    /// Lifting would turn a registry dependency into a path one.
    RemoteToLocal,
    /// The version string is no version requirement.
    NotSemver,
    /// The entry is neither a version string nor an inline table.
    NotATable,
}

/// Why a dependency could not be added to the workspace.
#[derive(Debug, Clone, PartialEq, Eq)]
pub enum WorkspaceError {
    /// The manifest has no `[workspace]` table.
    NoWorkspace,
    /// The alias exists with a `package` key naming another package.
    DifferentAlias { found: String },
    /// The alias exists as an unaliased entry of another package.
    AliasCollision,
    /// The existing entry has another `version`.
    VersionMismatch { found: String },
    /// The existing entry has another `path`.
    PathMismatch { found: String },
    /// The existing entry has another `default-features`.
    DefaultFeaturesMismatch { found: bool },
    /// The existing entry is no inline table.
    Unvalidatable,
}

/// Why default features could not be disabled.
#[derive(Debug, Clone, Copy, PartialEq, Eq, Structural)]
pub enum DisableError {
    /// No `[dependencies]` table or no such entry.
    NotFound,
    /// The entry is no inline table.
    NotInline,
}

/// The table of a dependency kind.
pub open spec fn kind_table(k: DependencyKind) -> Seq<char> {
    match k {
        DependencyKind::Normal => "dependencies"@,
        DependencyKind::Development => "dev-dependencies"@,
        DependencyKind::Build => "build-dependencies"@,
        DependencyKind::Unknown => "dependencies"@,
    }
}

/// The table of every kind may hold dependencies.
pub proof fn lemma_kind_table_ok(k: DependencyKind)
    ensures
        dep_table(kind_table(k)),
        dep_table("dependencies"@),
{
    reveal_strlit("dependencies");
    reveal_strlit("dev-dependencies");
    reveal_strlit("build-dependencies");
    reveal_strlit("features");
    reveal_strlit("workspace");
    assert("dependencies"@.len() == 12 && "dev-dependencies"@.len() == 16 && "build-dependencies"@.len() == 18);
    assert("features"@.len() == 8 && "workspace"@.len() == 9);
}

/// The name of the table that holds dependencies of kind `k`.
pub fn kind_to_str(k: DependencyKind) -> (r: &'static str)
    ensures
        r@ == kind_table(k),
{
    proof {
        reveal_strlit("dependencies");
        reveal_strlit("dev-dependencies");
        reveal_strlit("build-dependencies");
    }
    match k {
        DependencyKind::Normal => "dependencies",
        DependencyKind::Development => "dev-dependencies",
        DependencyKind::Build => "build-dependencies",
        DependencyKind::Unknown => "dependencies",
    }
}

/// A version requirement without a leading caret, which cargo implies.
pub open spec fn without_caret(s: Seq<char>) -> Seq<char> {
    if s.len() > 0 && s[0] == '^' {
        s.drop_first()
    } else {
        s
    }
}

/// Strip one leading `^`.
pub fn remove_carrot(v: &str) -> (r: String)
    ensures
        r@ == without_caret(v@),
{
    let c = crate::text::chars_of(v);
    if c.len() > 0 && c[0] == '^' {
        let mut out: Vec<char> = Vec::new();
        let mut k: usize = 1;
        while k < c.len()
            invariant
                1 <= k <= c@.len(),
                out@ =~= c@.subrange(1, k as int),
            decreases c@.len() - k,
        {
            out.push(c[k]);
            k = k + 1;
        }
        assert(c@.subrange(1, c@.len() as int) =~= c@.drop_first());
        crate::text::string_of(&out)
    } else {
        v.to_owned()
    }
}

/// Canonical path `path` is `dir` or lies below it, compared by whole
/// `/`-separated components.
pub open spec fn path_under(path: Seq<char>, dir: Seq<char>) -> bool {
    path == dir || starts_with(path, dir + seq!['/']) || (dir.len() > 0 && dir.last() == '/' && starts_with(path, dir))
}

/// Canonical path `path` lies in the write scope: under `root` or under one of
/// the `extra` directories.
pub open spec fn in_write_scope(path: Seq<char>, root: Seq<char>, extra: Seq<String>) -> bool {
    path_under(path, root) || exists|i: int| 0 <= i < extra.len() && path_under(path, (#[trigger] extra[i])@)
}

/// Whether canonical path `path` is `dir` or lies below it.
pub fn is_under(path: &String, dir: &String) -> (r: bool)
    ensures
        r == path_under(path@, dir@),
{
    if *path == *dir {
        return true;
    }
    proof {
        reveal_strlit("/");
        assert("/"@ =~= seq!['/']);
    }
    let with_slash = crate::text::join2(dir.as_str(), "/");
    if starts_with_str(path.as_str(), with_slash.as_str()) {
        return true;
    }
    let c = crate::text::chars_of(dir.as_str());
    if c.len() > 0 && c[c.len() - 1] == '/' {
        starts_with_str(path.as_str(), dir.as_str())
    } else {
        false
    }
}

/// Whether a manifest at canonical path `path` may be written: it lies under
/// the workspace root `root` or under one of the `extra` directories.
pub fn may_write(path: &String, root: &String, extra: &Vec<String>) -> (r: bool)
    ensures
        r == in_write_scope(path@, root@, extra@),
{
    if is_under(path, root) {
        return true;
    }
    let mut i: usize = 0;
    while i < extra.len()
        invariant
            i <= extra@.len(),
            !path_under(path@, root@),
            forall|j: int| 0 <= j < i ==> !path_under(path@, (#[trigger] extra@[j])@),
        decreases extra@.len() - i,
    {
        if is_under(path, &extra[i]) {
            return true;
        }
        i = i + 1;
    }
    false
}

/// `s` without its leading `./` pieces.
pub open spec fn strip_dot_slash(s: Seq<char>) -> Seq<char>
    decreases s.len(),
{
    if s.len() >= 2 && s[0] == '.' && s[1] == '/' {
        strip_dot_slash(s.skip(2))
    } else {
        s
    }
}

/// A path without leading `./` pieces and trailing slashes.
pub fn sanitize_path(p: &str) -> (r: String)
    ensures
        r@ == crate::text::trim_end_char(strip_dot_slash(p@), '/'),
{
    let mut s = p.to_owned();
    proof {
        reveal_strlit("./");
        assert("./"@.len() == 2 && "./"@[0] == '.' && "./"@[1] == '/');
    }
    while starts_with_str(s.as_str(), "./")
        invariant
            strip_dot_slash(s@) == strip_dot_slash(p@),
            "./"@.len() == 2 && "./"@[0] == '.' && "./"@[1] == '/',
        decreases s@.len(),
    {
        let c = crate::text::chars_of(s.as_str());
        proof {
            assert(c@.len() >= 2);
            assert(c@.take(2) == "./"@);
            assert(c@[0] == c@.take(2)[0] && c@[1] == c@.take(2)[1]);
        }
        let mut out: Vec<char> = Vec::new();
        let mut k: usize = 2;
        while k < c.len()
            invariant
                2 <= k <= c@.len(),
                out@ == c@.subrange(2, k as int),
            decreases c@.len() - k,
        {
            proof {
                assert(c@.subrange(2, k as int + 1) =~= c@.subrange(2, k as int).push(c@[k as int]));
            }
            out.push(c[k]);
            k = k + 1;
        }
        assert(out@ =~= c@.skip(2));
        s = crate::text::string_of(&out);
    }
    proof {
        if s@.len() >= 2 && s@[0] == '.' && s@[1] == '/' {
            assert(s@.take(2) =~= "./"@);
        }
    }
    trim_end_matches(s.as_str(), '/')
}

/// An editor of one manifest.
pub struct AutoFixer {
    /// The path the manifest was read from, if any.
    pub manifest: Option<String>,
    doc: toml_edit::DocumentMut,
    raw: String,
}

impl AutoFixer {
    /// The entries of each feature array, by name.
    pub closed spec fn features(&self) -> Map<Seq<char>, Seq<EntryView>> {
        doc_features(self.doc)
    }

    /// Whether the manifest has a `[workspace]` table.
    pub closed spec fn has_workspace_table(&self) -> bool {
        has_workspace(self.doc)
    }

    /// Whether `[workspace.dependencies]` has entry `name`.
    pub closed spec fn workspace_dep_present(&self, name: Seq<char>) -> bool {
        ws_present(self.doc, name)
    }

    /// The keys of `[workspace.dependencies].name`, when it is an inline table.
    pub closed spec fn workspace_dep_keys(&self, name: Seq<char>) -> Option<Set<Seq<char>>> {
        ws_keys(self.doc, name)
    }

    /// The string under `key` of `[workspace.dependencies].name`.
    pub closed spec fn workspace_dep_str(&self, name: Seq<char>, key: Seq<char>) -> Option<Seq<char>> {
        ws_str(self.doc, name, key)
    }

    /// The boolean under `key` of `[workspace.dependencies].name`.
    pub closed spec fn workspace_dep_bool(&self, name: Seq<char>, key: Seq<char>) -> Option<bool> {
        ws_bool(self.doc, name, key)
    }

    /// The path the manifest was read from.
    pub closed spec fn manifest_path(&self) -> Option<String> {
        self.manifest
    }

    /// The entries of feature `name`; none when it is no feature array.
    pub open spec fn feature_items(&self, name: Seq<char>) -> Seq<EntryView> {
        if self.features().contains_key(name) {
            self.features()[name]
        } else {
            Seq::empty()
        }
    }

    /// Whether the dependency tables and `[workspace]` of `self` equal those of `other`.
    pub closed spec fn same_deps(&self, other: &AutoFixer) -> bool {
        deps_frame(other.doc, self.doc)
    }

    /// Whether `[features]` of `self` equals that of `other`.
    pub closed spec fn same_features(&self, other: &AutoFixer) -> bool {
        features_frame(other.doc, self.doc)
    }

    /// Whether the manifest has a `[features]` table.
    pub closed spec fn has_features_table(&self) -> bool {
        has_features_table(self.doc)
    }

    /// The string under `key` of dependency `name` of table `table`.
    pub closed spec fn dependency_str(&self, table: Seq<char>, name: Seq<char>, key: Seq<char>) -> Option<Seq<char>> {
        dep_str(self.doc, table, name, key)
    }

    /// The boolean under `key` of dependency `name` of table `table`.
    pub closed spec fn dependency_bool(&self, table: Seq<char>, name: Seq<char>, key: Seq<char>) -> Option<bool> {
        dep_bool(self.doc, table, name, key)
    }

    /// The current text of the manifest.
    pub closed spec fn text(&self) -> Seq<char> {
        doc_text(self.doc)
    }

    /// Whether `[features]` has key `name`, whatever its value.
    pub closed spec fn has_feature_key(&self, name: Seq<char>) -> bool {
        feature_key(self.doc, name)
    }

    /// The text the manifest was read from.
    pub closed spec fn original(&self) -> Seq<char> {
        self.raw@
    }

    /// Parse a manifest from text.
    pub fn from_raw(raw: &str) -> (r: Result<Self, String>)
        ensures
            r matches Ok(f) ==> f.original() == raw@ && f.manifest_path() is None,
    {
        match parse_document(raw) {
            Ok(doc) => Ok(AutoFixer { manifest: None, doc, raw: raw.to_owned() }),
            Err(e) => Err(crate::text::join2("Failed to parse manifest: ", e.as_str())),
        }
    }

    /// Parse a manifest that was read from `path`.
    pub fn from_text(path: &str, raw: &str) -> (r: Result<Self, String>)
        ensures
            r matches Ok(f) ==> (f.original() == raw@ && (f.manifest_path() matches Some(p) && p@ == path@)),
    {
        match parse_document(raw) {
            Ok(doc) => Ok(AutoFixer { manifest: Some(path.to_owned()), doc, raw: raw.to_owned() }),
            Err(e) => Err(crate::text::join2("Failed to parse manifest: ", e.as_str())),
        }
    }

    /// The current text of the manifest.
    pub fn to_string(&self) -> (r: String)
        ensures
            r@ == self.text(),
    {
        document_text(&self.doc)
    }

    /// Whether the text differs from what was read.
    pub fn modified(&self) -> (r: bool)
        ensures
            r == (self.text() != self.original()),
    {
        let now = document_text(&self.doc);
        !(now == self.raw)
    }

    /// The names of all features.
    /// The names of all keys of `[features]`, each once; every feature array is
    /// among them.
    pub fn get_all_features(&self) -> (r: Vec<String>)
        ensures
            forall|k: Seq<char>| #[trigger] self.features().contains_key(k) ==> exists|i: int| 0 <= i < r@.len() && r@[i]@ == k,
            forall|i: int, j: int| 0 <= i < j < r@.len() ==> r@[i]@ != r@[j]@,
    {
        feature_names(&self.doc)
    }

    /// The array of feature `name`, if it exists.
    pub fn get_feature(&self, name: &str) -> (r: Option<FeatureArray>)
        ensures
            r matches Some(a) ==> self.features().contains_key(name@) && self.features()[name@] == a.items(),
            r is None ==> !self.features().contains_key(name@),
    {
        read_feature(&self.doc, name)
    }

    /// Create feature `name = []` unless `[features]` has that key already;
    /// creates `[features]` if needed.
    pub fn add_feature(&mut self, name: &str) -> (r: Result<(), String>)
        ensures
            r is Ok,
            old(self).has_feature_key(name@) ==> final(self).features() == old(self).features(),
            !old(self).has_feature_key(name@) ==> final(self).features() == old(self).features().insert(
                name@,
                Seq::<EntryView>::empty(),
            ),
            final(self).has_feature_key(name@),
            old(self).has_feature_key(name@) ==> final(self).text() == old(self).text(),
            final(self).same_deps(&*old(self)),
    {
        if feature_key_present(&self.doc, name) {
            return Ok(());
        }
        if !features_table_present(&self.doc) {
            insert_features_table(&mut self.doc);
        }
        insert_empty_array(&mut self.doc, name);
        Ok(())
    }

    /// Append `v` to feature `name`, creating the feature if needed. The comments
    /// and line breaks of the existing entries stay.
    pub fn add_to_feature(&mut self, name: &str, v: &str) -> (r: Result<(), EditError>)
        ensures
            r is Ok == (v@.len() > 0 && forall|i: int|
                0 <= i < old(self).feature_items(name@).len() ==> (#[trigger] old(self).feature_items(name@)[i]).0.len() > 0),
            r is Ok ==> final(self).features() == old(self).features().insert(
                name@,
                appended_items(old(self).feature_items(name@), v@),
            ),
            r is Err ==> final(self).features() == old(self).features() && final(self).text() == old(self).text(),
            final(self).same_deps(&*old(self)),
    {
        let existing = read_feature(&self.doc, name);
        let mut arr = match existing {
            Some(a) => a,
            None => FeatureArray {
                entries: Vec::new(),
                trailing: String::new(),
                trailing_comma: false,
                decor_prefix: None,
                decor_suffix: None,
            },
        };
        proof {
            if existing is None {
                assert(arr.items() =~= Seq::<EntryView>::empty());
            }
            assert(arr.items() == old(self).feature_items(name@));
        }
        append_to_feature(&mut arr, v)?;
        write_feature(&mut self.doc, name, &arr);
        Ok(())
    }

    /// Apply the formatting modes to every feature; `modes` gives the modes of a
    /// feature by name, the rest get all modes. Errors are collected per feature.
    pub fn canonicalize_features(&mut self, cname: &str, modes: &Vec<(String, Vec<Mode>)>, line_width: u32) -> (r: Result<(), Vec<EditError>>)
        ensures
            final(self).features().dom() == old(self).features().dom(),
            r is Ok <==> forall|f: Seq<char>| #[trigger] old(self).features().contains_key(f) ==> !canon_fails(old(self).features()[f], modes_for(modes@, f)),
            forall|f: Seq<char>| #[trigger] old(self).features().contains_key(f) && modes_for(modes@, f).contains(Mode::Off)
                ==> final(self).features()[f] == old(self).features()[f],
            final(self).same_deps(&*old(self)),
            forall|f: Seq<char>| #[trigger] old(self).features().contains_key(f) && !canon_fails(old(self).features()[f], modes_for(modes@, f))
                ==> canon_items(old(self).features()[f], modes_for(modes@, f), final(self).features()[f]),
    {
        let names = feature_names(&self.doc);
        let ghost orig = self.features();
        let mut errors: Vec<EditError> = Vec::new();
        let mut i: usize = 0;
        while i < names.len()
            invariant
                orig == old(self).features(),
                self.same_deps(&*old(self)),
                i <= names@.len(),
                forall|k: Seq<char>| #[trigger] orig.contains_key(k) ==> exists|j: int| 0 <= j < names@.len() && names@[j]@ == k,
                forall|a: int, b: int| 0 <= a < b < names@.len() ==> names@[a]@ != names@[b]@,
                self.features().dom() == orig.dom(),
                forall|f: Seq<char>| #[trigger] orig.contains_key(f) && (exists|j: int| 0 <= j < i && names@[j]@ == f) && !canon_fails(orig[f], modes_for(modes@, f))
                    ==> canon_items(orig[f], modes_for(modes@, f), self.features()[f]),
                forall|f: Seq<char>| #[trigger] orig.contains_key(f) && !(exists|j: int| 0 <= j < i && names@[j]@ == f) ==> self.features()[f] == orig[f],
                forall|f: Seq<char>| #[trigger] orig.contains_key(f) && modes_for(modes@, f).contains(Mode::Off) ==> self.features()[f] == orig[f],
                (errors@.len() == 0) <==> forall|j: int| 0 <= j < i && #[trigger] orig.contains_key(names@[j]@) ==> !canon_fails(orig[names@[j]@], modes_for(modes@, names@[j]@)),
            decreases names@.len() - i,
        {
            let fname = &names[i];
            let ghost nm = fname@;
            let ghost before_feats = self.features();
            let ghost errs0 = errors@.len();
            if let Some(arr) = read_feature(&self.doc, fname.as_str()) {
                proof {
                    assert forall|j: int| 0 <= j < i implies names@[j]@ != nm by {}
                    assert(before_feats[nm] == orig[nm]);
                }
                let m = modes_of(modes, fname);
                let mut next = copy_array(&arr);
                let res = canonicalize_feature(cname, fname.as_str(), &m, line_width, &mut next);
                match res {
                    Ok(()) => {},
                    Err(e) => errors.push(e),
                }
                proof {
                    assert(res is Err == canon_fails(orig[nm], m@));
                }
                let same = same_array(&arr, &next);
                if !same {
                    write_feature(&mut self.doc, fname.as_str(), &next);
                }
                proof {
                    if res is Ok {
                        assert(canon_items(orig[nm], m@, next.items()));
                        assert(self.features()[nm] == next.items());
                    }
                }
            } else {
                proof {
                    assert(!orig.contains_key(nm));
                }
            }
            proof {
                assert(self.features().dom() =~= orig.dom());
                assert forall|f: Seq<char>| #[trigger] orig.contains_key(f) && !(exists|j: int| 0 <= j < i + 1 && names@[j]@ == f) implies self.features()[f] == orig[f] by {
                    if f != nm {
                        if exists|j: int| 0 <= j < i && names@[j]@ == f {
                            let j = choose|j: int| 0 <= j < i && names@[j]@ == f;
                            assert(0 <= j < i + 1 && names@[j]@ == f);
                        }
                    } else {
                        assert(names@[i as int]@ == f);
                    }
                }
                assert forall|f: Seq<char>| #[trigger] orig.contains_key(f) && (exists|j: int| 0 <= j < i + 1 && names@[j]@ == f) && !canon_fails(orig[f], modes_for(modes@, f))
                    implies canon_items(orig[f], modes_for(modes@, f), self.features()[f]) by {
                    if f != nm {
                        let j = choose|j: int| 0 <= j < i + 1 && names@[j]@ == f;
                        assert(j < i);
                    }
                }
                assert forall|f: Seq<char>| #[trigger] orig.contains_key(f) && modes_for(modes@, f).contains(Mode::Off) implies self.features()[f] == orig[f] by {
                    if f == nm {
                    }
                }
                assert((errors@.len() == 0) <==> forall|j: int| 0 <= j < i + 1 && #[trigger] orig.contains_key(names@[j]@) ==> !canon_fails(orig[names@[j]@], modes_for(modes@, names@[j]@))) by {
                    if errors@.len() == 0 {
                        assert forall|j: int| 0 <= j < i + 1 && #[trigger] orig.contains_key(names@[j]@) implies !canon_fails(orig[names@[j]@], modes_for(modes@, names@[j]@)) by {
                            if j < i {
                            } else {
                                assert(names@[j]@ == nm);
                            }
                        }
                    }
                    if forall|j: int| 0 <= j < i + 1 && #[trigger] orig.contains_key(names@[j]@) ==> !canon_fails(orig[names@[j]@], modes_for(modes@, names@[j]@)) {
                        assert forall|j: int| 0 <= j < i && #[trigger] orig.contains_key(names@[j]@) implies !canon_fails(orig[names@[j]@], modes_for(modes@, names@[j]@)) by {
                            assert(0 <= j < i + 1);
                        }
                        if orig.contains_key(nm) {
                            assert(orig.contains_key(names@[i as int]@));
                        }
                    }
                }
            }
            i = i + 1;
        }
        proof {
            assert forall|f: Seq<char>| #[trigger] orig.contains_key(f) implies !canon_fails(orig[f], modes_for(modes@, f)) <== (errors@.len() == 0) by {
                if errors@.len() == 0 {
                    let j = choose|j: int| 0 <= j < names@.len() && names@[j]@ == f;
                    assert(orig.contains_key(names@[j]@));
                }
            }
            if errors@.len() != 0 {
                let j = choose|j: int| 0 <= j < i && #[trigger] orig.contains_key(names@[j]@) && canon_fails(orig[names@[j]@], modes_for(modes@, names@[j]@));
                assert(orig.contains_key(names@[j]@));
            }
        }
        if errors.len() == 0 {
            Ok(())
        } else {
            Err(errors)
        }
    }

    /// Whether feature `fname` is left as it is by its formatting modes.
    pub fn is_feature_canonical(&self, cname: &str, fname: &str, modes: &Vec<(String, Vec<Mode>)>, line_width: u32) -> (r: Result<bool, EditError>)
        ensures
            !self.features().contains_key(fname@) ==> r == Ok::<bool, EditError>(true),
            self.features().contains_key(fname@) ==> (r is Err <==> canon_fails(self.features()[fname@], modes_for(modes@, fname@))),
            self.features().contains_key(fname@) && r == Ok::<bool, EditError>(true) ==> canon_items(
                self.features()[fname@],
                modes_for(modes@, fname@),
                self.features()[fname@],
            ),
    {
        let arr = match read_feature(&self.doc, fname) {
            Some(a) => a,
            None => return Ok(true),
        };
        let name = fname.to_owned();
        let m = modes_of(modes, &name);
        let mut next = copy_array(&arr);
        canonicalize_feature(cname, fname, &m, line_width, &mut next)?;
        Ok(same_array(&arr, &next))
    }

    /// Remove every entry that starts with `prefix` from every feature.
    pub fn remove_feature(&mut self, prefix: &str)
        ensures
            final(self).features().dom() == old(self).features().dom(),
            forall|f: Seq<char>| #[trigger] old(self).features().contains_key(f) ==> final(self).features()[f]
                == old(self).features()[f].filter(|e: EntryView| !starts_with(e.0, prefix@)),
            !old(self).has_features_table() ==> final(self).text() == old(self).text(),
            final(self).same_deps(&*old(self)),
    {
        let names = feature_names(&self.doc);
        let ghost orig = self.features();
        let mut i: usize = 0;
        while i < names.len()
            invariant
                orig == old(self).features(),
                self.same_deps(&*old(self)),
                i == 0 ==> *self == *old(self),
                i <= names@.len(),
                forall|k: Seq<char>| #[trigger] orig.contains_key(k) ==> exists|j: int| 0 <= j < names@.len() && names@[j]@ == k,
                forall|a: int, b: int| 0 <= a < b < names@.len() ==> names@[a]@ != names@[b]@,
                self.features().dom() == orig.dom(),
                forall|f: Seq<char>| #[trigger] orig.contains_key(f) ==> self.features()[f] == (if exists|j: int| 0 <= j < i && names@[j]@ == f {
                    orig[f].filter(|e: EntryView| !starts_with(e.0, prefix@))
                } else {
                    orig[f]
                }),
            decreases names@.len() - i,
        {
            let ghost before = self.features();
            let ghost prev_doc = self.doc;
            let ghost nm = names@[i as int]@;
            if let Some(arr) = read_feature(&self.doc, names[i].as_str()) {
                let (kept, _) = without_prefixed(&arr, prefix);
                if !same_array(&arr, &kept) {
                    write_feature(&mut self.doc, names[i].as_str(), &kept);
                    proof {
                        lemma_deps_frame_trans(old(self).doc, prev_doc, self.doc);
                    }
                }
                proof {
                    assert(orig.contains_key(nm));
                    assert forall|j: int| 0 <= j < i implies names@[j]@ != nm by {}
                    assert(before[nm] == orig[nm]);
                }
            }
            proof {
                assert(self.features().dom() =~= orig.dom());
                assert forall|f: Seq<char>| #[trigger] orig.contains_key(f) implies self.features()[f] == (if exists|j: int| 0 <= j < i + 1 && names@[j]@ == f {
                    orig[f].filter(|e: EntryView| !starts_with(e.0, prefix@))
                } else {
                    orig[f]
                }) by {
                    if f == nm {
                        assert(names@[i as int]@ == f);
                    } else {
                        if exists|j: int| 0 <= j < i + 1 && names@[j]@ == f {
                            let j = choose|j: int| 0 <= j < i + 1 && names@[j]@ == f;
                            assert(j < i);
                        }
                    }
                }
            }
            i = i + 1;
        }
        proof {
            assert forall|f: Seq<char>| #[trigger] orig.contains_key(f) implies exists|j: int| 0 <= j < i && names@[j]@ == f by {}
        }
    }

    /// Whether dependency table `table` has entry `name`.
    pub closed spec fn dependency_present(&self, table: Seq<char>, name: Seq<char>) -> bool {
        dep_present(self.doc, table, name)
    }

    /// The version string of dependency `name` in table `table`, when it is one.
    pub closed spec fn dependency_version(&self, table: Seq<char>, name: Seq<char>) -> Option<Seq<char>> {
        dep_version(self.doc, table, name)
    }

    /// The keys of dependency `name` in table `table`, when it is an inline table.
    pub closed spec fn dependency_keys(&self, table: Seq<char>, name: Seq<char>) -> Option<Set<Seq<char>>> {
        dep_keys(self.doc, table, name)
    }

    /// Rewrite dependency `dname` of kind `kind` to `{ workspace = true }`, with
    /// `default-features` set to `default_feats` if given and removed otherwise.
    /// A version string must be a version requirement; an inline table loses
    /// `path`, `version` and `package` and is refused for git dependencies and for
    /// lifts that change where the dependency comes from.
    pub fn lift_dependency(&mut self, dname: &str, kind: DependencyKind, default_feats: Option<bool>, location: SourceLocationSelector) -> (r: Result<(), LiftError>)
        ensures
            !old(self).dependency_present(kind_table(kind), dname@) ==> r is Ok && final(self).text() == old(self).text(),
            old(self).dependency_version(kind_table(kind), dname@) matches Some(v) ==> (r is Ok <==> is_version_req(v))
                && (r is Err ==> r == Err::<(), LiftError>(LiftError::NotSemver))
                && (r is Ok ==> final(self).dependency_keys(kind_table(kind), dname@) == Some(lifted_keys(Set::empty(), default_feats))),
            old(self).dependency_keys(kind_table(kind), dname@) matches Some(k) ==> (r is Ok <==> (!k.contains("git"@)
                && !(location == SourceLocationSelector::Remote && k.contains("path"@))
                && !(location == SourceLocationSelector::Local && k.contains("version"@))))
                && (r is Ok ==> final(self).dependency_keys(kind_table(kind), dname@) == Some(lifted_keys(k, default_feats)))
                && (k.contains("git"@) ==> r == Err::<(), LiftError>(LiftError::GitDependency)),
            old(self).dependency_present(kind_table(kind), dname@) && old(self).dependency_keys(kind_table(kind), dname@) is None
                && old(self).dependency_version(kind_table(kind), dname@) is None ==> r == Err::<(), LiftError>(LiftError::NotATable),
            r is Err ==> final(self).text() == old(self).text() && final(self).features() == old(self).features(),
            final(self).same_features(&*old(self)),
            r is Ok && old(self).dependency_present(kind_table(kind), dname@) ==> final(self).dependency_bool(kind_table(kind), dname@, "workspace"@)
                == Some(true) && final(self).dependency_bool(kind_table(kind), dname@, "default-features"@) == default_feats,
            r is Ok && old(self).dependency_keys(kind_table(kind), dname@) is Some ==> forall|k: Seq<char>|
                #![trigger final(self).dependency_str(kind_table(kind), dname@, k)]
                #![trigger final(self).dependency_bool(kind_table(kind), dname@, k)]
                !lift_touched(k) ==> final(self).dependency_str(kind_table(kind), dname@, k) == old(self).dependency_str(kind_table(kind), dname@, k)
                    && final(self).dependency_bool(kind_table(kind), dname@, k) == old(self).dependency_bool(kind_table(kind), dname@, k),
            r is Ok && old(self).dependency_version(kind_table(kind), dname@) is Some ==> forall|k: Seq<char>|
                #![trigger final(self).dependency_str(kind_table(kind), dname@, k)]
                final(self).dependency_str(kind_table(kind), dname@, k) is None,
    {
        let table = kind_to_str(kind);
        proof {
            lemma_kind_table_ok(kind);
        }
        match read_dependency(&self.doc, table, dname) {
            DepEntry::Absent => Ok(()),
            DepEntry::Version(v) => {
                if !parses_as_version_req(v.as_str()) {
                    return Err(LiftError::NotSemver);
                }
                let mut t = new_inline_table();
                proof {
                    lemma_key_literals();
                }
                inline_set_bool(&mut t, "workspace", true);
                if let Some(d) = default_feats {
                    inline_set_bool(&mut t, "default-features", d);
                }
                proof {
                    reveal_strlit("workspace");
                    reveal_strlit("default-features");
                    reveal_strlit("path");
                    reveal_strlit("version");
                    reveal_strlit("package");
                    let e = Set::<Seq<char>>::empty();
                    assert(e.remove("path"@).remove("version"@).remove("package"@) =~= e);
                    assert("workspace"@.len() == 9 && "default-features"@.len() == 16);
                    assert("workspace"@ != "default-features"@);
                    if default_feats is None {
                        assert(e.insert("workspace"@).remove("default-features"@) =~= e.insert("workspace"@));
                    }
                    assert(inline_keys(t) =~= lifted_keys(e, default_feats));
                }
                write_dependency(&mut self.doc, table, dname, t);
                Ok(())
            },
            DepEntry::Inline(mut t) => {
                lift_inline(&mut t, default_feats, location)?;
                write_dependency(&mut self.doc, table, dname, t);
                Ok(())
            },
            DepEntry::Other => Err(LiftError::NotATable),
        }
    }

    /// Set `default-features = false` on the normal dependency `dep`.
    pub fn disable_default_features(&mut self, dep: &str) -> (r: Result<(), DisableError>)
        ensures
            r is Ok <==> old(self).dependency_keys("dependencies"@, dep@) is Some,
            r is Ok ==> final(self).dependency_bool("dependencies"@, dep@, "default-features"@) == Some(false),
            r is Err ==> final(self).text() == old(self).text() && final(self).features() == old(self).features(),
            final(self).same_features(&*old(self)),
            old(self).dependency_keys("dependencies"@, dep@) matches Some(k) ==> final(self).dependency_keys("dependencies"@, dep@)
                == Some(k.insert("default-features"@)),
    {
        proof {
            reveal_strlit("dependencies");
            reveal_strlit("default-features");
            lemma_kind_table_ok(DependencyKind::Normal);
        }
        let entry = read_dependency(&self.doc, "dependencies", dep);
        match entry {
            DepEntry::Absent => Err(DisableError::NotFound),
            DepEntry::Inline(mut t) => {
                inline_set_bool(&mut t, "default-features", false);
                write_dependency(&mut self.doc, "dependencies", dep, t);
                Ok(())
            },
            _ => Err(DisableError::NotInline),
        }
    }

    /// Add or merge `dep_name` under `[workspace.dependencies]`, as `rename` if
    /// given. An existing entry must agree on version, path and default features.
    pub fn add_workspace_dep_inner(&mut self, dep_name: &str, maybe_rename: Option<&str>, dep_version: &str, default_feats: bool, local: Option<&str>) -> (r: Result<(), WorkspaceError>)
        ensures
            (r == Err::<(), WorkspaceError>(WorkspaceError::NoWorkspace)) == !old(self).has_workspace_table(),
            old(self).has_workspace_table() && maybe_rename is None && !old(self).workspace_dep_present(dep_name@) ==> r is Ok
                && final(self).workspace_dep_keys(dep_name@) == Some(ws_entry_keys(Set::empty(), local is Some, default_feats)),
            maybe_rename is None && old(self).workspace_dep_keys(dep_name@) is Some && old(self).workspace_dep_str(dep_name@, "version"@) is Some
                && without_caret(old(self).workspace_dep_str(dep_name@, "version"@)->0) != without_caret(dep_version@)
                ==> (r matches Err(WorkspaceError::VersionMismatch { .. })),
            maybe_rename is None && old(self).workspace_dep_keys(dep_name@) is Some && r is Ok ==> final(self).workspace_dep_keys(dep_name@)
                == Some(ws_entry_keys(old(self).workspace_dep_keys(dep_name@)->0, local is Some, default_feats)),
            maybe_rename is None && old(self).workspace_dep_keys(dep_name@) is Some && r is Ok && old(self).workspace_dep_bool(
                dep_name@,
                "default-features"@,
            ) is Some ==> old(self).workspace_dep_bool(dep_name@, "default-features"@)->0 == default_feats,
            r is Ok && maybe_rename is Some && maybe_rename->0@ != dep_name@ ==> !final(self).workspace_dep_present(dep_name@),
            r is Ok ==> final(self).workspace_dep_present(match maybe_rename { Some(a) => a@, None => dep_name@ }),
            maybe_rename is None ==> (r matches Err(WorkspaceError::VersionMismatch { found }) ==> old(self).workspace_dep_str(dep_name@, "version"@)
                == Some(found@)),
            old(self).has_workspace_table() && !old(self).workspace_dep_present(dep_name@) && (maybe_rename matches Some(a) ==> !old(self).workspace_dep_present(a@))
                ==> r is Ok && fresh_entry(*final(self), match maybe_rename { Some(a) => a@, None => dep_name@ }, dep_name@, dep_version@, maybe_rename is Some, default_feats, match local { Some(l) => Some(l@), None => None }),
            final(self).same_features(&*old(self)),
    {
        let version = remove_carrot(dep_version);
        proof {
            lemma_key_literals();
        }
        let found_orig = read_workspace_dep(&self.doc, dep_name);
        if let WorkspaceDep::NoWorkspace = found_orig {
            return Err(WorkspaceError::NoWorkspace);
        }
        let found_rename = match maybe_rename {
            Some(r) => read_workspace_dep(&self.doc, r),
            None => WorkspaceDep::Absent,
        };
        let dep_name_s = dep_name.to_owned();
        match &found_rename {
            WorkspaceDep::Inline(t) => {
                match inline_str(t, "package") {
                    Some(p) => {
                        if !(p == dep_name_s) {
                            return Err(WorkspaceError::DifferentAlias { found: p });
                        }
                    },
                    None => return Err(WorkspaceError::AliasCollision),
                }
            },
            WorkspaceDep::TableLike(p) => {
                match p {
                    Some(p) => {
                        if !(*p == dep_name_s) {
                            return Err(WorkspaceError::DifferentAlias { found: p.clone() });
                        }
                    },
                    None => return Err(WorkspaceError::AliasCollision),
                }
            },
            _ => {},
        }
        let found = match found_rename {
            WorkspaceDep::Absent => found_orig,
            other => other,
        };
        let mut t = match found {
            WorkspaceDep::NoWorkspace | WorkspaceDep::Absent => new_inline_table(),
            WorkspaceDep::Inline(t) => {
                if let Some(v) = inline_str(&t, "version") {
                    let v2 = remove_carrot(v.as_str());
                    if !(v2 == version) {
                        return Err(WorkspaceError::VersionMismatch { found: v });
                    }
                }
                if let Some(l) = local {
                    if let Some(p) = inline_str(&t, "path") {
                        let a = sanitize_path(l);
                        let b = sanitize_path(p.as_str());
                        if !(a == b) {
                            return Err(WorkspaceError::PathMismatch { found: p });
                        }
                    }
                }
                if let Some(d) = inline_bool(&t, "default-features") {
                    if d != default_feats {
                        return Err(WorkspaceError::DefaultFeaturesMismatch { found: d });
                    }
                }
                t
            },
            _ => return Err(WorkspaceError::Unvalidatable),
        };
        inline_set_str(&mut t, "version", version.as_str());
        if let Some(l) = local {
            inline_set_str(&mut t, "path", l);
            inline_remove(&mut t, "version");
        }
        if !default_feats {
            inline_set_bool(&mut t, "default-features", false);
        }
        let new_name = match maybe_rename {
            Some(r) => {
                inline_set_str(&mut t, "package", dep_name);
                r
            },
            None => dep_name,
        };
        if !(new_name.to_owned() == dep_name_s) {
            remove_workspace_dep(&mut self.doc, dep_name);
        }
        if !ws_deps_table_present(&self.doc) {
            insert_ws_deps_table(&mut self.doc);
        }
        write_workspace_dep(&mut self.doc, new_name, t);
        Ok(())
    }
}

/// The keys written by the lift and workspace edits are distinct.
pub proof fn lemma_key_literals()
    ensures
        "workspace"@ != "default-features"@,
        "version"@ != "path"@ && "version"@ != "default-features"@ && "version"@ != "package"@,
        "path"@ != "default-features"@ && "path"@ != "package"@ && "default-features"@ != "package"@,
        "workspace"@ != "path"@ && "workspace"@ != "version"@ && "workspace"@ != "package"@,
{
    reveal_strlit("workspace");
    reveal_strlit("default-features");
    reveal_strlit("version");
    reveal_strlit("path");
    reveal_strlit("package");
    assert("workspace"@.len() == 9 && "default-features"@.len() == 16 && "version"@.len() == 7 && "path"@.len() == 4 && "package"@.len() == 7);
    assert("version"@[0] != "package"@[0]);
}

/// The keys that lifting a dependency rewrites.
pub open spec fn lift_touched(k: Seq<char>) -> bool {
    k == "path"@ || k == "version"@ || k == "package"@ || k == "workspace"@ || k == "default-features"@
}

/// Entry `n` of `[workspace.dependencies]` holds `version` (without its caret) or
/// `path` for a local dependency, `default-features = false` when they are off,
/// and `package` under an alias.
pub open spec fn fresh_entry(f: AutoFixer, n: Seq<char>, dep_name: Seq<char>, version: Seq<char>, renamed: bool, default_feats: bool, local: Option<Seq<char>>) -> bool {
    &&& f.workspace_dep_present(n)
    &&& f.workspace_dep_str(n, "version"@) == (if local is None { Some(without_caret(version)) } else { None })
    &&& f.workspace_dep_str(n, "path"@) == local
    &&& f.workspace_dep_bool(n, "default-features"@) == (if default_feats { None } else { Some(false) })
    &&& f.workspace_dep_str(n, "package"@) == (if renamed { Some(dep_name) } else { None })
}

/// The inline table of a dependency rewritten to point at the workspace.
pub open spec fn lifted_keys(keys: Set<Seq<char>>, default_feats: Option<bool>) -> Set<Seq<char>> {
    let k = keys.remove("path"@).remove("version"@).remove("package"@).insert("workspace"@);
    match default_feats {
        Some(_) => k.insert("default-features"@),
        None => k.remove("default-features"@),
    }
}

/// Rewrite an inline dependency table to `workspace = true`: drop `path`,
/// `version` and `package`; set or drop `default-features`. Refused for a git
/// dependency and for a lift that changes where the dependency comes from.
pub fn lift_inline(t: &mut toml_edit::InlineTable, default_feats: Option<bool>, location: SourceLocationSelector) -> (r: Result<(), LiftError>)
    ensures
        inline_keys(*old(t)).contains("git"@) ==> r == Err::<(), LiftError>(LiftError::GitDependency),
        !inline_keys(*old(t)).contains("git"@) && location == SourceLocationSelector::Remote && inline_keys(*old(t)).contains("path"@)
            ==> r == Err::<(), LiftError>(LiftError::LocalToRemote),
        !inline_keys(*old(t)).contains("git"@) && location == SourceLocationSelector::Local && inline_keys(*old(t)).contains("version"@)
            ==> r == Err::<(), LiftError>(LiftError::RemoteToLocal),
        r is Ok ==> inline_keys(*final(t)) == lifted_keys(inline_keys(*old(t)), default_feats),
        r is Ok ==> inline_bool_of(*final(t), "workspace"@) == Some(true) && inline_bool_of(*final(t), "default-features"@) == default_feats,
        r is Ok ==> forall|k: Seq<char>| #![trigger inline_str_of(*final(t), k)] #![trigger inline_bool_of(*final(t), k)] !lift_touched(k) ==> inline_str_of(*final(t), k) == inline_str_of(*old(t), k)
            && inline_bool_of(*final(t), k) == inline_bool_of(*old(t), k),
        r is Ok <==> !inline_keys(*old(t)).contains("git"@) && !(location == SourceLocationSelector::Remote && inline_keys(*old(t)).contains("path"@))
            && !(location == SourceLocationSelector::Local && inline_keys(*old(t)).contains("version"@)),
{
    proof {
        reveal_strlit("git");
        reveal_strlit("path");
        reveal_strlit("version");
        reveal_strlit("package");
        reveal_strlit("workspace");
        reveal_strlit("default-features");
        lemma_key_literals();
    }
    if inline_has(t, "git") {
        return Err(LiftError::GitDependency);
    }
    match location {
        SourceLocationSelector::Remote => {
            if inline_has(t, "path") {
                return Err(LiftError::LocalToRemote);
            }
        },
        SourceLocationSelector::Local => {
            if inline_has(t, "version") {
                return Err(LiftError::RemoteToLocal);
            }
        },
    }
    inline_remove(t, "path");
    inline_remove(t, "version");
    inline_remove(t, "package");
    inline_set_bool(t, "workspace", true);
    match default_feats {
        Some(d) => inline_set_bool(t, "default-features", d),
        None => inline_remove(t, "default-features"),
    }
    Ok(())
}

/// The modes given for feature `fname`; none if it is not listed.
pub fn modes_of(modes: &Vec<(String, Vec<Mode>)>, fname: &String) -> (r: Vec<Mode>)
    ensures
        r@ == modes_for(modes@, fname@),
{
    let mut out: Vec<Mode> = Vec::new();
    let mut i: usize = 0;
    while i < modes.len()
        invariant
            i <= modes@.len(),
            out@ == modes_for(modes@.take(i as int), fname@),
        decreases modes@.len() - i,
    {
        let ghost before = out@;
        if modes[i].0 == *fname {
            let mut k: usize = 0;
            while k < modes[i].1.len()
                invariant
                    i < modes@.len(),
                    k <= modes@[i as int].1@.len(),
                    out@ == before + modes@[i as int].1@.take(k as int),
                decreases modes@[i as int].1@.len() - k,
            {
                out.push(modes[i].1[k]);
                k = k + 1;
                assert(out@ =~= before + modes@[i as int].1@.take(k as int));
            }
            assert(modes@[i as int].1@.take(modes@[i as int].1@.len() as int) =~= modes@[i as int].1@);
        } else {
            assert(out@ =~= before + Seq::<Mode>::empty());
        }
        assert(modes@.take(i as int + 1).drop_last() =~= modes@.take(i as int));
        i = i + 1;
    }
    assert(modes@.take(modes@.len() as int) =~= modes@);
    out
}

/// The modes given for feature `f`, in order.
pub open spec fn modes_for(modes: Seq<(String, Vec<Mode>)>, f: Seq<char>) -> Seq<Mode>
    decreases modes.len(),
{
    if modes.len() == 0 {
        Seq::empty()
    } else {
        modes_for(modes.drop_last(), f) + if modes.last().0@ == f {
            modes.last().1@
        } else {
            Seq::<Mode>::empty()
        }
    }
}

/// Whether two arrays are the same, text included.
pub fn same_array(a: &FeatureArray, b: &FeatureArray) -> (r: bool)
    ensures
        r ==> a.items() == b.items() && a.same_frame(b),
{
    if a.entries.len() != b.entries.len() || !(a.trailing == b.trailing) || a.trailing_comma != b.trailing_comma {
        return false;
    }
    let same_decor = match (&a.decor_prefix, &b.decor_prefix) {
        (Some(x), Some(y)) => *x == *y,
        (None, None) => true,
        _ => false,
    } && match (&a.decor_suffix, &b.decor_suffix) {
        (Some(x), Some(y)) => *x == *y,
        (None, None) => true,
        _ => false,
    };
    if !same_decor {
        return false;
    }
    let mut k: usize = 0;
    while k < a.entries.len()
        invariant
            k <= a.entries@.len(),
            a.entries@.len() == b.entries@.len(),
            forall|j: int| 0 <= j < k ==> a.entries@[j]@ == b.entries@[j]@,
        decreases a.entries@.len() - k,
    {
        let x = &a.entries[k];
        let y = &b.entries[k];
        if !(x.value == y.value) || !(x.prefix == y.prefix) || !(x.suffix == y.suffix) {
            return false;
        }
        k = k + 1;
    }
    assert(a.items() =~= b.items());
    true
}

/// The array without the entries that start with `prefix`, and whether any went.
pub fn without_prefixed(a: &FeatureArray, prefix: &str) -> (r: (FeatureArray, bool))
    ensures
        r.0.items() == a.items().filter(|e: EntryView| !starts_with(e.0, prefix@)),
        r.0.same_frame(a),
        r.1 == (r.0.items().len() != a.items().len()),
{
    let mut out: Vec<FeatureEntry> = Vec::new();
    let mut k: usize = 0;
    while k < a.entries.len()
        invariant
            k <= a.entries@.len(),
            entry_views(out@) == a.items().take(k as int).filter(|e: EntryView| !starts_with(e.0, prefix@)),
        decreases a.entries@.len() - k,
    {
        let ghost o = out@;
        proof {
            assert(a.items().take(k as int + 1).drop_last() =~= a.items().take(k as int));
            reveal(Seq::filter);
        }
        if !starts_with_str(a.entries[k].value.as_str(), prefix) {
            let e = a.entries[k].clone_entry();
            out.push(e);
            assert(entry_views(out@) =~= entry_views(o).push(e@));
        } else {
            assert(entry_views(out@) =~= entry_views(o));
        }
        k = k + 1;
    }
    assert(a.items().take(a.entries@.len() as int) =~= a.items());
    let changed = out.len() != a.entries.len();
    let r = FeatureArray {
        entries: out,
        trailing: a.trailing.clone(),
        trailing_comma: a.trailing_comma,
        decor_prefix: match &a.decor_prefix {
            Some(p) => Some(p.clone()),
            None => None,
        },
        decor_suffix: match &a.decor_suffix {
            Some(p) => Some(p.clone()),
            None => None,
        },
    };
    (r, changed)
}

} // verus!
