//! The format-preserving model of a feature array and the edits on it: sorting,
//! de-duplication, one-line and multi-line layout, and appending an entry.
//!
//! An array holds its entries, each with the text before (`prefix`) and after
//! (`suffix`) its value, the text after the last entry (`trailing`), whether a
//! comma follows the last entry, and the text around the brackets.

use vstd::prelude::*;
use crate::text::{
    ends_with, ends_with_str, is_ws, join2, join_lines, join_with_newlines, lines, lines_of, remove_char,
    trim, trim_end, trim_end_char, trim_end_matches, trim_end_str, trim_start, trim_start_char,
    trim_start_matches, trim_start_str, trim_str, without_char,
};

verus! {

/// One entry of a feature array.
#[derive(Debug, Clone)]
pub struct FeatureEntry {
    pub value: String,
    pub prefix: String,
    pub suffix: String,
}

/// A feature array with its formatting.
#[derive(Debug, Clone)]
pub struct FeatureArray {
    pub entries: Vec<FeatureEntry>,
    pub trailing: String,
    pub trailing_comma: bool,
    /// The text before the opening bracket; `None` for the default.
    pub decor_prefix: Option<String>,
    /// The text after the closing bracket; `None` for the default.
    pub decor_suffix: Option<String>,
}

/// The view of an entry: value, prefix and suffix.
pub type EntryView = (Seq<char>, Seq<char>, Seq<char>);

impl View for FeatureEntry {
    type V = EntryView;

    open spec fn view(&self) -> EntryView {
        (self.value@, self.prefix@, self.suffix@)
    }
}

/// The views of a list of entries.
pub open spec fn entry_views(s: Seq<FeatureEntry>) -> Seq<EntryView> {
    s.map_values(|e: FeatureEntry| e@)
}

/// The views of the optional text around the brackets.
pub open spec fn opt_view(o: Option<String>) -> Option<Seq<char>> {
    match o {
        Some(s) => Some(s@),
        None => None,
    }
}

/// Lexicographic order of strings by code point (the order of their UTF-8 bytes).
pub open spec fn key_le(a: Seq<char>, b: Seq<char>) -> bool
    decreases a.len(),
{
    if a.len() == 0 {
        true
    } else if b.len() == 0 {
        false
    } else if a[0] != b[0] {
        a[0] < b[0]
    } else {
        key_le(a.drop_first(), b.drop_first())
    }
}

pub proof fn lemma_key_total(a: Seq<char>, b: Seq<char>)
    ensures
        key_le(a, b) || key_le(b, a),
    decreases a.len(),
{
    if a.len() > 0 && b.len() > 0 && a[0] == b[0] {
        lemma_key_total(a.drop_first(), b.drop_first());
    }
}

pub proof fn lemma_key_trans(a: Seq<char>, b: Seq<char>, c: Seq<char>)
    requires
        key_le(a, b),
        key_le(b, c),
    ensures
        key_le(a, c),
    decreases a.len(),
{
    if a.len() > 0 && b.len() > 0 && c.len() > 0 && a[0] == b[0] && b[0] == c[0] {
        lemma_key_trans(a.drop_first(), b.drop_first(), c.drop_first());
    }
}

pub proof fn lemma_key_refl(a: Seq<char>)
    ensures
        key_le(a, a),
    decreases a.len(),
{
    if a.len() > 0 {
        lemma_key_refl(a.drop_first());
    }
}

/// Whether `a <= b` in code-point order.
pub fn value_le(a: &String, b: &String) -> (r: bool)
    ensures
        r == key_le(a@, b@),
{
    let x = crate::text::chars_of(a.as_str());
    let y = crate::text::chars_of(b.as_str());
    let mut i: usize = 0;
    assert(a@.skip(0) =~= a@);
    assert(b@.skip(0) =~= b@);
    while i < x.len() && i < y.len() && x[i] == y[i]
        invariant
            x@ == a@,
            y@ == b@,
            i <= x@.len(),
            i <= y@.len(),
            key_le(a@, b@) == key_le(a@.skip(i as int), b@.skip(i as int)),
        decreases x@.len() - i,
    {
        proof {
            assert(a@.skip(i as int).drop_first() =~= a@.skip(i as int + 1));
            assert(b@.skip(i as int).drop_first() =~= b@.skip(i as int + 1));
        }
        i = i + 1;
    }
    proof {
        let sa = a@.skip(i as int);
        let sb = b@.skip(i as int);
        if i < x@.len() && i < y@.len() {
            assert(sa[0] == a@[i as int]);
            assert(sb[0] == b@[i as int]);
            assert(sa.len() > 0 && sb.len() > 0);

        }
        if i == x@.len() {
            assert(sa.len() == 0);
        } else if i == y@.len() {
            assert(sb.len() == 0);
            assert(sa.len() > 0);
        }
    }
    if i == x.len() {
        true
    } else if i == y.len() {
        false
    } else {
        x[i] < y[i]
    }
}

/// Insert `e` after every entry whose value is not greater.
pub open spec fn insert_sorted(s: Seq<EntryView>, e: EntryView) -> Seq<EntryView>
    decreases s.len(),
{
    if s.len() == 0 {
        seq![e]
    } else if key_le(s.last().0, e.0) {
        s.push(e)
    } else {
        insert_sorted(s.drop_last(), e).push(s.last())
    }
}

/// The stable sort of entries by value: entries with equal values keep their order.
pub open spec fn stable_sort(s: Seq<EntryView>) -> Seq<EntryView>
    decreases s.len(),
{
    if s.len() == 0 {
        s
    } else {
        insert_sorted(stable_sort(s.drop_last()), s.last())
    }
}

/// Whether the entries are sorted by value.
pub open spec fn is_sorted(s: Seq<EntryView>) -> bool {
    forall|i: int, j: int| 0 <= i < j < s.len() ==> key_le(#[trigger] s[i].0, #[trigger] s[j].0)
}

proof fn lemma_insert_at(s: Seq<EntryView>, e: EntryView, i: int)
    requires
        0 <= i <= s.len(),
        forall|j: int| i <= j < s.len() ==> !key_le(#[trigger] s[j].0, e.0),
        i == 0 || key_le(s[i - 1].0, e.0),
    ensures
        insert_sorted(s, e) == s.insert(i, e),
    decreases s.len() - i,
{
    if s.len() == 0 {
        assert(s.insert(i, e) =~= seq![e]);
    } else if i == s.len() {
        assert(s.insert(i, e) =~= s.push(e));
    } else {
        assert(!key_le(s.last().0, e.0));
        lemma_insert_at(s.drop_last(), e, i);
        assert(s.drop_last().insert(i, e).push(s.last()) =~= s.insert(i, e));
    }
}

proof fn lemma_insert_sorted_keeps(s: Seq<EntryView>, e: EntryView)
    requires
        is_sorted(s),
    ensures
        is_sorted(insert_sorted(s, e)),
        insert_sorted(s, e).len() == s.len() + 1,
    decreases s.len(),
{
    if s.len() == 0 {
    } else if key_le(s.last().0, e.0) {
        let r = s.push(e);
        assert forall|i: int, j: int| 0 <= i < j < r.len() implies key_le(#[trigger] r[i].0, #[trigger] r[j].0) by {
            if j == s.len() {
                if i < s.len() - 1 {
                    lemma_key_trans(s[i].0, s.last().0, e.0);
                }
            }
        }
    } else {
        let t = s.drop_last();
        lemma_insert_sorted_keeps(t, e);
        let u = insert_sorted(t, e);
        let r = u.push(s.last());
        lemma_key_total(s.last().0, e.0);
        assert forall|i: int, j: int| 0 <= i < j < r.len() implies key_le(#[trigger] r[i].0, #[trigger] r[j].0) by {
            if j == u.len() {
                // every element of u is an element of t or e, all at most s.last()
                lemma_insert_elems(t, e, i);
                if u[i] == e {
                } else {
                    let k = choose|k: int| 0 <= k < t.len() && t[k] == u[i];
                    assert(s[k] == t[k]);
                }
            }
        }
    }
}

proof fn lemma_insert_elems(s: Seq<EntryView>, e: EntryView, i: int)
    requires
        0 <= i < insert_sorted(s, e).len(),
        insert_sorted(s, e).len() == s.len() + 1,
    ensures
        insert_sorted(s, e)[i] == e || exists|k: int| 0 <= k < s.len() && s[k] == insert_sorted(s, e)[i],
    decreases s.len(),
{
    if s.len() == 0 {
    } else if key_le(s.last().0, e.0) {
        if i < s.len() {
            assert(s[i] == insert_sorted(s, e)[i]);
        }
    } else {
        let t = s.drop_last();
        lemma_insert_len(t, e);
        if i < s.len() {
            lemma_insert_elems(t, e, i);
            if insert_sorted(t, e)[i] != e {
                let k = choose|k: int| 0 <= k < t.len() && t[k] == insert_sorted(t, e)[i];
                assert(s[k] == t[k]);
            }
        } else {
            assert(s[s.len() - 1] == insert_sorted(s, e)[i]);
        }
    }
}

proof fn lemma_insert_len(s: Seq<EntryView>, e: EntryView)
    ensures
        insert_sorted(s, e).len() == s.len() + 1,
    decreases s.len(),
{
    if s.len() > 0 && !key_le(s.last().0, e.0) {
        lemma_insert_len(s.drop_last(), e);
    }
}

proof fn lemma_sort_sorted(s: Seq<EntryView>)
    ensures
        is_sorted(stable_sort(s)),
        stable_sort(s).len() == s.len(),
    decreases s.len(),
{
    if s.len() > 0 {
        lemma_sort_sorted(s.drop_last());
        lemma_insert_sorted_keeps(stable_sort(s.drop_last()), s.last());
    }
}

proof fn lemma_sort_of_sorted(s: Seq<EntryView>)
    requires
        is_sorted(s),
    ensures
        stable_sort(s) == s,
    decreases s.len(),
{
    if s.len() > 0 {
        let t = s.drop_last();
        assert(is_sorted(t));
        lemma_sort_of_sorted(t);
        if s.len() > 1 {
            assert(key_le(s[s.len() - 2].0, s.last().0));
        }
        assert(t.push(s.last()) =~= s);
    }
}

/// Sorting a sorted feature again changes nothing.
pub proof fn lemma_sort_idempotent(s: Seq<EntryView>)
    ensures
        stable_sort(stable_sort(s)) == stable_sort(s),
{
    lemma_sort_sorted(s);
    lemma_sort_of_sorted(stable_sort(s));
}

impl FeatureEntry {
    /// A copy of the entry.
    pub fn clone_entry(&self) -> (r: Self)
        ensures
            r@ == self@,
    {
        FeatureEntry { value: self.value.clone(), prefix: self.prefix.clone(), suffix: self.suffix.clone() }
    }
}

impl FeatureArray {
    /// The view of the entries.
    pub open spec fn items(&self) -> Seq<EntryView> {
        entry_views(self.entries@)
    }

    /// Whether only the entries differ between `self` and `other`.
    pub open spec fn same_frame(&self, other: &FeatureArray) -> bool {
        &&& self.trailing@ == other.trailing@
        &&& self.trailing_comma == other.trailing_comma
        &&& opt_view(self.decor_prefix) == opt_view(other.decor_prefix)
        &&& opt_view(self.decor_suffix) == opt_view(other.decor_suffix)
    }
}

/// Stably sort the entries by value; the text around each entry travels with it.
pub fn sort_feature(feature: &mut FeatureArray)
    ensures
        final(feature).items() == stable_sort(old(feature).items()),
        final(feature).same_frame(&*old(feature)),
{
    let mut src: Vec<FeatureEntry> = Vec::new();
    std::mem::swap(&mut src, &mut feature.entries);
    let ghost input = entry_views(src@);
    let mut out: Vec<FeatureEntry> = Vec::new();
    let mut k: usize = 0;
    while k < src.len()
        invariant
            k <= src@.len(),
            input == entry_views(src@),
            entry_views(out@) == stable_sort(input.take(k as int)),
        decreases src@.len() - k,
    {
        let e = src[k].clone_entry();
        let mut i: usize = out.len();
        while i > 0 && !value_le(&out[i - 1].value, &e.value)
            invariant
                i <= out@.len(),
                forall|j: int| i <= j < out@.len() ==> !key_le(#[trigger] out@[j].value@, e.value@),
            decreases i,
        {
            i = i - 1;
        }
        let ghost before = out@;
        let ghost ev = e@;
        proof {
            let s = entry_views(out@);
            assert(input.take(k as int + 1).drop_last() =~= input.take(k as int));
            assert(input.take(k as int + 1).last() == ev);
            if i > 0 {
                lemma_key_total(out@[i - 1].value@, e.value@);
            }
            lemma_insert_at(s, ev, i as int);
        }
        out.insert(i, e);
        proof {
            assert(entry_views(out@) =~= entry_views(before).insert(i as int, ev));
        }
        k = k + 1;
    }
    assert(input.take(src@.len() as int) =~= input);
    feature.entries = out;
}


/// Why a feature array could not be de-duplicated or edited.
#[derive(Debug, Clone, PartialEq, Eq)]
pub enum EditError {
    /// The entries are not sorted: `current` follows the greater `previous`.
    NotSorted { current: String, previous: String },
    /// Two neighbours differ only by the `?` marker.
    ConflictingOptional { feature: String, value: String },
    /// One of two duplicates carries a comment.
    CommentWouldBeLost { feature: String, value: String },
    /// The array holds comments or trailing text that one line cannot keep.
    HasComments,
    /// An entry, existing or new, is empty.
    EmptyEntry,
}

/// The kind of an edit error, without its text.
#[derive(Debug, Clone, Copy, PartialEq, Eq, Structural)]
pub enum EditErrorKind {
    NotSorted,
    ConflictingOptional,
    CommentWouldBeLost,
    HasComments,
    EmptyEntry,
}

impl EditError {
    pub open spec fn kind(&self) -> EditErrorKind {
        match self {
            EditError::NotSorted { .. } => EditErrorKind::NotSorted,
            EditError::ConflictingOptional { .. } => EditErrorKind::ConflictingOptional,
            EditError::CommentWouldBeLost { .. } => EditErrorKind::CommentWouldBeLost,
            EditError::HasComments => EditErrorKind::HasComments,
            EditError::EmptyEntry => EditErrorKind::EmptyEntry,
        }
    }
}

/// Whether text holds nothing but whitespace.
pub open spec fn blank(s: Seq<char>) -> bool {
    trim(s).len() == 0
}

/// What the pair of neighbours `s[i-1]`, `s[i]` stands in the way of
/// de-duplication, if anything.
pub open spec fn pair_error(s: Seq<EntryView>, i: int) -> Option<EditErrorKind> {
    let cur = s[i];
    let last = s[i - 1];
    if !key_le(last.0, cur.0) {
        Some(EditErrorKind::NotSorted)
    } else if cur.0 != last.0 {
        if without_char(cur.0, '?') == without_char(last.0, '?') {
            Some(EditErrorKind::ConflictingOptional)
        } else {
            None
        }
    } else if !blank(cur.1) || !blank(cur.2) || !blank(last.1) || !blank(last.2) {
        Some(EditErrorKind::CommentWouldBeLost)
    } else {
        None
    }
}

/// The first error met when the pairs are scanned from position `i` down.
pub open spec fn first_error_from(s: Seq<EntryView>, i: int) -> Option<EditErrorKind>
    decreases i,
{
    if i < 1 {
        None
    } else {
        match pair_error(s, i) {
            Some(e) => Some(e),
            None => first_error_from(s, i - 1),
        }
    }
}

/// The entries without every entry equal in value to its predecessor.
pub open spec fn dedup_keep(s: Seq<EntryView>) -> Seq<EntryView>
    decreases s.len(),
{
    if s.len() <= 1 {
        s
    } else {
        let r = dedup_keep(s.drop_last());
        if s.last().0 == s[s.len() - 2].0 {
            r
        } else {
            r.push(s.last())
        }
    }
}

/// Remove the later one of two neighbours with equal values. The feature must be
/// sorted; two values that differ only by `?`, or a duplicate that carries a
/// comment, are refused. On error nothing changes.
pub fn dedub_feature(cname: &str, fname: &str, feature: &mut FeatureArray) -> (r: Result<(), EditError>)
    ensures
        match r {
            Ok(()) => first_error_from(old(feature).items(), old(feature).items().len() - 1) is None
                && final(feature).items() == dedup_keep(old(feature).items()),
            Err(e) => first_error_from(old(feature).items(), old(feature).items().len() - 1) == Some(e.kind())
                && final(feature).items() == old(feature).items(),
        },
        final(feature).same_frame(&*old(feature)),
{
    let n = feature.entries.len();
    let ghost s = feature.items();
    let mut i: usize = n;
    while i > 1
        invariant
            n == s.len(),
            s == feature.items(),
            1 <= i <= n || (i == n && n <= 1),
            first_error_from(s, n - 1) == first_error_from(s, i - 1),
        decreases i,
    {
        let cur = &feature.entries[i - 1];
        let last = &feature.entries[i - 2];
        proof {
            assert(s[i - 1] == cur@);
            assert(s[i - 2] == last@);
        }
        if !value_le(&last.value, &cur.value) {
            return Err(EditError::NotSorted { current: cur.value.clone(), previous: last.value.clone() });
        }
        if cur.value != last.value {
            let a = remove_char(cur.value.as_str(), '?');
            let b = remove_char(last.value.as_str(), '?');
            if a == b {
                return Err(EditError::ConflictingOptional { feature: fname.to_owned(), value: cur.value.clone() });
            }
        } else {
            let p = trim_str(cur.prefix.as_str());
            let q = trim_str(cur.suffix.as_str());
            let p2 = trim_str(last.prefix.as_str());
            let q2 = trim_str(last.suffix.as_str());
            if !p.as_str().is_empty() || !q.as_str().is_empty() || !p2.as_str().is_empty() || !q2.as_str().is_empty() {
                return Err(EditError::CommentWouldBeLost { feature: fname.to_owned(), value: cur.value.clone() });
            }
        }
        i = i - 1;
    }
    let mut out: Vec<FeatureEntry> = Vec::new();
    let mut k: usize = 0;
    while k < n
        invariant
            n == s.len(),
            s == feature.items(),
            k <= n,
            entry_views(out@) == dedup_keep(s.take(k as int)),
        decreases n - k,
    {
        let ghost o = out@;
        proof {
            assert(s.take(k as int + 1).drop_last() =~= s.take(k as int));
        }
        if k == 0 || feature.entries[k].value != feature.entries[k - 1].value {
            out.push(feature.entries[k].clone_entry());
            assert(entry_views(out@) =~= entry_views(o).push(s[k as int]));
        }
        k = k + 1;
    }
    assert(s.take(n as int) =~= s);
    feature.entries = out;
    Ok(())
}


/// Whether one line can hold the array: no text but whitespace around any entry
/// or after the last one.
pub open spec fn oneline_ok(a: FeatureArray) -> bool {
    &&& blank(a.trailing@)
    &&& forall|i: int| 0 <= i < a.entries@.len() ==> #[trigger] blank_entry(a.entries@[i])
}

/// Whether the text around an entry is only whitespace.
pub open spec fn blank_entry(e: FeatureEntry) -> bool {
    blank(e.prefix@) && blank(e.suffix@)
}

/// The entries laid out on one line: one space before each value and one after
/// the last.
pub open spec fn oneline_items(s: Seq<EntryView>) -> Seq<EntryView> {
    Seq::new(s.len(), |i: int| (s[i].0, " "@, if i == s.len() - 1 { " "@ } else { Seq::<char>::empty() }))
}

/// Lay the array out on one line, `[ "a", "b" ]`. Refused when a comment or
/// other text than whitespace would be lost; then nothing changes.
pub fn format_feature_oneline(feature: &mut FeatureArray) -> (r: Result<(), EditError>)
    ensures
        r is Ok == oneline_ok(*old(feature)),
        r matches Err(e) ==> e.kind() == EditErrorKind::HasComments && *final(feature) == *old(feature),
        r is Ok ==> final(feature).items() == oneline_items(old(feature).items()) && !final(feature).trailing_comma
            && final(feature).trailing@ == Seq::<char>::empty() && opt_view(final(feature).decor_prefix) == opt_view(
            old(feature).decor_prefix,
        ) && opt_view(final(feature).decor_suffix) == opt_view(old(feature).decor_suffix),
{
    let t = trim_str(feature.trailing.as_str());
    if !t.as_str().is_empty() {
        return Err(EditError::HasComments);
    }
    let n = feature.entries.len();
    let mut i: usize = 0;
    while i < n
        invariant
            *feature == *old(feature),
            n == feature.entries@.len(),
            i <= n,
            forall|j: int| 0 <= j < i ==> #[trigger] blank_entry(feature.entries@[j]),
        decreases n - i,
    {
        let p = trim_str(feature.entries[i].prefix.as_str());
        let q = trim_str(feature.entries[i].suffix.as_str());
        assert(feature.items()[i as int] == feature.entries@[i as int]@);
        if !p.as_str().is_empty() || !q.as_str().is_empty() {
            assert(!blank_entry(feature.entries@[i as int]));
            return Err(EditError::HasComments);
        }
        assert(blank_entry(feature.entries@[i as int]));
        i = i + 1;
    }
    let ghost s = feature.items();
    let mut out: Vec<FeatureEntry> = Vec::new();
    let mut k: usize = 0;
    while k < n
        invariant
            n == s.len(),
            s == feature.items(),
            k <= n,
            entry_views(out@) =~= oneline_items(s).take(k as int),
        decreases n - k,
    {
        let suffix = if k + 1 == n {
            " ".to_owned()
        } else {
            String::new()
        };
        let ghost o = out@;
        let e = FeatureEntry { value: feature.entries[k].value.clone(), prefix: " ".to_owned(), suffix };
        assert(e@ == oneline_items(s)[k as int]);
        out.push(e);
        assert(entry_views(out@) =~= entry_views(o).push(e@));
        assert(oneline_items(s).take(k as int + 1) =~= oneline_items(s).take(k as int).push(oneline_items(s)[k as int]));
        k = k + 1;
    }
    feature.entries = out;
    feature.trailing_comma = false;
    feature.trailing = String::new();
    Ok(())
}

/// An existing entry made ready for appending: its prefix ends in a newline and a
/// tab without spaces before it, its suffix loses trailing newlines.
pub open spec fn appended_prefix(p: Seq<char>) -> Seq<char> {
    trim_start_char(if ends_with(p, "\n\t"@) { p } else { trim_end(p) + "\n\t"@ }, ' ')
}

pub open spec fn appended_suffix(s: Seq<char>) -> Seq<char> {
    trim_end_char(s, '\n')
}

/// The entries after appending `v`: every entry on its own line, the suffix of
/// each entry but the last moved to the front of the next one.
pub open spec fn appended_items(s: Seq<EntryView>, v: Seq<char>) -> Seq<EntryView> {
    let norm = Seq::new(s.len(), |i: int| (s[i].0, appended_prefix(s[i].1), appended_suffix(s[i].2))).push(
        (v, "\n\t"@, "\n"@),
    );
    Seq::new(
        norm.len(),
        |i: int|
            (
                norm[i].0,
                if i == 0 {
                    norm[i].1
                } else {
                    norm[i - 1].2 + norm[i].1
                },
                if i == norm.len() - 1 {
                    norm[i].2
                } else {
                    Seq::<char>::empty()
                },
            ),
    )
}

/// Append entry `v` to the feature, keeping the comments and line breaks of the
/// existing entries. Refused, with nothing changed, when `v` or an existing entry
/// is empty.
pub fn append_to_feature(feature: &mut FeatureArray, v: &str) -> (r: Result<(), EditError>)
    ensures
        r is Ok == (v@.len() > 0 && forall|i: int| 0 <= i < old(feature).items().len() ==> (#[trigger] old(feature).items()[i]).0.len() > 0),
        r matches Err(e) ==> e.kind() == EditErrorKind::EmptyEntry && *final(feature) == *old(feature),
        r is Ok ==> final(feature).items() == appended_items(old(feature).items(), v@) && !final(feature).trailing_comma
            && final(feature).trailing@ == trim_start_char(old(feature).trailing@, '\n') && opt_view(final(feature).decor_prefix)
            == opt_view(old(feature).decor_prefix) && opt_view(final(feature).decor_suffix) == opt_view(old(feature).decor_suffix),
{
    if v.is_empty() {
        return Err(EditError::EmptyEntry);
    }
    let n = feature.entries.len();
    let mut i: usize = 0;
    while i < n
        invariant
            n == feature.entries@.len(),
            i <= n,
            forall|j: int| 0 <= j < i ==> (#[trigger] feature.items()[j]).0.len() > 0,
        decreases n - i,
    {
        assert(feature.items()[i as int] == feature.entries@[i as int]@);
        if feature.entries[i].value.as_str().is_empty() {
            return Err(EditError::EmptyEntry);
        }
        i = i + 1;
    }
    let ghost s = feature.items();
    let ghost norm = Seq::new(s.len(), |i: int| (s[i].0, appended_prefix(s[i].1), appended_suffix(s[i].2))).push(
        (v@, "\n\t"@, "\n"@),
    );
    let mut vals: Vec<FeatureEntry> = Vec::new();
    let mut k: usize = 0;
    while k < n
        invariant
            n == s.len(),
            s == feature.items(),
            norm == Seq::new(s.len(), |i: int| (s[i].0, appended_prefix(s[i].1), appended_suffix(s[i].2))).push(
                (v@, "\n\t"@, "\n"@),
            ),
            k <= n,
            entry_views(vals@) =~= norm.take(k as int),
        decreases n - k,
    {
        let e = &feature.entries[k];
        let pre = if ends_with_str(e.prefix.as_str(), "\n\t") {
            e.prefix.clone()
        } else {
            let t = trim_end_str(e.prefix.as_str());
            join2(t.as_str(), "\n\t")
        };
        let pre = trim_start_matches(pre.as_str(), ' ');
        let suf = trim_end_matches(e.suffix.as_str(), '\n');
        let ghost o = vals@;
        let ne = FeatureEntry { value: e.value.clone(), prefix: pre, suffix: suf };
        assert(s[k as int] == e@);
        assert(ne@ == norm[k as int]);
        vals.push(ne);
        assert(entry_views(vals@) =~= entry_views(o).push(ne@));
        assert(norm.take(k as int + 1) =~= norm.take(k as int).push(norm[k as int]));
        k = k + 1;
    }
    let ghost o = vals@;
    let last = FeatureEntry { value: v.to_owned(), prefix: "\n\t".to_owned(), suffix: "\n".to_owned() };
    vals.push(last);
    assert(entry_views(vals@) =~= entry_views(o).push(last@));
    assert(norm.take(n as int) =~= norm.drop_last());
    assert(entry_views(vals@) =~= norm);
    let m = vals.len();
    let mut out: Vec<FeatureEntry> = Vec::new();
    let mut j: usize = 0;
    while j < m
        invariant
            m == norm.len(),
            norm == Seq::new(s.len(), |i: int| (s[i].0, appended_prefix(s[i].1), appended_suffix(s[i].2))).push(
                (v@, "\n\t"@, "\n"@),
            ),
            appended_items(s, v@).len() == m,
            entry_views(vals@) == norm,
            j <= m,
            entry_views(out@) =~= appended_items(s, v@).take(j as int),
        decreases m - j,
    {
        let pre = if j == 0 {
            vals[j].prefix.clone()
        } else {
            join2(vals[j - 1].suffix.as_str(), vals[j].prefix.as_str())
        };
        let suf = if j + 1 == m {
            vals[j].suffix.clone()
        } else {
            String::new()
        };
        let ghost o = out@;
        let ne = FeatureEntry { value: vals[j].value.clone(), prefix: pre, suffix: suf };
        assert(vals@[j as int]@ == norm[j as int]);
        if j > 0 {
            assert(vals@[j - 1]@ == norm[j - 1]);
        }
        assert(ne@ == appended_items(s, v@)[j as int]);
        out.push(ne);
        assert(entry_views(out@) =~= entry_views(o).push(ne@));
        assert(appended_items(s, v@).take(j as int + 1) =~= appended_items(s, v@).take(j as int).push(appended_items(s, v@)[j as int]));
        j = j + 1;
    }
    let tr = trim_start_matches(feature.trailing.as_str(), '\n');
    feature.entries = out;
    feature.trailing = tr;
    feature.trailing_comma = false;
    Ok(())
}


/// The text around an entry with its lines normalised: the first line loses
/// trailing whitespace, the last one leading whitespace, every line between is
/// trimmed and indented by one tab.
pub open spec fn fix_lines(s: Seq<char>) -> Seq<char> {
    let l = lines_of(s);
    join_lines(
        Seq::new(
            l.len(),
            |i: int|
                if i == 0 {
                    trim_end(l[i])
                } else if i == l.len() - 1 {
                    trim_start(l[i])
                } else {
                    "\t"@ + trim(l[i])
                },
        ),
    )
}

/// Normalise the lines of the text around an entry.
pub fn format_pre_and_suffix(fix: &str) -> (r: String)
    ensures
        r@ == fix_lines(fix@),
{
    let ls = lines(fix);
    let ghost l = lines_of(fix@);
    let n = ls.len();
    let ghost want = Seq::new(
        l.len(),
        |i: int|
            if i == 0 {
                trim_end(l[i])
            } else if i == l.len() - 1 {
                trim_start(l[i])
            } else {
                "\t"@ + trim(l[i])
            },
    );
    let mut parts: Vec<String> = Vec::new();
    let mut i: usize = 0;
    while i < n
        invariant
            n == ls@.len(),
            ls@.map_values(|x: String| x@) == l,
            want == Seq::new(
                l.len(),
                |i: int|
                    if i == 0 {
                        trim_end(l[i])
                    } else if i == l.len() - 1 {
                        trim_start(l[i])
                    } else {
                        "\t"@ + trim(l[i])
                    },
            ),
            i <= n,
            parts@.map_values(|x: String| x@) =~= want.take(i as int),
        decreases n - i,
    {
        assert(ls@[i as int]@ == l[i as int]);
        let piece = if i == 0 {
            trim_end_str(ls[i].as_str())
        } else if i == n - 1 {
            trim_start_str(ls[i].as_str())
        } else {
            let t = trim_str(ls[i].as_str());
            join2("\t", t.as_str())
        };
        let ghost o = parts@;
        parts.push(piece);
        proof {
            assert(parts@.map_values(|x: String| x@) =~= o.map_values(|x: String| x@).push(piece@));
            assert(want.take(i as int + 1) =~= want.take(i as int).push(want[i as int]));
        }
        i = i + 1;
    }
    assert(want.take(n as int) =~= want);
    join_with_newlines(&parts)
}

/// An entry laid out on its own line, comments kept on lines of their own.
pub open spec fn multiline_entry(e: EntryView) -> EntryView {
    let suffix = fix_lines(e.2);
    let prefix = trim(fix_lines(e.1));
    (
        e.0,
        if prefix.len() == 0 {
            "\n\t"@
        } else {
            "\n\t"@ + prefix + "\n\t"@
        },
        if trim(suffix).len() == 0 {
            Seq::<char>::empty()
        } else {
            "\n\t"@ + trim(suffix) + "\n\t"@
        },
    )
}

/// The suffix of the last entry: a comma and a line break, with its comment.
pub open spec fn multiline_last_suffix(s: Seq<char>) -> Seq<char> {
    let t = trim(fix_lines(s));
    if t.len() == 0 {
        ",\n"@
    } else {
        ",\n\t"@ + t + "\n"@
    }
}

/// The entries laid out one per line.
pub open spec fn multiline_items(s: Seq<EntryView>) -> Seq<EntryView> {
    Seq::new(
        s.len(),
        |i: int|
            if i == s.len() - 1 {
                (multiline_entry(s[i]).0, multiline_entry(s[i]).1, multiline_last_suffix(multiline_entry(s[i]).2))
            } else {
                multiline_entry(s[i])
            },
    )
}

fn multiline_one(e: &FeatureEntry) -> (r: FeatureEntry)
    ensures
        r@ == multiline_entry(e@),
{
    let suffix = format_pre_and_suffix(e.suffix.as_str());
    let st = trim_str(suffix.as_str());
    let suffix = if st.as_str().is_empty() {
        String::new()
    } else {
        let a = join2("\n\t", st.as_str());
        join2(a.as_str(), "\n\t")
    };
    let prefix = format_pre_and_suffix(e.prefix.as_str());
    let prefix = trim_str(prefix.as_str());
    let prefix = if prefix.as_str().is_empty() {
        "\n\t".to_owned()
    } else {
        let a = join2("\n\t", prefix.as_str());
        join2(a.as_str(), "\n\t")
    };
    FeatureEntry { value: e.value.clone(), prefix, suffix }
}

/// Lay the array out with one entry per line, each indented by a tab; comments
/// stay with their entries, on lines of their own.
pub fn format_feature_multiline(feature: &mut FeatureArray)
    ensures
        final(feature).items() == multiline_items(old(feature).items()),
        !final(feature).trailing_comma,
        final(feature).trailing@ == trim(old(feature).trailing@),
        final(feature).decor_prefix is None,
        final(feature).decor_suffix is None,
{
    let ghost s = feature.items();
    let n = feature.entries.len();
    let mut out: Vec<FeatureEntry> = Vec::new();
    let mut k: usize = 0;
    while k < n
        invariant
            n == s.len(),
            s == feature.items(),
            k <= n,
            entry_views(out@) =~= multiline_items(s).take(k as int),
        decreases n - k,
    {
        let e = multiline_one(&feature.entries[k]);
        let e = if k + 1 == n {
            let suffix = format_pre_and_suffix(e.suffix.as_str());
            let t = trim_str(suffix.as_str());
            let last = if t.as_str().is_empty() {
                ",\n".to_owned()
            } else {
                let a = join2(",\n\t", t.as_str());
                join2(a.as_str(), "\n")
            };
            FeatureEntry { value: e.value, prefix: e.prefix, suffix: last }
        } else {
            e
        };
        let ghost o = out@;
        assert(feature.entries@[k as int]@ == s[k as int]);
        assert(e@ == multiline_items(s)[k as int]);
        out.push(e);
        proof {
            assert(entry_views(out@) =~= entry_views(o).push(e@));
            assert(multiline_items(s).take(k as int + 1) =~= multiline_items(s).take(k as int).push(multiline_items(s)[k as int]));
        }
        k = k + 1;
    }
    let t = trim_str(feature.trailing.as_str());
    feature.entries = out;
    feature.trailing_comma = false;
    feature.trailing = t;
    feature.decor_prefix = None;
    feature.decor_suffix = None;
}


/// How toml_edit writes a string value that carries no representation of its own.
pub uninterp spec fn toml_string_repr(s: Seq<char>) -> Seq<char>;

/// Relies on toml_edit's `Display` of `Value::from(&str)`: the default
/// representation of a string value, which depends on the string alone.
#[verifier::external_body]
fn string_repr(s: &str) -> (r: String)
    ensures
        r@ == toml_string_repr(s@),
{
    toml_edit::Value::from(s).to_string()
}

/// The text of the entries, separated by commas.
pub open spec fn render_entries(s: Seq<EntryView>) -> Seq<char>
    decreases s.len(),
{
    if s.len() == 0 {
        Seq::empty()
    } else {
        render_entries(s.drop_last()) + (if s.len() > 1 {
            ","@
        } else {
            Seq::<char>::empty()
        }) + s.last().1 + toml_string_repr(s.last().0) + s.last().2
    }
}

pub open spec fn or_empty(o: Option<Seq<char>>) -> Seq<char> {
    match o {
        Some(s) => s,
        None => Seq::empty(),
    }
}

/// The text of a feature array on its own, as toml_edit writes an array value.
pub open spec fn render_array(a: FeatureArray) -> Seq<char> {
    or_empty(opt_view(a.decor_prefix)) + "["@ + render_entries(a.items()) + (if a.trailing_comma && a.items().len() > 0 {
        ","@
    } else {
        Seq::<char>::empty()
    }) + a.trailing@ + "]"@ + or_empty(opt_view(a.decor_suffix))
}

/// The text of a feature array.
pub fn render(a: &FeatureArray) -> (r: String)
    ensures
        r@ == render_array(*a),
{
    let mut body = String::new();
    let mut k: usize = 0;
    while k < a.entries.len()
        invariant
            k <= a.entries@.len(),
            body@ == render_entries(a.items().take(k as int)),
        decreases a.entries@.len() - k,
    {
        let e = &a.entries[k];
        let sep = if k > 0 {
            ","
        } else {
            ""
        };
        proof {
            reveal_strlit(",");
            reveal_strlit("");
        }
        let repr = string_repr(e.value.as_str());
        let t = join2(body.as_str(), sep);
        let t = join2(t.as_str(), e.prefix.as_str());
        let t = join2(t.as_str(), repr.as_str());
        body = join2(t.as_str(), e.suffix.as_str());
        proof {
            let s = a.items().take(k as int + 1);
            assert(s.drop_last() =~= a.items().take(k as int));
            assert(s.last() == e@);
        }
        k = k + 1;
    }
    assert(a.items().take(a.entries@.len() as int) =~= a.items());
    let pre = match &a.decor_prefix {
        Some(p) => p.clone(),
        None => String::new(),
    };
    let post = match &a.decor_suffix {
        Some(p) => p.clone(),
        None => String::new(),
    };
    let comma = if a.trailing_comma && a.entries.len() > 0 {
        ","
    } else {
        ""
    };
    proof {
        reveal_strlit(",");
        reveal_strlit("");
    }
    let t = join2(pre.as_str(), "[");
    let t = join2(t.as_str(), body.as_str());
    let t = join2(t.as_str(), comma);
    let t = join2(t.as_str(), a.trailing.as_str());
    let t = join2(t.as_str(), "]");
    join2(t.as_str(), post.as_str())
}

/// The room for the array on a line of `width` after the name and one space.
pub open spec fn width_budget(width: u32, name_len: nat) -> int {
    if width > name_len {
        width - name_len - 1
    } else {
        0
    }
}


proof fn lemma_oneline_ok_views(a: FeatureArray, b: FeatureArray)
    requires
        a.items() == b.items(),
        a.trailing@ == b.trailing@,
    ensures
        oneline_ok(a) == oneline_ok(b),
{
    assert(a.items().len() == a.entries@.len());
    assert(b.items().len() == b.entries@.len());
    assert forall|i: int| 0 <= i < a.entries@.len() implies blank_entry(a.entries@[i]) == blank_entry(b.entries@[i]) by {
        assert(a.items()[i] == a.entries@[i]@);
        assert(b.items()[i] == b.entries@[i]@);
    }
    if oneline_ok(a) {
        assert forall|i: int| 0 <= i < b.entries@.len() implies #[trigger] blank_entry(b.entries@[i]) by {
            assert(blank_entry(a.entries@[i]));
        }
    }
    if oneline_ok(b) {
        assert forall|i: int| 0 <= i < a.entries@.len() implies #[trigger] blank_entry(a.entries@[i]) by {
            assert(blank_entry(b.entries@[i]));
        }
    }
}

/// The one-line layout of `a`.
pub open spec fn oneline_array(a: FeatureArray, b: FeatureArray) -> bool {
    &&& b.items() == oneline_items(a.items())
    &&& !b.trailing_comma
    &&& b.trailing@ == Seq::<char>::empty()
    &&& opt_view(b.decor_prefix) == opt_view(a.decor_prefix)
    &&& opt_view(b.decor_suffix) == opt_view(a.decor_suffix)
}

/// The multi-line layout of `a`.
pub open spec fn multiline_array(a: FeatureArray, b: FeatureArray) -> bool {
    &&& b.items() == multiline_items(a.items())
    &&& !b.trailing_comma
    &&& b.trailing@ == trim(a.trailing@)
    &&& b.decor_prefix is None
    &&& b.decor_suffix is None
}

/// The number of characters of the one-line layout of `a`.
pub open spec fn oneline_len(a: FeatureArray) -> nat {
    (or_empty(opt_view(a.decor_prefix)) + "["@ + render_entries(oneline_items(a.items())) + "]"@ + or_empty(
        opt_view(a.decor_suffix),
    )).len()
}

/// Lay feature `fname` out on one line when that is possible and the line,
/// after the name and a space, stays shorter than `line_width` characters; else
/// one entry per line.
pub fn format_feature(fname: &str, feature: &mut FeatureArray, line_width: u32) -> (r: Result<(), EditError>)
    ensures
        r is Ok,
        (oneline_ok(*old(feature)) && oneline_len(*old(feature)) < width_budget(line_width, fname@.len()))
            ==> oneline_array(*old(feature), *final(feature)),
        !(oneline_ok(*old(feature)) && oneline_len(*old(feature)) < width_budget(line_width, fname@.len()))
            ==> multiline_array(*old(feature), *final(feature)),
{
    let mut one = FeatureArray {
        entries: copy_entries(&feature.entries),
        trailing: feature.trailing.clone(),
        trailing_comma: feature.trailing_comma,
        decor_prefix: copy_opt(&feature.decor_prefix),
        decor_suffix: copy_opt(&feature.decor_suffix),
    };
    assert(one.items() == feature.items());
    let ghost one0 = one;
    proof {
        lemma_oneline_ok_views(one, *feature);
    }
    if format_feature_oneline(&mut one).is_ok() {
        let n = crate::text::chars_of(fname).len();
        let w = line_width as usize;
        let budget: usize = if w > n {
            w - n - 1
        } else {
            0
        };
        let text = render(&one);
        proof {
            assert(one.items() == oneline_items(feature.items()));
            assert(render_array(one) == or_empty(opt_view(feature.decor_prefix)) + "["@ + render_entries(oneline_items(feature.items())) + "]"@ + or_empty(opt_view(feature.decor_suffix))) by {
                assert(or_empty(opt_view(one.decor_prefix)) + "["@ + render_entries(one.items()) + Seq::<char>::empty() + Seq::<char>::empty() + "]"@ + or_empty(opt_view(one.decor_suffix)) =~= or_empty(opt_view(feature.decor_prefix)) + "["@ + render_entries(oneline_items(feature.items())) + "]"@ + or_empty(opt_view(feature.decor_suffix)));
            }
        }
        let tlen = crate::text::chars_of(text.as_str()).len();
        if tlen < budget {
            proof {
                assert(oneline_ok(one0));
                assert(oneline_ok(*old(feature)));
                assert(oneline_len(*old(feature)) == tlen);
                assert(budget == width_budget(line_width, fname@.len()));
            }
            *feature = one;
            return Ok(());
        }
    }
    format_feature_multiline(feature);
    Ok(())
}

fn copy_entries(v: &Vec<FeatureEntry>) -> (r: Vec<FeatureEntry>)
    ensures
        entry_views(r@) == entry_views(v@),
{
    let mut out: Vec<FeatureEntry> = Vec::new();
    let mut k: usize = 0;
    while k < v.len()
        invariant
            k <= v@.len(),
            entry_views(out@) =~= entry_views(v@).take(k as int),
        decreases v@.len() - k,
    {
        let ghost o = out@;
        let e = v[k].clone_entry();
        out.push(e);
        proof {
            assert(entry_views(out@) =~= entry_views(o).push(e@));
            assert(entry_views(v@).take(k as int + 1) =~= entry_views(v@).take(k as int).push(v@[k as int]@));
        }
        k = k + 1;
    }
    assert(entry_views(v@).take(v@.len() as int) =~= entry_views(v@));
    out
}

/// A copy of an array.
pub fn copy_array(a: &FeatureArray) -> (r: FeatureArray)
    ensures
        r.items() == a.items(),
        r.same_frame(a),
{
    FeatureArray {
        entries: copy_entries(&a.entries),
        trailing: a.trailing.clone(),
        trailing_comma: a.trailing_comma,
        decor_prefix: copy_opt(&a.decor_prefix),
        decor_suffix: copy_opt(&a.decor_suffix),
    }
}

fn copy_opt(o: &Option<String>) -> (r: Option<String>)
    ensures
        opt_view(r) == opt_view(*o),
{
    match o {
        Some(s) => Some(s.clone()),
        None => None,
    }
}

/// A formatting mode of the feature arrays.
#[derive(Debug, Clone, Copy, PartialEq, Eq, Structural)]
pub enum Mode {
    /// Do nothing; this supersedes all other modes.
    Off,
    /// Sort the entries alphabetically.
    Sort,
    /// Remove duplicate entries.
    Dedub,
    /// Normalise the layout: one line if it fits, else one entry per line.
    Canonicalize,
}

/// Whether a list of modes asks for `m`: an empty list asks for all.
pub open spec fn wants(modes: Seq<Mode>, m: Mode) -> bool {
    modes.len() == 0 || modes.contains(m)
}

fn has_mode(modes: &Vec<Mode>, m: Mode) -> (r: bool)
    ensures
        r == modes@.contains(m),
{
    let mut i: usize = 0;
    while i < modes.len()
        invariant
            i <= modes@.len(),
            forall|j: int| 0 <= j < i ==> modes@[j] != m,
        decreases modes@.len() - i,
    {
        if modes[i] == m {
            return true;
        }
        i = i + 1;
    }
    false
}

/// Apply the modes to a feature array: sort, then de-duplicate, then lay out.
/// `Mode::Off` leaves the array alone; no modes means all of them.
pub fn canonicalize_feature(cname: &str, fname: &str, modes: &Vec<Mode>, line_width: u32, feature: &mut FeatureArray) -> (r: Result<(), EditError>)
    ensures
        modes@.contains(Mode::Off) ==> r is Ok && *final(feature) == *old(feature),
        !modes@.contains(Mode::Off) && !wants(modes@, Mode::Sort) && !wants(modes@, Mode::Dedub) && wants(modes@, Mode::Canonicalize)
            ==> r is Ok && laid_out(*old(feature), *final(feature), line_width, fname@.len()),
        modes@.contains(Mode::Off) || !wants(modes@, Mode::Dedub) ==> r is Ok,
        r is Ok ==> canon_items(old(feature).items(), modes@, final(feature).items()),
        !modes@.contains(Mode::Off) && wants(modes@, Mode::Sort) && wants(modes@, Mode::Dedub) && wants(modes@, Mode::Canonicalize)
            && r is Ok ==> exists|mid: FeatureArray|
            mid.items() == dedup_keep(stable_sort(old(feature).items())) && mid.same_frame(&*old(feature)) && laid_out(
                mid,
                *final(feature),
                line_width,
                fname@.len(),
            ),
        !modes@.contains(Mode::Off) && wants(modes@, Mode::Sort) && !wants(modes@, Mode::Dedub) && !wants(modes@, Mode::Canonicalize)
            ==> r is Ok && final(feature).items() == stable_sort(old(feature).items()) && final(feature).same_frame(&*old(feature)),
        !modes@.contains(Mode::Off) && wants(modes@, Mode::Dedub) ==> (r is Err <==> first_error_from(
            if wants(modes@, Mode::Sort) { stable_sort(old(feature).items()) } else { old(feature).items() },
            old(feature).items().len() - 1,
        ) is Some),
{
    if has_mode(modes, Mode::Off) {
        return Ok(());
    }
    let all = modes.len() == 0;
    if all || has_mode(modes, Mode::Sort) {
        sort_feature(feature);
        proof {
            lemma_sort_sorted(old(feature).items());
        }
    }
    let ghost sorted = *feature;
    if all || has_mode(modes, Mode::Dedub) {
        dedub_feature(cname, fname, feature)?;
        proof {
            assert(feature.items() == dedup_keep(sorted.items()));
            assert(feature.same_frame(&sorted));
        }
    }
    let ghost mid = *feature;
    if all || has_mode(modes, Mode::Canonicalize) {
        format_feature(fname, feature, line_width)?;
    }
    proof {
        if !modes@.contains(Mode::Off) && !wants(modes@, Mode::Sort) && !wants(modes@, Mode::Dedub) && wants(modes@, Mode::Canonicalize) {
            assert(mid == *old(feature));
        }
        if !modes@.contains(Mode::Off) && wants(modes@, Mode::Sort) && wants(modes@, Mode::Dedub) && wants(modes@, Mode::Canonicalize) {
            assert(mid.items() == dedup_keep(stable_sort(old(feature).items())));
            assert(mid.same_frame(&*old(feature)));
            assert(laid_out(mid, *feature, line_width, fname@.len()));
        }
    }
    Ok(())
}

/// `fin` is `mid` laid out: on one line when that is possible and fits the
/// room after the name, else one entry per line.
pub open spec fn laid_out(mid: FeatureArray, fin: FeatureArray, width: u32, name_len: nat) -> bool {
    if oneline_ok(mid) && oneline_len(mid) < width_budget(width, name_len) {
        oneline_array(mid, fin)
    } else {
        multiline_array(mid, fin)
    }
}


pub proof fn lemma_key_antisym(a: Seq<char>, b: Seq<char>)
    requires
        key_le(a, b),
        key_le(b, a),
    ensures
        a == b,
    decreases a.len(),
{
    if a.len() > 0 && b.len() > 0 {
        if a[0] == b[0] {
            lemma_key_antisym(a.drop_first(), b.drop_first());
            assert(a =~= seq![a[0]] + a.drop_first());
            assert(b =~= seq![b[0]] + b.drop_first());
        }
    } else if a.len() == 0 && b.len() == 0 {
        assert(a =~= b);
    }
}

/// Strict order of values.
pub open spec fn key_lt(a: Seq<char>, b: Seq<char>) -> bool {
    key_le(a, b) && a != b
}

proof fn lemma_key_lt_trans(a: Seq<char>, b: Seq<char>, c: Seq<char>)
    requires
        key_lt(a, b),
        key_lt(b, c),
    ensures
        key_lt(a, c),
{
    lemma_key_trans(a, b, c);
    if a == c {
        lemma_key_antisym(a, b);
    }
}

proof fn lemma_no_error_sorted(s: Seq<EntryView>, i: int)
    requires
        0 <= i < s.len(),
        first_error_from(s, i) is None,
    ensures
        forall|j: int| 1 <= j <= i ==> key_le(#[trigger] s[j - 1].0, s[j].0),
    decreases i,
{
    if i >= 1 {
        lemma_no_error_sorted(s, i - 1);
    }
}

proof fn lemma_dedup_shape(s: Seq<EntryView>)
    requires
        forall|j: int| 1 <= j < s.len() ==> key_le(#[trigger] s[j - 1].0, s[j].0),
    ensures
        s.len() > 0 ==> dedup_keep(s).len() > 0 && dedup_keep(s).last().0 == s.last().0,
        forall|k: int| 0 <= k < dedup_keep(s).len() - 1 ==> key_lt(#[trigger] dedup_keep(s)[k].0, dedup_keep(s)[k + 1].0),
    decreases s.len(),
{
    if s.len() > 1 {
        let t = s.drop_last();
        assert forall|j: int| 1 <= j < t.len() implies key_le(#[trigger] t[j - 1].0, t[j].0) by {
            assert(t[j - 1] == s[j - 1] && t[j] == s[j]);
        }
        lemma_dedup_shape(t);
        let r = dedup_keep(t);
        assert(s[s.len() - 2] == t.last());
        if s.last().0 != s[s.len() - 2].0 {
            let r2 = r.push(s.last());
            assert(key_le(s[s.len() - 2].0, s.last().0));
            assert forall|k: int| 0 <= k < r2.len() - 1 implies key_lt(#[trigger] r2[k].0, r2[k + 1].0) by {
                if k < r.len() - 1 {
                    assert(r2[k] == r[k] && r2[k + 1] == r[k + 1]);
                } else {
                    assert(r2[k] == r.last());
                }
            }
        }
    } else if s.len() == 1 {
        assert(dedup_keep(s) == s);
    }
}

proof fn lemma_strict_chain(r: Seq<EntryView>, k: int, l: int)
    requires
        forall|m: int| 0 <= m < r.len() - 1 ==> key_lt(#[trigger] r[m].0, r[m + 1].0),
        0 <= k < l < r.len(),
    ensures
        key_lt(r[k].0, r[l].0),
    decreases l - k,
{
    if l > k + 1 {
        lemma_strict_chain(r, k, l - 1);
        assert(key_lt(r[l - 1].0, r[l].0));
        lemma_key_lt_trans(r[k].0, r[l - 1].0, r[l].0);
    }
}

/// Adding an entry twice and then removing duplicates leaves that entry exactly
/// once, whenever the removal succeeds.
#[verifier::spinoff_prover]
pub proof fn lemma_add_twice_dedup_once(s: Seq<EntryView>, x: Seq<char>)
    requires
        first_error_from(
            appended_items(appended_items(s, x), x),
            appended_items(appended_items(s, x), x).len() - 1,
        ) is None,
    ensures
        exists|k: int|
            0 <= k < dedup_keep(appended_items(appended_items(s, x), x)).len() && #[trigger] dedup_keep(
                appended_items(appended_items(s, x), x),
            )[k].0 == x && forall|l: int|
                0 <= l < dedup_keep(appended_items(appended_items(s, x), x)).len() && l != k ==> dedup_keep(
                    appended_items(appended_items(s, x), x),
                )[l].0 != x,
{
    let t = appended_items(appended_items(s, x), x);
    let a = appended_items(s, x);
    assert(a.len() == s.len() + 1);
    assert(t.len() == a.len() + 1);
    assert(t[t.len() - 1].0 == x);
    lemma_no_error_sorted(t, t.len() - 1);
    lemma_dedup_shape(t);
    let r = dedup_keep(t);
    let k = r.len() - 1;
    assert(r[k].0 == x);
    assert forall|l: int| 0 <= l < r.len() && l != k implies r[l].0 != x by {
        if l < k {
            lemma_strict_chain(r, l, k);
        } else {
            lemma_strict_chain(r, k, l);
        }
    }
}


/// Laying out a feature on one line is stable: the one-line layout can again be
/// put on one line, to the same entries and the same width, so formatting it
/// again with the same width changes nothing.
pub proof fn lemma_oneline_layout_stable(a: FeatureArray, b: FeatureArray)
    requires
        oneline_ok(a),
        oneline_array(a, b),
    ensures
        oneline_ok(b),
        oneline_items(b.items()) == b.items(),
        oneline_len(b) == oneline_len(a),
{
    let sp = " "@;
    reveal_strlit(" ");
    assert(trim_start(sp.drop_first()) == sp.drop_first());
    assert(blank(sp));
    assert(blank(Seq::<char>::empty()));
    assert(b.items().len() == b.entries@.len());
    assert forall|i: int| 0 <= i < b.entries@.len() implies #[trigger] blank_entry(b.entries@[i]) by {
        assert(b.items()[i] == b.entries@[i]@);
        assert(b.items()[i] == oneline_items(a.items())[i]);
    }
    assert(oneline_items(b.items()) =~= b.items());
    assert(oneline_items(a.items()) == b.items());
}

} // verus!

verus! {

/// Whether canonicalizing entries `items` under `modes` fails: de-duplication is
/// asked for and meets an error.
pub open spec fn canon_fails(items: Seq<EntryView>, modes: Seq<Mode>) -> bool {
    !modes.contains(Mode::Off) && wants(modes, Mode::Dedub) && first_error_from(
        if wants(modes, Mode::Sort) { stable_sort(items) } else { items },
        items.len() - 1,
    ) is Some
}

} // verus!

verus! {

/// What canonicalizing entries `items` under `modes` gives when it succeeds: the
/// entries unchanged under `Off`; sorted under `Sort` alone; laid out on one line
/// or one per line under `Canonicalize` alone; sorted, de-duplicated and laid out
/// under all three.
pub open spec fn canon_items(items: Seq<EntryView>, modes: Seq<Mode>, out: Seq<EntryView>) -> bool {
    if modes.contains(Mode::Off) {
        out == items
    } else if !wants(modes, Mode::Sort) && !wants(modes, Mode::Dedub) && wants(modes, Mode::Canonicalize) {
        out == oneline_items(items) || out == multiline_items(items)
    } else if wants(modes, Mode::Sort) && !wants(modes, Mode::Dedub) && !wants(modes, Mode::Canonicalize) {
        out == stable_sort(items)
    } else if wants(modes, Mode::Sort) && wants(modes, Mode::Dedub) && wants(modes, Mode::Canonicalize) {
        out == oneline_items(dedup_keep(stable_sort(items))) || out == multiline_items(dedup_keep(stable_sort(items)))
    } else {
        true
    }
}

} // verus!
