//! The mathematical model of the value tree and of one-line measurement.
//!
//! Every contract of the library is stated over `PrettyModel`, the ghost
//! image of a `Pretty` tree, and over the spec functions defined here:
//! the exact one-line text of a subtree and its exact character width.
//! Widths are measured in Unicode scalar values (code points).  All width
//! arithmetic in executable code saturates at `usize::MAX`; the spec
//! functions mirror that with `cap`.

use vstd::prelude::*;

use crate::{Pretty, XmlNode};

verus! {

/// Clamp an (always non-negative) width to the `usize` range, mirroring the
/// saturating arithmetic used by the executable measurement code.
pub open spec fn cap(v: int) -> int {
    if v > usize::MAX as int {
        usize::MAX as int
    } else {
        v
    }
}

/// The larger of two widths.
pub open spec fn imax(a: int, b: int) -> int {
    if a >= b {
        a
    } else {
        b
    }
}

/// The ghost image of a `Pretty` tree.
#[verifier::ext_equal]
pub enum PrettyModel {
    Text { text: Seq<char> },
    Record { rec: RecordModel },
    Array { items: Seq<PrettyModel> },
    Linearized { text: Seq<char>, width: nat },
}

/// The ghost image of an `XmlNode`.
#[verifier::ext_equal]
pub struct RecordModel {
    pub name: Seq<char>,
    pub fields: Seq<(Seq<char>, PrettyModel)>,
    pub fields_is_linear: bool,
    pub children: Seq<PrettyModel>,
}

/// The model of a `Pretty` tree.
pub open spec fn model(p: Pretty) -> PrettyModel
    decreases p, 0int,
{
    match p {
        Pretty::Text(s) => PrettyModel::Text { text: s@ },
        Pretty::Record(x) => PrettyModel::Record { rec: record_model(x) },
        Pretty::Array(v) => PrettyModel::Array { items: model_items(v@, v@.len() as int) },
        Pretty::Linearized(s, w) => PrettyModel::Linearized { text: s@, width: w as nat },
    }
}

/// The model of an `XmlNode`.
pub open spec fn record_model(x: XmlNode) -> RecordModel
    decreases x, 0int,
{
    RecordModel {
        name: x.name@,
        fields: field_models(x.fields@, x.fields@.len() as int),
        fields_is_linear: x.fields_is_linear,
        children: model_items(x.children@, x.children@.len() as int),
    }
}

/// The models of the first `i` elements of a sequence of trees.
pub open spec fn model_items(s: Seq<Pretty>, i: int) -> Seq<PrettyModel>
    decreases s, i,
{
    if i <= 0 || i > s.len() {
        Seq::empty()
    } else {
        model_items(s, i - 1).push(model(s[i - 1]))
    }
}

/// The models of the first `i` key/value pairs of a field list.
pub open spec fn field_models(s: Seq<(String, Pretty)>, i: int) -> Seq<(Seq<char>, PrettyModel)>
    decreases s, i,
{
    if i <= 0 || i > s.len() {
        Seq::empty()
    } else {
        field_models(s, i - 1).push((s[i - 1].0@, model(s[i - 1].1)))
    }
}

pub proof fn lemma_model_items_index(s: Seq<Pretty>, i: int)
    requires
        0 <= i <= s.len(),
    ensures
        model_items(s, i).len() == i,
        forall|j: int| 0 <= j < i ==> model_items(s, i)[j] == model(s[j]),
    decreases i,
{
    if i > 0 {
        lemma_model_items_index(s, i - 1);
    }
}

pub proof fn lemma_field_models_index(s: Seq<(String, Pretty)>, i: int)
    requires
        0 <= i <= s.len(),
    ensures
        field_models(s, i).len() == i,
        forall|j: int| 0 <= j < i ==> field_models(s, i)[j] == (s[j].0@, model(s[j].1)),
    decreases i,
{
    if i > 0 {
        lemma_field_models_index(s, i - 1);
    }
}

/// Concatenation of character sequences re-associates.
pub proof fn lemma_prepend_assoc(h: Seq<char>, a: Seq<char>, b: Seq<char>)
    ensures
        (h + a) + b == h + (a + b),
{
    assert((h + a) + b =~= h + (a + b));
}

/// The empty sequence is a left identity of concatenation.
pub proof fn lemma_prepend_empty(a: Seq<char>)
    ensures
        Seq::<char>::empty() + a == a,
{
    assert(Seq::<char>::empty() + a =~= a);
}

/// The empty sequence is a right identity of concatenation.
pub proof fn lemma_append_empty(a: Seq<char>)
    ensures
        a + Seq::<char>::empty() == a,
{
    assert(a + Seq::<char>::empty() =~= a);
}

/// The `", "` separator between array elements and between record fields.
pub open spec fn sep_seq() -> Seq<char> {
    seq![',', ' ']
}

/// The `": "` separator between a field key and its value.
pub open spec fn colon_seq() -> Seq<char> {
    seq![':', ' ']
}

/// The one-line form of an empty array.
pub open spec fn empty_arr_seq() -> Seq<char> {
    seq!['[', ']']
}

/// The opening bracket of a non-empty one-line array.
pub open spec fn arr_open_seq(reduced: bool) -> Seq<char> {
    if reduced {
        seq!['[']
    } else {
        seq!['[', ' ']
    }
}

/// The closing bracket of a non-empty one-line array.
pub open spec fn arr_close_seq(reduced: bool) -> Seq<char> {
    if reduced {
        seq![']']
    } else {
        seq![' ', ']']
    }
}

/// What stands between a record name and its first field on one line.
pub open spec fn brace_open_seq(reduced: bool) -> Seq<char> {
    if reduced {
        seq![' ', '{']
    } else {
        seq![' ', '{', ' ']
    }
}

/// What closes a record's one-line field block.
pub open spec fn brace_close_seq(reduced: bool) -> Seq<char> {
    if reduced {
        seq!['}']
    } else {
        seq![' ', '}']
    }
}

/// The bracket overhead of a non-empty one-line array.
pub open spec fn arr_overhead(reduced: bool) -> int {
    if reduced {
        2
    } else {
        4
    }
}

/// The brace overhead of a record with fields on one line.
pub open spec fn brace_overhead(reduced: bool) -> int {
    if reduced {
        3
    } else {
        5
    }
}

/// The exact character width of the one-line form of a subtree, saturated
/// at `usize::MAX`.  Children of a record are never part of its one-line
/// form.  For a `Linearized` node this is the cached width.
pub open spec fn one_line_len(m: PrettyModel, reduced: bool) -> int
    decreases m, 0int,
{
    match m {
        PrettyModel::Text { text } => cap(text.len() as int),
        PrettyModel::Linearized { width, .. } => cap(width as int),
        PrettyModel::Array { items } => if items.len() == 0 {
            2
        } else {
            cap(items_len_upto(items, items.len() as int, reduced) + arr_overhead(reduced))
        },
        PrettyModel::Record { rec } => record_len(rec, reduced),
    }
}

/// The one-line width of a record: its name alone when it has no fields,
/// else name, braces, and the field block.
pub open spec fn record_len(rec: RecordModel, reduced: bool) -> int
    decreases rec, 0int,
{
    if rec.fields.len() == 0 {
        cap(rec.name.len() as int)
    } else {
        cap(
            rec.name.len() + brace_overhead(reduced) + fields_len_upto(
                rec.fields,
                rec.fields.len() as int,
                reduced,
            ),
        )
    }
}

/// The summed one-line width of the first `i` array elements, with a
/// `", "` separator before every element but the first.  Not saturated.
pub open spec fn items_len_upto(s: Seq<PrettyModel>, i: int, reduced: bool) -> int
    decreases s, i,
{
    if i <= 0 || i > s.len() {
        0
    } else {
        items_len_upto(s, i - 1, reduced) + (if i - 1 > 0 {
            2int
        } else {
            0int
        }) + one_line_len(s[i - 1], reduced)
    }
}

/// The summed one-line width of the first `i` record fields, each
/// `key: value`, with a `", "` separator before every field but the first.
pub open spec fn fields_len_upto(s: Seq<(Seq<char>, PrettyModel)>, i: int, reduced: bool) -> int
    decreases s, i,
{
    if i <= 0 || i > s.len() {
        0
    } else {
        fields_len_upto(s, i - 1, reduced) + (if i - 1 > 0 {
            2int
        } else {
            0int
        }) + s[i - 1].0.len() + 2 + one_line_len(s[i - 1].1, reduced)
    }
}

/// The exact text of the one-line form of a subtree.  For a `Linearized`
/// node this is the cached text.
pub open spec fn one_line_text(m: PrettyModel, reduced: bool) -> Seq<char>
    decreases m, 0int,
{
    match m {
        PrettyModel::Text { text } => text,
        PrettyModel::Linearized { text, .. } => text,
        PrettyModel::Array { items } => if items.len() == 0 {
            empty_arr_seq()
        } else {
            arr_open_seq(reduced) + items_text_upto(items, items.len() as int, reduced)
                + arr_close_seq(reduced)
        },
        PrettyModel::Record { rec } => record_text(rec, reduced),
    }
}

/// The one-line text of a record.
pub open spec fn record_text(rec: RecordModel, reduced: bool) -> Seq<char>
    decreases rec, 0int,
{
    if rec.fields.len() == 0 {
        rec.name
    } else {
        rec.name + brace_open_seq(reduced) + fields_text_upto(
            rec.fields,
            rec.fields.len() as int,
            reduced,
        ) + brace_close_seq(reduced)
    }
}

/// The one-line text of the first `i` array elements.
pub open spec fn items_text_upto(s: Seq<PrettyModel>, i: int, reduced: bool) -> Seq<char>
    decreases s, i,
{
    if i <= 0 || i > s.len() {
        Seq::empty()
    } else {
        items_text_upto(s, i - 1, reduced) + (if i - 1 > 0 {
            sep_seq()
        } else {
            Seq::empty()
        }) + one_line_text(s[i - 1], reduced)
    }
}

/// The one-line text of the first `i` record fields.
pub open spec fn fields_text_upto(s: Seq<(Seq<char>, PrettyModel)>, i: int, reduced: bool) -> Seq<
    char,
>
    decreases s, i,
{
    if i <= 0 || i > s.len() {
        Seq::empty()
    } else {
        fields_text_upto(s, i - 1, reduced) + (if i - 1 > 0 {
            sep_seq()
        } else {
            Seq::empty()
        }) + s[i - 1].0 + colon_seq() + one_line_text(s[i - 1].1, reduced)
    }
}

pub proof fn lemma_one_line_len_range(m: PrettyModel, reduced: bool)
    ensures
        0 <= one_line_len(m, reduced) <= usize::MAX as int,
    decreases m, 0int,
{
    match m {
        PrettyModel::Text { .. } => {},
        PrettyModel::Linearized { .. } => {},
        PrettyModel::Array { items } => {
            lemma_items_len_nonneg(items, items.len() as int, reduced);
        },
        PrettyModel::Record { rec } => {
            lemma_fields_len_nonneg(rec.fields, rec.fields.len() as int, reduced);
        },
    }
}

pub proof fn lemma_items_len_nonneg(s: Seq<PrettyModel>, i: int, reduced: bool)
    ensures
        0 <= items_len_upto(s, i, reduced),
    decreases s, i,
{
    if 0 < i <= s.len() {
        lemma_items_len_nonneg(s, i - 1, reduced);
        lemma_one_line_len_range(s[i - 1], reduced);
    }
}

pub proof fn lemma_fields_len_nonneg(s: Seq<(Seq<char>, PrettyModel)>, i: int, reduced: bool)
    ensures
        0 <= fields_len_upto(s, i, reduced),
    decreases s, i,
{
    if 0 < i <= s.len() {
        lemma_fields_len_nonneg(s, i - 1, reduced);
        lemma_one_line_len_range(s[i - 1].1, reduced);
    }
}

/// The measured one-line width of a subtree is exactly the (saturated)
/// length of its one-line text, provided every cached width in the tree is
/// honest.
pub proof fn lemma_len_matches_text(m: PrettyModel, reduced: bool)
    requires
        caches_ok(m),
    ensures
        one_line_len(m, reduced) == cap(one_line_text(m, reduced).len() as int),
    decreases m, 0int,
{
    match m {
        PrettyModel::Text { .. } => {},
        PrettyModel::Linearized { .. } => {},
        PrettyModel::Array { items } => {
            if items.len() > 0 {
                lemma_items_len_matches_text(items, items.len() as int, reduced);
            }
        },
        PrettyModel::Record { rec } => {
            if rec.fields.len() > 0 {
                lemma_fields_len_matches_text(rec.fields, rec.fields.len() as int, reduced);
            }
        },
    }
}

pub proof fn lemma_items_len_matches_text(s: Seq<PrettyModel>, i: int, reduced: bool)
    requires
        all_caches_upto(s, s.len() as int),
    ensures
        0 <= items_len_upto(s, i, reduced) <= items_text_upto(s, i, reduced).len(),
        items_len_upto(s, i, reduced) == items_text_upto(s, i, reduced).len() || items_len_upto(
            s,
            i,
            reduced,
        ) >= usize::MAX as int,
    decreases s, i,
{
    if 0 < i <= s.len() {
        lemma_all_caches_elem(s, s.len() as int, i - 1);
        lemma_items_len_matches_text(s, i - 1, reduced);
        lemma_len_matches_text(s[i - 1], reduced);
        lemma_one_line_len_range(s[i - 1], reduced);
    }
}

pub proof fn lemma_fields_len_matches_text(s: Seq<(Seq<char>, PrettyModel)>, i: int, reduced: bool)
    requires
        all_field_caches_upto(s, s.len() as int),
    ensures
        0 <= fields_len_upto(s, i, reduced) <= fields_text_upto(s, i, reduced).len(),
        fields_len_upto(s, i, reduced) == fields_text_upto(s, i, reduced).len() || fields_len_upto(
            s,
            i,
            reduced,
        ) >= usize::MAX as int,
    decreases s, i,
{
    if 0 < i <= s.len() {
        lemma_all_field_caches_elem(s, s.len() as int, i - 1);
        lemma_fields_len_matches_text(s, i - 1, reduced);
        lemma_len_matches_text(s[i - 1].1, reduced);
        lemma_one_line_len_range(s[i - 1].1, reduced);
    }
}

/// Every `Linearized` node in the tree caches exactly the width of its
/// cached text.  Trees without `Linearized` nodes satisfy this trivially,
/// and the measurement pass preserves it.
pub open spec fn caches_ok(m: PrettyModel) -> bool
    decreases m, 1int,
{
    match m {
        PrettyModel::Text { .. } => true,
        PrettyModel::Linearized { text, width } => width == text.len(),
        PrettyModel::Array { items } => all_caches_upto(items, items.len() as int),
        PrettyModel::Record { rec } => all_field_caches_upto(rec.fields, rec.fields.len() as int)
            && all_caches_upto(rec.children, rec.children.len() as int),
    }
}

/// `caches_ok` holds of the first `i` trees of a sequence.
pub open spec fn all_caches_upto(s: Seq<PrettyModel>, i: int) -> bool
    decreases s, i,
{
    if i <= 0 || i > s.len() {
        true
    } else {
        all_caches_upto(s, i - 1) && caches_ok(s[i - 1])
    }
}

/// `caches_ok` holds of the first `i` field values of a field list.
pub open spec fn all_field_caches_upto(s: Seq<(Seq<char>, PrettyModel)>, i: int) -> bool
    decreases s, i,
{
    if i <= 0 || i > s.len() {
        true
    } else {
        all_field_caches_upto(s, i - 1) && caches_ok(s[i - 1].1)
    }
}

/// No `Linearized` node anywhere in the tree: the shape of every tree a
/// caller hands to the measurement pass.
pub open spec fn lin_free(m: PrettyModel) -> bool
    decreases m, 1int,
{
    match m {
        PrettyModel::Text { .. } => true,
        PrettyModel::Linearized { .. } => false,
        PrettyModel::Array { items } => all_lin_free_upto(items, items.len() as int),
        PrettyModel::Record { rec } => all_field_lin_free_upto(rec.fields, rec.fields.len() as int)
            && all_lin_free_upto(rec.children, rec.children.len() as int),
    }
}

/// From `all_caches_upto(s, n)`, `caches_ok` of one element in range.
pub proof fn lemma_all_caches_elem(s: Seq<PrettyModel>, n: int, j: int)
    requires
        0 <= j < n <= s.len(),
        all_caches_upto(s, n),
    ensures
        caches_ok(s[j]),
    decreases n,
{
    if j < n - 1 {
        lemma_all_caches_elem(s, n - 1, j);
    }
}

/// From `all_field_caches_upto(s, n)`, `caches_ok` of one field value.
pub proof fn lemma_all_field_caches_elem(s: Seq<(Seq<char>, PrettyModel)>, n: int, j: int)
    requires
        0 <= j < n <= s.len(),
        all_field_caches_upto(s, n),
    ensures
        caches_ok(s[j].1),
    decreases n,
{
    if j < n - 1 {
        lemma_all_field_caches_elem(s, n - 1, j);
    }
}

/// `lin_free` holds of the first `i` trees of a sequence.
pub open spec fn all_lin_free_upto(s: Seq<PrettyModel>, i: int) -> bool
    decreases s, i,
{
    if i <= 0 || i > s.len() {
        true
    } else {
        all_lin_free_upto(s, i - 1) && lin_free(s[i - 1])
    }
}

/// `lin_free` holds of the first `i` field values of a field list.
pub open spec fn all_field_lin_free_upto(s: Seq<(Seq<char>, PrettyModel)>, i: int) -> bool
    decreases s, i,
{
    if i <= 0 || i > s.len() {
        true
    } else {
        all_field_lin_free_upto(s, i - 1) && lin_free(s[i - 1].1)
    }
}

/// If the first `n` trees are `Linearized`-free, so are the first `i`;
/// contrapositively, one annotated element breaks the whole prefix.
pub proof fn lemma_lin_free_break(s: Seq<PrettyModel>, j: int, n: int)
    requires
        0 <= j < n <= s.len(),
        !lin_free(s[j]),
    ensures
        !all_lin_free_upto(s, n),
    decreases n,
{
    if j < n - 1 {
        lemma_lin_free_break(s, j, n - 1);
    }
}

/// As `lemma_lin_free_break`, for field values.
pub proof fn lemma_field_lin_free_break(s: Seq<(Seq<char>, PrettyModel)>, j: int, n: int)
    requires
        0 <= j < n <= s.len(),
        !lin_free(s[j].1),
    ensures
        !all_field_lin_free_upto(s, n),
    decreases n,
{
    if j < n - 1 {
        lemma_field_lin_free_break(s, j, n - 1);
    }
}

/// A tree without `Linearized` nodes trivially has honest caches.
pub proof fn lemma_lin_free_caches_ok(m: PrettyModel)
    ensures
        lin_free(m) ==> caches_ok(m),
    decreases m, 1int,
{
    match m {
        PrettyModel::Text { .. } => {},
        PrettyModel::Linearized { .. } => {},
        PrettyModel::Array { items } => {
            lemma_lin_free_caches_seq(items, items.len() as int);
        },
        PrettyModel::Record { rec } => {
            lemma_lin_free_caches_fields(rec.fields, rec.fields.len() as int);
            lemma_lin_free_caches_seq(rec.children, rec.children.len() as int);
        },
    }
}

pub proof fn lemma_lin_free_caches_seq(s: Seq<PrettyModel>, i: int)
    ensures
        all_lin_free_upto(s, i) ==> all_caches_upto(s, i),
    decreases s, i,
{
    if 0 < i <= s.len() {
        lemma_lin_free_caches_seq(s, i - 1);
        lemma_lin_free_caches_ok(s[i - 1]);
    }
}

pub proof fn lemma_lin_free_caches_fields(s: Seq<(Seq<char>, PrettyModel)>, i: int)
    ensures
        all_field_lin_free_upto(s, i) ==> all_field_caches_upto(s, i),
    decreases s, i,
{
    if 0 < i <= s.len() {
        lemma_lin_free_caches_fields(s, i - 1);
        lemma_lin_free_caches_ok(s[i - 1].1);
    }
}

/// Whether a subtree has breakable children: a record with children, a
/// record one of whose field values has breakable children, or an array
/// with such an element.  A committed (`Linearized`) subtree never does.
pub open spec fn has_kids(m: PrettyModel) -> bool
    decreases m, 1int,
{
    match m {
        PrettyModel::Text { .. } => false,
        PrettyModel::Linearized { .. } => false,
        PrettyModel::Array { items } => any_kids_upto(items, items.len() as int),
        PrettyModel::Record { rec } => record_has_kids(rec),
    }
}

/// `has_kids` for a record: it has children, or some field value does.
pub open spec fn record_has_kids(rec: RecordModel) -> bool
    decreases rec, 0int,
{
    rec.children.len() > 0 || any_field_kids_upto(rec.fields, rec.fields.len() as int)
}

/// Some tree among the first `i` of a sequence has breakable children.
pub open spec fn any_kids_upto(s: Seq<PrettyModel>, i: int) -> bool
    decreases s, i,
{
    if i <= 0 || i > s.len() {
        false
    } else {
        any_kids_upto(s, i - 1) || has_kids(s[i - 1])
    }
}

/// Some field value among the first `i` of a field list has breakable
/// children.
pub open spec fn any_field_kids_upto(s: Seq<(Seq<char>, PrettyModel)>, i: int) -> bool
    decreases s, i,
{
    if i <= 0 || i > s.len() {
        false
    } else {
        any_field_kids_upto(s, i - 1) || has_kids(s[i - 1].1)
    }
}

/// From `!any_kids_upto(s, n)`, no element in range has breakable children.
pub proof fn lemma_any_kids_elem(s: Seq<PrettyModel>, n: int, j: int)
    requires
        0 <= j < n <= s.len(),
        !any_kids_upto(s, n),
    ensures
        !has_kids(s[j]),
    decreases n,
{
    if j < n - 1 {
        lemma_any_kids_elem(s, n - 1, j);
    }
}

/// From `!any_field_kids_upto(s, n)`, no field value in range has
/// breakable children.
pub proof fn lemma_any_field_kids_elem(s: Seq<(Seq<char>, PrettyModel)>, n: int, j: int)
    requires
        0 <= j < n <= s.len(),
        !any_field_kids_upto(s, n),
    ensures
        !has_kids(s[j].1),
    decreases n,
{
    if j < n - 1 {
        lemma_any_field_kids_elem(s, n - 1, j);
    }
}

pub proof fn lemma_any_kids_mono(s: Seq<PrettyModel>, i: int, j: int)
    requires
        0 <= i <= j <= s.len(),
        any_kids_upto(s, i),
    ensures
        any_kids_upto(s, j),
    decreases j,
{
    if j > i {
        lemma_any_kids_mono(s, i, j - 1);
    }
}

pub proof fn lemma_any_field_kids_mono(s: Seq<(Seq<char>, PrettyModel)>, i: int, j: int)
    requires
        0 <= i <= j <= s.len(),
        any_field_kids_upto(s, i),
    ensures
        any_field_kids_upto(s, j),
    decreases j,
{
    if j > i {
        lemma_any_field_kids_mono(s, i, j - 1);
    }
}

} // verus!
