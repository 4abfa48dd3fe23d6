//! A layout engine for tree-shaped values: text leaves, ordered arrays, and
//! named records with key/value fields and optional children are rendered
//! into a width-constrained textual form, either in a plain bracket-and-brace
//! style or in a Unicode box-drawing tree style.
//!
//! Rendering happens in two passes.  A measurement pass walks the tree,
//! decides for every subtree whether it fits on one line within the target
//! width, and produces an annotated tree in which committed one-line subtrees
//! are replaced by `Pretty::Linearized` nodes carrying their one-line text
//! and its exact character width.  A rendering pass then walks the annotated
//! tree and emits the final text, including indentation or tree connectors,
//! and optional `+---+` framing.

use vstd::prelude::*;

pub mod ascii;
pub mod buffer;
pub mod laws;
pub mod model;
pub mod unicode;

pub use crate::buffer::PrettyConfig;

verus! {

use crate::model::{
    all_field_lin_free_upto, all_lin_free_upto, any_field_kids_upto, any_kids_upto, arr_open_seq,
    brace_open_seq, cap, empty_arr_seq, fields_len_upto, fields_text_upto, has_kids,
    items_len_upto, items_text_upto, lemma_any_field_kids_mono, lemma_any_kids_mono,
    lemma_field_lin_free_break, lemma_field_models_index, lemma_fields_len_nonneg,
    lemma_items_len_nonneg, lemma_lin_free_break, lemma_model_items_index,
    lemma_one_line_len_range, lin_free, model, model_items, one_line_len, one_line_text,
    record_has_kids, record_len, record_model, record_text,
};

/// A tree-shaped value to be laid out and printed.
pub enum Pretty {
    /// An opaque leaf string, printed verbatim.
    Text(String),
    /// A named record with ordered key/value fields and ordered children.
    Record(XmlNode),
    /// An ordered list, printed as `[...]` or an indented bracketed block.
    Array(Vec<Pretty>),
    /// Produced only by the measurement pass: a subtree committed to
    /// one-line form, caching that one-line text and its character width.
    Linearized(String, usize),
}

/// A named record node: ordered key/value fields and ordered children.
pub struct XmlNode {
    pub name: String,
    pub fields: Vec<(String, Pretty)>,
    /// Set by the measurement pass when the whole field block renders as a
    /// single brace-delimited line even though the record itself breaks.
    /// Constructors always set it to `false`.
    pub fields_is_linear: bool,
    pub children: Vec<Pretty>,
}

impl XmlNode {
    pub fn new(name: String, fields: Vec<(String, Pretty)>, children: Vec<Pretty>) -> (r: Self)
        ensures
            r.name == name,
            r.fields == fields,
            r.fields_is_linear == false,
            r.children == children,
    {
        XmlNode { name, fields, fields_is_linear: false, children }
    }

    /// Build a record from a borrowed name and borrowed field keys.
    pub fn simple_record(name: &str, fields: Vec<(&str, Pretty)>, children: Vec<Pretty>) -> (r:
        Self)
        ensures
            r.name@ == name@,
            r.fields_is_linear == false,
            r.children == children,
            r.fields@.len() == fields@.len(),
            forall|i: int|
                0 <= i < fields@.len() ==> (#[trigger] r.fields@[i]).0@ == fields@[i].0@
                    && r.fields@[i].1 == fields@[i].1,
    {
        let ghost orig = fields@;
        let mut rest = fields;
        let mut owned: Vec<(String, Pretty)> = Vec::new();
        while rest.len() > 0
            invariant
                owned@.len() + rest@.len() == orig.len(),
                rest@ == orig.subrange(owned@.len() as int, orig.len() as int),
                forall|j: int|
                    0 <= j < owned@.len() ==> (#[trigger] owned@[j]).0@ == orig[j].0@
                        && owned@[j].1 == orig[j].1,
            decreases rest@.len(),
        {
            let pair = rest.remove(0);
            let key = pair.0.to_owned();
            owned.push((key, pair.1));
            proof {
                assert(rest@ =~= orig.subrange(owned@.len() as int, orig.len() as int));
            }
        }
        XmlNode::new(name.to_owned(), owned, children)
    }

    /// Whether this record has children, or a field value that does.
    pub fn has_children(&self) -> (r: bool)
        ensures
            r == record_has_kids(record_model(*self)),
        decreases *self,
    {
        proof {
            lemma_model_items_index(self.children@, self.children@.len() as int);
            lemma_field_models_index(self.fields@, self.fields@.len() as int);
        }
        if self.children.len() > 0 {
            return true;
        }
        let ghost mf = record_model(*self).fields;
        let n = self.fields.len();
        let mut i: usize = 0;
        while i < n
            invariant
                0 <= i <= n,
                n == self.fields.len(),
                mf == record_model(*self).fields,
                mf.len() == n,
                forall|j: int| 0 <= j < n ==> #[trigger] mf[j] == (self.fields@[j].0@, model(
                    self.fields@[j].1,
                )),
                !any_field_kids_upto(mf, i as int),
            decreases n - i,
        {
            proof {
                assert(decreases_to!(*self => self.fields));
                assert(decreases_to!(self.fields => self.fields@));
                assert(decreases_to!(self.fields@ => self.fields@[i as int]));
                assert(decreases_to!(self.fields@[i as int] => self.fields@[i as int].1));
            }
            let pair = &self.fields[i];
            if pair.1.has_children() {
                proof {
                    assert(any_field_kids_upto(mf, i + 1));
                    lemma_any_field_kids_mono(mf, i + 1, n as int);
                }
                return true;
            }
            i += 1;
        }
        false
    }

    /// The exact character width of this record's one-line form.
    pub(crate) fn ol_len(&self, reduced_ws: bool) -> (r: usize)
        ensures
            r as int == record_len(record_model(*self), reduced_ws),
        decreases *self,
    {
        proof {
            lemma_field_models_index(self.fields@, self.fields@.len() as int);
        }
        let ghost mf = record_model(*self).fields;
        let name_len = self.name.as_str().unicode_len();
        if self.fields.len() == 0 {
            return name_len;
        }
        let n = self.fields.len();
        let mut acc: usize = 0;
        let mut i: usize = 0;
        while i < n
            invariant
                0 <= i <= n,
                n == self.fields.len(),
                mf == record_model(*self).fields,
                mf.len() == n,
                forall|j: int| 0 <= j < n ==> #[trigger] mf[j] == (self.fields@[j].0@, model(
                    self.fields@[j].1,
                )),
                acc as int == cap(fields_len_upto(mf, i as int, reduced_ws)),
            decreases n - i,
        {
            let pair = &self.fields[i];
            let sep: usize = if i > 0 {
                2
            } else {
                0
            };
            let klen = pair.0.as_str().unicode_len();
            proof {
                assert(decreases_to!(*self => self.fields));
                assert(decreases_to!(self.fields => self.fields@));
                assert(decreases_to!(self.fields@ => self.fields@[i as int]));
                assert(decreases_to!(self.fields@[i as int] => self.fields@[i as int].1));
            }
            let vlen = pair.1.ol_len(reduced_ws);
            proof {
                lemma_fields_len_nonneg(mf, i as int, reduced_ws);
                lemma_one_line_len_range(mf[i as int].1, reduced_ws);
            }
            acc = acc.saturating_add(sep).saturating_add(klen).saturating_add(2).saturating_add(
                vlen,
            );
            i += 1;
        }
        let oh: usize = if reduced_ws {
            3
        } else {
            5
        };
        proof {
            lemma_fields_len_nonneg(mf, n as int, reduced_ws);
        }
        name_len.saturating_add(oh).saturating_add(acc)
    }

    /// Append this record's one-line form to `builder`.
    pub(crate) fn ol_build_str_ascii(&self, reduced_ws: bool, builder: &mut String)
        ensures
            final(builder)@ == old(builder)@ + record_text(record_model(*self), reduced_ws),
        decreases *self,
    {
        proof {
            lemma_field_models_index(self.fields@, self.fields@.len() as int);
        }
        let ghost b0 = builder@;
        let ghost mf = record_model(*self).fields;
        builder.append(self.name.as_str());
        if self.fields.len() == 0 {
            return;
        }
        builder.append(
            if reduced_ws {
                " {"
            } else {
                " { "
            },
        );
        proof {
            reveal_strlit(" {");
            reveal_strlit(" { ");
            assert(builder@ =~= b0 + record_model(*self).name + brace_open_seq(reduced_ws));
        }
        let n = self.fields.len();
        let mut i: usize = 0;
        while i < n
            invariant
                0 <= i <= n,
                n == self.fields.len(),
                mf == record_model(*self).fields,
                mf.len() == n,
                forall|j: int| 0 <= j < n ==> #[trigger] mf[j] == (self.fields@[j].0@, model(
                    self.fields@[j].1,
                )),
                builder@ == b0 + record_model(*self).name + brace_open_seq(reduced_ws)
                    + fields_text_upto(mf, i as int, reduced_ws),
            decreases n - i,
        {
            if i > 0 {
                builder.append(", ");
                proof {
                    reveal_strlit(", ");
                }
            }
            let pair = &self.fields[i];
            builder.append(pair.0.as_str());
            builder.append(": ");
            proof {
                assert(decreases_to!(*self => self.fields));
                assert(decreases_to!(self.fields => self.fields@));
                assert(decreases_to!(self.fields@ => self.fields@[i as int]));
                assert(decreases_to!(self.fields@[i as int] => self.fields@[i as int].1));
            }
            pair.1.ol_build_str_ascii(reduced_ws, builder);
            proof {
                reveal_strlit(": ");
                assert(builder@ =~= b0 + record_model(*self).name + brace_open_seq(reduced_ws)
                    + fields_text_upto(mf, i + 1 as int, reduced_ws));
            }
            i += 1;
        }
        builder.append(
            if reduced_ws {
                "}"
            } else {
                " }"
            },
        );
        proof {
            reveal_strlit("}");
            reveal_strlit(" }");
            assert(builder@ =~= b0 + record_text(record_model(*self), reduced_ws));
        }
    }
}

impl Pretty {
    /// Build a record value from a borrowed name and borrowed field keys.
    pub fn simple_record(name: &str, fields: Vec<(&str, Pretty)>, children: Vec<Pretty>) -> (r:
        Self)
        ensures
            r matches Pretty::Record(x) && x.name@ == name@ && x.fields_is_linear == false
                && x.children == children && x.fields@.len() == fields@.len() && forall|i: int|
                0 <= i < fields@.len() ==> (#[trigger] x.fields@[i]).0@ == fields@[i].0@
                    && x.fields@[i].1 == fields@[i].1,
    {
        Pretty::Record(XmlNode::simple_record(name, fields, children))
    }

    /// A record with children but no fields.
    pub fn fieldless_record(name: &str, children: Vec<Pretty>) -> (r: Self)
        ensures
            r matches Pretty::Record(x) && x.name@ == name@ && x.fields_is_linear == false
                && x.children == children && x.fields@.len() == 0,
    {
        Pretty::Record(XmlNode::simple_record(name, Vec::new(), children))
    }

    /// A record with fields but no children.
    pub fn childless_record(name: &str, fields: Vec<(&str, Pretty)>) -> (r: Self)
        ensures
            r matches Pretty::Record(x) && x.name@ == name@ && x.fields_is_linear == false
                && x.children@.len() == 0 && x.fields@.len() == fields@.len() && forall|i: int|
                0 <= i < fields@.len() ==> (#[trigger] x.fields@[i]).0@ == fields@[i].0@
                    && x.fields@[i].1 == fields@[i].1,
    {
        Pretty::Record(XmlNode::simple_record(name, fields, Vec::new()))
    }

    /// An array of text leaves.
    pub fn list_of_strings(list: &Vec<&str>) -> (r: Self)
        ensures
            r matches Pretty::Array(v) && v@.len() == list@.len() && forall|i: int|
                0 <= i < list@.len() ==> (#[trigger] v@[i] matches Pretty::Text(s) && s@
                    == list@[i]@),
    {
        let mut items: Vec<Pretty> = Vec::new();
        let n = list.len();
        let mut i: usize = 0;
        while i < n
            invariant
                0 <= i <= n,
                n == list@.len(),
                items@.len() == i,
                forall|j: int|
                    0 <= j < i ==> (#[trigger] items@[j] matches Pretty::Text(s) && s@
                        == list@[j]@),
            decreases n - i,
        {
            items.push(Pretty::Text(list[i].to_owned()));
            i += 1;
        }
        Pretty::Array(items)
    }

    /// Whether this subtree has breakable children (see `has_kids`).
    pub fn has_children(&self) -> (r: bool)
        ensures
            r == has_kids(model(*self)),
        decreases *self,
    {
        match self {
            Pretty::Record(x) => x.has_children(),
            Pretty::Text(_) => false,
            Pretty::Linearized(_, _) => false,
            Pretty::Array(v) => {
                proof {
                    lemma_model_items_index(v@, v@.len() as int);
                }
                let ghost items = model_items(v@, v@.len() as int);
                let n = v.len();
                let mut i: usize = 0;
                while i < n
                    invariant
                        *self == Pretty::Array(*v),
                        0 <= i <= n,
                        n == v@.len(),
                        items == model_items(v@, v@.len() as int),
                        items.len() == n,
                        forall|j: int| 0 <= j < n ==> #[trigger] items[j] == model(v@[j]),
                        !any_kids_upto(items, i as int),
                    decreases n - i,
                {
                    proof {
                        assert(*v == (*self)->Array_0);
                        assert(decreases_to!(*self => (*self)->Array_0));
                        assert(decreases_to!(*v => v@));
                        assert(decreases_to!(v@ => v@[i as int]));
                    }
                    if v[i].has_children() {
                        proof {
                            assert(any_kids_upto(items, i + 1));
                            lemma_any_kids_mono(items, i + 1, n as int);
                        }
                        return true;
                    }
                    i += 1;
                }
                false
            },
        }
    }

    /// The exact character width of this subtree's one-line form.
    /// Children of records are not part of it.
    pub(crate) fn ol_len(&self, reduced_ws: bool) -> (r: usize)
        ensures
            r as int == one_line_len(model(*self), reduced_ws),
        decreases *self,
    {
        match self {
            Pretty::Text(s) => s.as_str().unicode_len(),
            Pretty::Linearized(_, l) => *l,
            Pretty::Record(x) => x.ol_len(reduced_ws),
            Pretty::Array(v) => {
                if v.len() == 0 {
                    return 2;
                }
                proof {
                    lemma_model_items_index(v@, v@.len() as int);
                }
                let ghost items = model_items(v@, v@.len() as int);
                let n = v.len();
                let mut acc: usize = 0;
                let mut i: usize = 0;
                while i < n
                    invariant
                        *self == Pretty::Array(*v),
                        0 <= i <= n,
                        n == v@.len(),
                        items == model_items(v@, v@.len() as int),
                        items.len() == n,
                        forall|j: int| 0 <= j < n ==> #[trigger] items[j] == model(v@[j]),
                        acc as int == cap(items_len_upto(items, i as int, reduced_ws)),
                    decreases n - i,
                {
                    let sep: usize = if i > 0 {
                        2
                    } else {
                        0
                    };
                    proof {
                        assert(*v == (*self)->Array_0);
                        assert(decreases_to!(*self => (*self)->Array_0));
                        assert(decreases_to!(*v => v@));
                        assert(decreases_to!(v@ => v@[i as int]));
                    }
                    let el = v[i].ol_len(reduced_ws);
                    proof {
                        lemma_items_len_nonneg(items, i as int, reduced_ws);
                        lemma_one_line_len_range(items[i as int], reduced_ws);
                    }
                    acc = acc.saturating_add(sep).saturating_add(el);
                    i += 1;
                }
                let oh: usize = if reduced_ws {
                    2
                } else {
                    4
                };
                proof {
                    lemma_items_len_nonneg(items, n as int, reduced_ws);
                }
                acc.saturating_add(oh)
            },
        }
    }

    /// Append this subtree's one-line form to `builder`.
    pub(crate) fn ol_build_str_ascii(&self, reduced_ws: bool, builder: &mut String)
        ensures
            final(builder)@ == old(builder)@ + one_line_text(model(*self), reduced_ws),
        decreases *self,
    {
        let ghost b0 = builder@;
        match self {
            Pretty::Text(s) => builder.append(s.as_str()),
            Pretty::Linearized(s, _) => builder.append(s.as_str()),
            Pretty::Record(x) => x.ol_build_str_ascii(reduced_ws, builder),
            Pretty::Array(v) => {
                if v.len() == 0 {
                    builder.append("[]");
                    proof {
                        reveal_strlit("[]");
                        assert(builder@ =~= b0 + empty_arr_seq());
                    }
                    return;
                }
                proof {
                    lemma_model_items_index(v@, v@.len() as int);
                }
                let ghost items = model_items(v@, v@.len() as int);
                builder.append(
                    if reduced_ws {
                        "["
                    } else {
                        "[ "
                    },
                );
                proof {
                    reveal_strlit("[");
                    reveal_strlit("[ ");
                    assert(builder@ =~= b0 + arr_open_seq(reduced_ws));
                }
                let n = v.len();
                let mut i: usize = 0;
                while i < n
                    invariant
                        *self == Pretty::Array(*v),
                        0 <= i <= n,
                        n == v@.len(),
                        items == model_items(v@, v@.len() as int),
                        items.len() == n,
                        forall|j: int| 0 <= j < n ==> #[trigger] items[j] == model(v@[j]),
                        builder@ == b0 + arr_open_seq(reduced_ws) + items_text_upto(
                            items,
                            i as int,
                            reduced_ws,
                        ),
                    decreases n - i,
                {
                    if i > 0 {
                        builder.append(", ");
                        proof {
                            reveal_strlit(", ");
                        }
                    }
                    proof {
                        assert(*v == (*self)->Array_0);
                        assert(decreases_to!(*self => (*self)->Array_0));
                        assert(decreases_to!(*v => v@));
                        assert(decreases_to!(v@ => v@[i as int]));
                    }
                    v[i].ol_build_str_ascii(reduced_ws, builder);
                    proof {
                        assert(builder@ =~= b0 + arr_open_seq(reduced_ws) + items_text_upto(
                            items,
                            i + 1 as int,
                            reduced_ws,
                        ));
                    }
                    i += 1;
                }
                builder.append(
                    if reduced_ws {
                        "]"
                    } else {
                        " ]"
                    },
                );
                proof {
                    reveal_strlit("]");
                    reveal_strlit(" ]");
                    assert(builder@ =~= b0 + one_line_text(model(*self), reduced_ws));
                }
            },
        }
    }

    /// Whether this tree already holds a `Linearized` node somewhere.
    /// Such a tree came out of the measurement pass; handing it back in
    /// as input is a usage error, which callers can detect here.
    pub fn is_annotated(&self) -> (r: bool)
        ensures
            r == !lin_free(model(*self)),
        decreases *self,
    {
        match self {
            Pretty::Text(_) => false,
            Pretty::Linearized(_, _) => true,
            Pretty::Record(x) => {
                proof {
                    lemma_model_items_index(x.children@, x.children@.len() as int);
                    lemma_field_models_index(x.fields@, x.fields@.len() as int);
                }
                let ghost mrec = record_model(*x);
                let nf = x.fields.len();
                let mut i: usize = 0;
                while i < nf
                    invariant
                        *self == Pretty::Record(*x),
                        i <= nf,
                        nf == x.fields@.len(),
                        mrec == record_model(*x),
                        mrec.fields.len() == nf,
                        forall|j: int| 0 <= j < nf ==> #[trigger] mrec.fields[j] == (
                            x.fields@[j].0@,
                            model(x.fields@[j].1),
                        ),
                        all_field_lin_free_upto(mrec.fields, i as int),
                    decreases nf - i,
                {
                    proof {
                        assert(decreases_to!(*self => *x));
                        assert(decreases_to!(*x => x.fields));
                        assert(decreases_to!(x.fields => x.fields@));
                        assert(decreases_to!(x.fields@ => x.fields@[i as int]));
                        assert(decreases_to!(x.fields@[i as int] => x.fields@[i as int].1));
                    }
                    let pair = &x.fields[i];
                    if pair.1.is_annotated() {
                        proof {
                            lemma_field_lin_free_break(mrec.fields, i as int, nf as int);
                        }
                        return true;
                    }
                    i += 1;
                }
                let nc = x.children.len();
                let mut k: usize = 0;
                while k < nc
                    invariant
                        *self == Pretty::Record(*x),
                        k <= nc,
                        nc == x.children@.len(),
                        mrec == record_model(*x),
                        mrec.children.len() == nc,
                        forall|j: int| 0 <= j < nc ==> #[trigger] mrec.children[j] == model(
                            x.children@[j],
                        ),
                        all_lin_free_upto(mrec.children, k as int),
                    decreases nc - k,
                {
                    proof {
                        assert(decreases_to!(*self => *x));
                        assert(decreases_to!(*x => x.children));
                        assert(decreases_to!(x.children => x.children@));
                        assert(decreases_to!(x.children@ => x.children@[k as int]));
                    }
                    if x.children[k].is_annotated() {
                        proof {
                            lemma_lin_free_break(mrec.children, k as int, nc as int);
                        }
                        return true;
                    }
                    k += 1;
                }
                false
            },
            Pretty::Array(v) => {
                proof {
                    lemma_model_items_index(v@, v@.len() as int);
                }
                let ghost items = model_items(v@, v@.len() as int);
                let n = v.len();
                let mut i: usize = 0;
                while i < n
                    invariant
                        *self == Pretty::Array(*v),
                        i <= n,
                        n == v@.len(),
                        items == model_items(v@, v@.len() as int),
                        items.len() == n,
                        forall|j: int| 0 <= j < n ==> #[trigger] items[j] == model(v@[j]),
                        all_lin_free_upto(items, i as int),
                    decreases n - i,
                {
                    proof {
                        assert(*v == (*self)->Array_0);
                        assert(decreases_to!(*self => (*self)->Array_0));
                        assert(decreases_to!(*v => v@));
                        assert(decreases_to!(v@ => v@[i as int]));
                    }
                    if v[i].is_annotated() {
                        proof {
                            lemma_lin_free_break(items, i as int, n as int);
                        }
                        return true;
                    }
                    i += 1;
                }
                false
            },
        }
    }

    /// The one-line rendering of this subtree, in normal spacing.
    pub fn to_one_line_string(&self) -> (r: String)
        ensures
            r@ == one_line_text(model(*self), false),
    {
        let mut builder = String::new();
        self.ol_build_str_ascii(false, &mut builder);
        builder
    }
}

} // verus!
