//! The plain bracket-and-brace rendering mode.
//!
//! `PrettyConfig::interesting_ascii` is the measurement pass: it walks the
//! tree with the accumulated indent and the columns already committed on
//! the current line, commits every subtree that fits on one line to a
//! `Linearized` node, and returns the annotated tree together with the
//! width the subtree requires.  `PrettyConfig::ascii` plans twice (the
//! second pass re-collapses subtrees once the discovered width is known)
//! and then renders.

use vstd::prelude::*;

use crate::buffer::{begin_seq, horizon_seq, pusheen_seq, spaces, umax, LinedBuffer};
use crate::model::{
    all_caches_upto, all_field_caches_upto, cap, caches_ok, colon_seq, has_kids, imax,
    lemma_all_caches_elem, lemma_all_field_caches_elem, lemma_field_models_index,
    lemma_len_matches_text, lemma_lin_free_caches_ok, lemma_model_items_index, lin_free, model,
    model_items, one_line_len, one_line_text, PrettyModel, RecordModel,
};
use crate::{Pretty, PrettyConfig, XmlNode};

verus! {

/// The measurement pass in ASCII mode.  `base` is the accumulated indent,
/// `start_add` the columns already committed before the subtree on its
/// first line (a field's `key: ` prefix), `end_add` those that must still
/// fit after it (a trailing comma).  Returns the annotated tree and the
/// width this subtree requires.
pub open spec fn plan_ascii(
    indent: int,
    width: int,
    red: bool,
    base: int,
    m: PrettyModel,
    start_add: int,
    end_add: int,
) -> (PrettyModel, int)
    decreases m, 2int,
{
    let flb = cap(base + start_add + end_add);
    let len = cap(one_line_len(m, red) + flb);
    if !has_kids(m) && len <= width {
        (
            PrettyModel::Linearized {
                text: one_line_text(m, red),
                width: one_line_len(m, red) as nat,
            },
            len,
        )
    } else {
        let next = cap(base + indent);
        match m {
            PrettyModel::Text { text } => (m, cap(text.len() + flb)),
            PrettyModel::Array { items } => if items.len() == 0 {
                (m, cap(flb + 2 + end_add))
            } else {
                (
                    PrettyModel::Array {
                        items: plan_ascii_items(indent, width, red, next, items,
                            items.len() as int),
                    },
                    plan_ascii_items_maxw(indent, width, red, next, items, items.len() as int),
                )
            },
            PrettyModel::Record { rec } => {
                let header = cap(rec.name.len() + flb + 2);
                let closing = cap(1 + end_add);
                let fil = len < width;
                let fpart = if fil {
                    len
                } else {
                    plan_ascii_fields_maxw(indent, width, red, next, rec.fields,
                        rec.fields.len() as int)
                };
                (
                    PrettyModel::Record {
                        rec: RecordModel {
                            name: rec.name,
                            fields: plan_ascii_fields(indent, width, red, next, rec.fields,
                                rec.fields.len() as int),
                            fields_is_linear: fil,
                            children: plan_ascii_children(indent, width, red, next, rec.children,
                                rec.children.len() as int),
                        },
                    },
                    imax(
                        imax(
                            plan_ascii_children_maxw(indent, width, red, next, rec.children,
                                rec.children.len() as int),
                            imax(header, closing),
                        ),
                        fpart,
                    ),
                )
            },
            PrettyModel::Linearized { width: w, .. } => (m, cap(w as int)),
        }
    }
}

/// The first `i` array elements, each planned with a one-column trailing
/// allowance (every element might be followed by a comma).
pub open spec fn plan_ascii_items(
    indent: int,
    width: int,
    red: bool,
    next: int,
    s: Seq<PrettyModel>,
    i: int,
) -> Seq<PrettyModel>
    decreases s, i,
{
    if i <= 0 || i > s.len() {
        Seq::empty()
    } else {
        plan_ascii_items(indent, width, red, next, s, i - 1).push(
            plan_ascii(indent, width, red, next, s[i - 1], 0, 1).0,
        )
    }
}

/// The widest required width among the first `i` planned array elements.
pub open spec fn plan_ascii_items_maxw(
    indent: int,
    width: int,
    red: bool,
    next: int,
    s: Seq<PrettyModel>,
    i: int,
) -> int
    decreases s, i,
{
    if i <= 0 || i > s.len() {
        0
    } else {
        imax(
            plan_ascii_items_maxw(indent, width, red, next, s, i - 1),
            plan_ascii(indent, width, red, next, s[i - 1], 0, 1).1,
        )
    }
}

/// The first `i` record children, planned with a trailing comma allowance
/// for all but the last child.
pub open spec fn plan_ascii_children(
    indent: int,
    width: int,
    red: bool,
    next: int,
    s: Seq<PrettyModel>,
    i: int,
) -> Seq<PrettyModel>
    decreases s, i,
{
    if i <= 0 || i > s.len() {
        Seq::empty()
    } else {
        let e: int = if i - 1 < s.len() - 1 {
            1
        } else {
            0
        };
        plan_ascii_children(indent, width, red, next, s, i - 1).push(
            plan_ascii(indent, width, red, next, s[i - 1], 0, e).0,
        )
    }
}

/// The widest required width among the first `i` planned record children.
pub open spec fn plan_ascii_children_maxw(
    indent: int,
    width: int,
    red: bool,
    next: int,
    s: Seq<PrettyModel>,
    i: int,
) -> int
    decreases s, i,
{
    if i <= 0 || i > s.len() {
        0
    } else {
        let e: int = if i - 1 < s.len() - 1 {
            1
        } else {
            0
        };
        imax(
            plan_ascii_children_maxw(indent, width, red, next, s, i - 1),
            plan_ascii(indent, width, red, next, s[i - 1], 0, e).1,
        )
    }
}

/// The first `i` record fields, each value planned with its `key: `
/// prefix committed and a trailing comma allowance for all but the last.
pub open spec fn plan_ascii_fields(
    indent: int,
    width: int,
    red: bool,
    next: int,
    s: Seq<(Seq<char>, PrettyModel)>,
    i: int,
) -> Seq<(Seq<char>, PrettyModel)>
    decreases s, i,
{
    if i <= 0 || i > s.len() {
        Seq::empty()
    } else {
        let e: int = if i - 1 < s.len() - 1 {
            1
        } else {
            0
        };
        plan_ascii_fields(indent, width, red, next, s, i - 1).push(
            (s[i - 1].0, plan_ascii(indent, width, red, next, s[i - 1].1, cap(
                s[i - 1].0.len() + 2int,
            ), e).0),
        )
    }
}

/// The widest required width among the first `i` planned record fields.
pub open spec fn plan_ascii_fields_maxw(
    indent: int,
    width: int,
    red: bool,
    next: int,
    s: Seq<(Seq<char>, PrettyModel)>,
    i: int,
) -> int
    decreases s, i,
{
    if i <= 0 || i > s.len() {
        0
    } else {
        let e: int = if i - 1 < s.len() - 1 {
            1
        } else {
            0
        };
        imax(
            plan_ascii_fields_maxw(indent, width, red, next, s, i - 1),
            plan_ascii(indent, width, red, next, s[i - 1].1, cap(s[i - 1].0.len() + 2int), e).1,
        )
    }
}

pub proof fn lemma_plan_ascii_items_index(
    indent: int,
    width: int,
    red: bool,
    next: int,
    s: Seq<PrettyModel>,
    i: int,
)
    requires
        0 <= i <= s.len(),
    ensures
        plan_ascii_items(indent, width, red, next, s, i).len() == i,
        forall|j: int|
            0 <= j < i ==> plan_ascii_items(indent, width, red, next, s, i)[j] == plan_ascii(
                indent,
                width,
                red,
                next,
                s[j],
                0,
                1,
            ).0,
    decreases i,
{
    if i > 0 {
        lemma_plan_ascii_items_index(indent, width, red, next, s, i - 1);
    }
}

pub proof fn lemma_plan_ascii_children_index(
    indent: int,
    width: int,
    red: bool,
    next: int,
    s: Seq<PrettyModel>,
    i: int,
)
    requires
        0 <= i <= s.len(),
    ensures
        plan_ascii_children(indent, width, red, next, s, i).len() == i,
        forall|j: int|
            0 <= j < i ==> plan_ascii_children(indent, width, red, next, s, i)[j] == plan_ascii(
                indent,
                width,
                red,
                next,
                s[j],
                0,
                if j < s.len() - 1 {
                    1int
                } else {
                    0int
                },
            ).0,
    decreases i,
{
    if i > 0 {
        lemma_plan_ascii_children_index(indent, width, red, next, s, i - 1);
    }
}

pub proof fn lemma_plan_ascii_fields_index(
    indent: int,
    width: int,
    red: bool,
    next: int,
    s: Seq<(Seq<char>, PrettyModel)>,
    i: int,
)
    requires
        0 <= i <= s.len(),
    ensures
        plan_ascii_fields(indent, width, red, next, s, i).len() == i,
        forall|j: int|
            0 <= j < i ==> plan_ascii_fields(indent, width, red, next, s, i)[j] == (
                s[j].0,
                plan_ascii(
                    indent,
                    width,
                    red,
                    next,
                    s[j].1,
                    cap(s[j].0.len() + 2int),
                    if j < s.len() - 1 {
                        1int
                    } else {
                        0int
                    },
                ).0,
            ),
    decreases i,
{
    if i > 0 {
        lemma_plan_ascii_fields_index(indent, width, red, next, s, i - 1);
    }
}

impl PrettyConfig {
    /// The executable measurement pass in ASCII mode: returns the
    /// annotated tree and the width the subtree requires, exactly as
    /// `plan_ascii` describes.
    pub(crate) fn interesting_ascii(
        &self,
        base_indent: usize,
        pretty: &Pretty,
        start_add: usize,
        end_add: usize,
    ) -> (r: (Pretty, usize))
        requires
            caches_ok(model(*pretty)),
        ensures
            model(r.0) == plan_ascii(
                self.indent as int,
                self.width as int,
                self.reduced_spaces,
                base_indent as int,
                model(*pretty),
                start_add as int,
                end_add as int,
            ).0,
            r.1 as int == plan_ascii(
                self.indent as int,
                self.width as int,
                self.reduced_spaces,
                base_indent as int,
                model(*pretty),
                start_add as int,
                end_add as int,
            ).1,
            caches_ok(model(r.0)),
        decreases *pretty,
    {
        let ghost m = model(*pretty);
        let ghost ispec = self.indent as int;
        let ghost wspec = self.width as int;
        let red = self.reduced_spaces;
        let first_line_base = base_indent.saturating_add(start_add).saturating_add(end_add);
        let ol_len = pretty.ol_len(red);
        let len = ol_len.saturating_add(first_line_base);
        if !pretty.has_children() && len <= self.width {
            let mut text = String::new();
            pretty.ol_build_str_ascii(red, &mut text);
            let _tl = text.as_str().unicode_len();
            proof {
                lemma_len_matches_text(m, red);
            }
            return (Pretty::Linearized(text, ol_len), len);
        }
        let next_indent = base_indent.saturating_add(self.indent);
        match pretty {
            Pretty::Text(s) => {
                let l = s.as_str().unicode_len().saturating_add(first_line_base);
                (Pretty::Text(s.clone()), l)
            },
            Pretty::Linearized(s, l) => (Pretty::Linearized(s.clone(), *l), *l),
            Pretty::Array(v) => {
                proof {
                    lemma_model_items_index(v@, v@.len() as int);
                }
                let ghost mitems = model_items(v@, v@.len() as int);
                if v.len() == 0 {
                    let w = first_line_base.saturating_add(2).saturating_add(end_add);
                    let r0 = Pretty::Array(Vec::new());
                    proof {
                        assert(model(r0) =~= m);
                    }
                    return (r0, w);
                }
                let ghost planned = plan_ascii_items(ispec, wspec, red, next_indent as int, mitems,
                    mitems.len() as int);
                proof {
                    lemma_plan_ascii_items_index(ispec, wspec, red, next_indent as int, mitems,
                        mitems.len() as int);
                }
                let n = v.len();
                let mut out_items: Vec<Pretty> = Vec::new();
                let mut maxw: usize = 0;
                let mut i: usize = 0;
                while i < n
                    invariant
                        ispec == self.indent as int,
                        wspec == self.width as int,
                        red == self.reduced_spaces,
                        *pretty == Pretty::Array(*v),
                        caches_ok(m),
                        i <= n,
                        n == v@.len(),
                        m == (PrettyModel::Array { items: mitems }),
                        mitems == model_items(v@, v@.len() as int),
                        mitems.len() == n,
                        forall|j: int| 0 <= j < n ==> #[trigger] mitems[j] == model(v@[j]),
                        planned == plan_ascii_items(ispec, wspec, red, next_indent as int, mitems,
                            mitems.len() as int),
                        planned.len() == n,
                        forall|j: int|
                            0 <= j < n ==> #[trigger] planned[j] == plan_ascii(ispec, wspec, red,
                                next_indent as int, mitems[j], 0, 1).0,
                        out_items@.len() == i,
                        forall|j: int|
                            0 <= j < i ==> model(#[trigger] out_items@[j]) == planned[j],
                        all_caches_upto(planned, i as int),
                        maxw as int == plan_ascii_items_maxw(ispec, wspec, red, next_indent as int,
                            mitems, i as int),
                    decreases n - i,
                {
                    proof {
                        assert(*v == (*pretty)->Array_0);
                        assert(decreases_to!(*pretty => (*pretty)->Array_0));
                        assert(decreases_to!(*v => v@));
                        assert(decreases_to!(v@ => v@[i as int]));
                        lemma_all_caches_elem(mitems, n as int, i as int);
                    }
                    let (t, w) = self.interesting_ascii(next_indent, &v[i], 0, 1);
                    out_items.push(t);
                    maxw = umax(maxw, w);
                    i += 1;
                }
                let r0 = Pretty::Array(out_items);
                proof {
                    lemma_model_items_index(out_items@, out_items@.len() as int);
                    assert(model_items(out_items@, out_items@.len() as int) =~= planned);
                    assert(model(r0) =~= plan_ascii(ispec, wspec, red, base_indent as int, m,
                        start_add as int, end_add as int).0);
                }
                (r0, maxw)
            },
            Pretty::Record(xml) => {
                proof {
                    lemma_model_items_index(xml.children@, xml.children@.len() as int);
                    lemma_field_models_index(xml.fields@, xml.fields@.len() as int);
                }
                let ghost mrec = crate::model::record_model(*xml);
                let ghost mkids = mrec.children;
                let ghost mflds = mrec.fields;
                let name_len = xml.name.as_str().unicode_len();
                let header = name_len.saturating_add(first_line_base).saturating_add(2);
                let closing = 1usize.saturating_add(end_add);
                let ghost planned_kids = plan_ascii_children(ispec, wspec, red, next_indent as int,
                    mkids, mkids.len() as int);
                let ghost planned_flds = plan_ascii_fields(ispec, wspec, red, next_indent as int,
                    mflds, mflds.len() as int);
                proof {
                    lemma_plan_ascii_children_index(ispec, wspec, red, next_indent as int, mkids,
                        mkids.len() as int);
                    lemma_plan_ascii_fields_index(ispec, wspec, red, next_indent as int, mflds,
                        mflds.len() as int);
                }
                let nc = xml.children.len();
                let mut out_children: Vec<Pretty> = Vec::new();
                let mut cw: usize = 0;
                let mut i: usize = 0;
                while i < nc
                    invariant
                        ispec == self.indent as int,
                        wspec == self.width as int,
                        red == self.reduced_spaces,
                        *pretty == Pretty::Record(*xml),
                        caches_ok(m),
                        i <= nc,
                        nc == xml.children@.len(),
                        m == (PrettyModel::Record { rec: mrec }),
                        mrec == crate::model::record_model(*xml),
                        mkids == mrec.children,
                        mkids.len() == nc,
                        forall|j: int| 0 <= j < nc ==> #[trigger] mkids[j] == model(
                            xml.children@[j],
                        ),
                        planned_kids == plan_ascii_children(ispec, wspec, red, next_indent as int,
                            mkids, mkids.len() as int),
                        planned_kids.len() == nc,
                        forall|j: int|
                            0 <= j < nc ==> #[trigger] planned_kids[j] == plan_ascii(ispec, wspec,
                                red, next_indent as int, mkids[j], 0, if j < nc - 1 {
                                    1int
                                } else {
                                    0int
                                }).0,
                        out_children@.len() == i,
                        forall|j: int|
                            0 <= j < i ==> model(#[trigger] out_children@[j]) == planned_kids[j],
                        all_caches_upto(planned_kids, i as int),
                        cw as int == plan_ascii_children_maxw(ispec, wspec, red,
                            next_indent as int, mkids, i as int),
                    decreases nc - i,
                {
                    proof {
                        assert(*xml == (*pretty)->Record_0);
                        assert(decreases_to!(*pretty => (*pretty)->Record_0));
                        assert(decreases_to!(*xml => xml.children));
                        assert(decreases_to!(xml.children => xml.children@));
                        assert(decreases_to!(xml.children@ => xml.children@[i as int]));
                        lemma_all_caches_elem(mkids, nc as int, i as int);
                    }
                    let at_the_end: usize = if i < nc - 1 {
                        1
                    } else {
                        0
                    };
                    let (t, w) = self.interesting_ascii(next_indent, &xml.children[i], 0,
                        at_the_end);
                    out_children.push(t);
                    cw = umax(cw, w);
                    i += 1;
                }
                let nf = xml.fields.len();
                let mut out_fields: Vec<(String, Pretty)> = Vec::new();
                let mut fw: usize = 0;
                let mut k: usize = 0;
                while k < nf
                    invariant
                        ispec == self.indent as int,
                        wspec == self.width as int,
                        red == self.reduced_spaces,
                        *pretty == Pretty::Record(*xml),
                        caches_ok(m),
                        k <= nf,
                        nf == xml.fields@.len(),
                        m == (PrettyModel::Record { rec: mrec }),
                        mrec == crate::model::record_model(*xml),
                        mflds == mrec.fields,
                        mflds.len() == nf,
                        forall|j: int| 0 <= j < nf ==> #[trigger] mflds[j] == (
                            xml.fields@[j].0@,
                            model(xml.fields@[j].1),
                        ),
                        planned_flds == plan_ascii_fields(ispec, wspec, red, next_indent as int,
                            mflds, mflds.len() as int),
                        planned_flds.len() == nf,
                        forall|j: int|
                            0 <= j < nf ==> #[trigger] planned_flds[j] == (
                                mflds[j].0,
                                plan_ascii(ispec, wspec, red, next_indent as int, mflds[j].1,
                                    cap(mflds[j].0.len() + 2int), if j < nf - 1 {
                                        1int
                                    } else {
                                        0int
                                    }).0,
                            ),
                        out_fields@.len() == k,
                        forall|j: int|
                            0 <= j < k ==> (#[trigger] out_fields@[j]).0@ == planned_flds[j].0
                                && model(out_fields@[j].1) == planned_flds[j].1,
                        all_field_caches_upto(planned_flds, k as int),
                        fw as int == plan_ascii_fields_maxw(ispec, wspec, red, next_indent as int,
                            mflds, k as int),
                    decreases nf - k,
                {
                    proof {
                        assert(*xml == (*pretty)->Record_0);
                        assert(decreases_to!(*pretty => (*pretty)->Record_0));
                        assert(decreases_to!(*xml => xml.fields));
                        assert(decreases_to!(xml.fields => xml.fields@));
                        assert(decreases_to!(xml.fields@ => xml.fields@[k as int]));
                        assert(decreases_to!(xml.fields@[k as int] => xml.fields@[k as int].1));
                        lemma_all_field_caches_elem(mflds, nf as int, k as int);
                    }
                    let at_the_end: usize = if k < nf - 1 {
                        1
                    } else {
                        0
                    };
                    let pair = &xml.fields[k];
                    let key_len = pair.0.as_str().unicode_len();
                    let start = key_len.saturating_add(2);
                    let (t, w) = self.interesting_ascii(next_indent, &pair.1, start, at_the_end);
                    let key = pair.0.clone();
                    out_fields.push((key, t));
                    fw = umax(fw, w);
                    k += 1;
                }
                let fields_is_linear = len < self.width;
                let fpart = if fields_is_linear {
                    len
                } else {
                    fw
                };
                let w = umax(umax(cw, umax(header, closing)), fpart);
                let node = XmlNode {
                    name: xml.name.clone(),
                    fields: out_fields,
                    fields_is_linear,
                    children: out_children,
                };
                let r0 = Pretty::Record(node);
                proof {
                    lemma_model_items_index(node.children@, node.children@.len() as int);
                    lemma_field_models_index(node.fields@, node.fields@.len() as int);
                    assert(model_items(node.children@, node.children@.len() as int)
                        =~= planned_kids);
                    assert(crate::model::field_models(node.fields@, node.fields@.len() as int)
                        =~= planned_flds);
                    assert(crate::model::record_model(node) =~= plan_ascii(ispec, wspec, red,
                        base_indent as int, m, start_add as int, end_add as int).0->Record_rec);
                }
                (r0, w)
            },
        }
    }
}


/// The rendering pass in ASCII mode: the text emitted for an annotated
/// subtree at indent `self_ind` with `occ` columns of its first line
/// already occupied, and the occupied-column count after it.
pub open spec fn rend_ascii(
    bnd: bool,
    w: int,
    indent: int,
    m: PrettyModel,
    self_ind: int,
    occ: int,
) -> (Seq<char>, int)
    decreases m, 2int,
{
    match m {
        PrettyModel::Text { text } => (text, cap(occ + text.len())),
        PrettyModel::Linearized { text, width } => (text, cap(occ + cap(width as int))),
        PrettyModel::Array { items } => {
            if items.len() == 0 {
                (seq!['[', ']'], cap(occ + 2))
            } else {
                let ind_len = cap(self_ind + indent);
                (
                    seq!['['] + pusheen_seq(bnd, w, cap(occ + 1)) + rend_ascii_items(bnd, w,
                        indent, items, ind_len, items.len() as int) + begin_seq(bnd) + spaces(
                        self_ind,
                    ) + seq![']'],
                    cap(self_ind + 1),
                )
            }
        },
        PrettyModel::Record { rec } => {
            let ind_len = cap(self_ind + indent);
            let kids = rend_ascii_kids(bnd, w, indent, rec.children, ind_len,
                rec.children.len() as int, cap(self_ind + 1));
            (
                rec.name + seq![' ', '{'] + pusheen_seq(bnd, w, cap(occ + rec.name.len() + 2))
                    + rend_ascii_fields(bnd, w, indent, rec.fields, ind_len,
                    rec.fields.len() as int) + begin_seq(bnd) + spaces(self_ind) + seq!['}']
                    + kids.0,
                kids.1,
            )
        },
    }
}

/// The lines of the first `i` array elements: each on its own line at
/// `ind_len`, comma-suffixed except the last, then closed.
pub open spec fn rend_ascii_items(
    bnd: bool,
    w: int,
    indent: int,
    s: Seq<PrettyModel>,
    ind_len: int,
    i: int,
) -> Seq<char>
    decreases s, i,
{
    if i <= 0 || i > s.len() {
        Seq::empty()
    } else {
        let body = rend_ascii(bnd, w, indent, s[i - 1], ind_len, cap(ind_len));
        let occ2 = if i - 1 < s.len() - 1 {
            cap(body.1 + 1)
        } else {
            body.1
        };
        rend_ascii_items(bnd, w, indent, s, ind_len, i - 1) + begin_seq(bnd) + spaces(ind_len)
            + body.0 + (if i - 1 < s.len() - 1 {
            seq![',']
        } else {
            Seq::empty()
        }) + pusheen_seq(bnd, w, occ2)
    }
}

/// The lines of the first `i` record fields: each `key: value` on its own
/// line at `ind_len`, comma-suffixed except the last, then closed.
pub open spec fn rend_ascii_fields(
    bnd: bool,
    w: int,
    indent: int,
    s: Seq<(Seq<char>, PrettyModel)>,
    ind_len: int,
    i: int,
) -> Seq<char>
    decreases s, i,
{
    if i <= 0 || i > s.len() {
        Seq::empty()
    } else {
        let body = rend_ascii(bnd, w, indent, s[i - 1].1, ind_len, cap(
            cap(cap(ind_len) + s[i - 1].0.len()) + 2,
        ));
        let occ2 = if i - 1 < s.len() - 1 {
            cap(body.1 + 1)
        } else {
            body.1
        };
        rend_ascii_fields(bnd, w, indent, s, ind_len, i - 1) + begin_seq(bnd) + spaces(ind_len)
            + s[i - 1].0 + colon_seq() + body.0 + (if i - 1 < s.len() - 1 {
            seq![',']
        } else {
            Seq::empty()
        }) + pusheen_seq(bnd, w, occ2)
    }
}

/// The first `i` record children: each closes the line before it, then
/// renders on a fresh line at `ind_len`.  `occ0` is the occupied count of
/// the line open before the first child; the result carries the occupied
/// count after the last child.
pub open spec fn rend_ascii_kids(
    bnd: bool,
    w: int,
    indent: int,
    s: Seq<PrettyModel>,
    ind_len: int,
    i: int,
    occ0: int,
) -> (Seq<char>, int)
    decreases s, i,
{
    if i <= 0 || i > s.len() {
        (Seq::empty(), occ0)
    } else {
        let pre = rend_ascii_kids(bnd, w, indent, s, ind_len, i - 1, occ0);
        let body = rend_ascii(bnd, w, indent, s[i - 1], ind_len, cap(ind_len));
        (
            pre.0 + pusheen_seq(bnd, w, pre.1) + begin_seq(bnd) + spaces(ind_len) + body.0,
            body.1,
        )
    }
}

impl LinedBuffer {
    /// Render an annotated subtree in ASCII mode, exactly as `rend_ascii`
    /// describes.
    #[verifier::rlimit(80)]
    #[verifier::spinoff_prover]
    pub(crate) fn line_ascii(&mut self, pretty: &Pretty, self_indent_len: usize)
        ensures
            final(self).out@ == old(self).out@ + rend_ascii(
                old(self).config.need_boundaries,
                old(self).width as int,
                old(self).config.indent as int,
                model(*pretty),
                self_indent_len as int,
                old(self).already_occupied as int,
            ).0,
            final(self).already_occupied as int == rend_ascii(
                old(self).config.need_boundaries,
                old(self).width as int,
                old(self).config.indent as int,
                model(*pretty),
                self_indent_len as int,
                old(self).already_occupied as int,
            ).1,
            final(self).width == old(self).width,
            final(self).config == old(self).config,
        decreases *pretty,
    {
        let ghost bnd = self.config.need_boundaries;
        let ghost w = self.width as int;
        let ghost ind = self.config.indent as int;
        let ghost out0 = self.out@;
        let ghost occ0 = self.already_occupied as int;
        let indent_len = self_indent_len.saturating_add(self.config.indent);
        match pretty {
            Pretty::Text(s) => {
                self.push(s.as_str());
            },
            Pretty::Linearized(s, ol_len) => {
                self.out.append(s.as_str());
                self.already_occupied = self.already_occupied.saturating_add(*ol_len);
            },
            Pretty::Array(v) => {
                proof {
                    lemma_model_items_index(v@, v@.len() as int);
                }
                let ghost mitems = model_items(v@, v@.len() as int);
                self.push("[");
                proof {
                    reveal_strlit("[");
                }
                if v.len() == 0 {
                    self.push("]");
                    proof {
                        reveal_strlit("]");
                        assert(self.out@ =~= out0 + seq!['[', ']']);
                    }
                    return ;
                }
                self.pusheen();
                let n = v.len();
                let mut i: usize = 0;
                while i < n
                    invariant
                        bnd == self.config.need_boundaries,
                        w == self.width as int,
                        ind == self.config.indent as int,
                        *pretty == Pretty::Array(*v),
                        i <= n,
                        n == v@.len(),
                        mitems == model_items(v@, v@.len() as int),
                        mitems.len() == n,
                        forall|j: int| 0 <= j < n ==> #[trigger] mitems[j] == model(v@[j]),
                        indent_len as int == cap(self_indent_len as int + ind),
                        self.out@ == out0 + seq!['['] + pusheen_seq(bnd, w, cap(occ0 + 1))
                            + rend_ascii_items(bnd, w, ind, mitems, indent_len as int, i as int),
                        self.already_occupied == 0,
                        self.width == old(self).width,
                        self.config == old(self).config,
                    decreases n - i,
                {
                    self.begin_line();
                    self.pip(indent_len);
                    proof {
                        assert(*v == (*pretty)->Array_0);
                        assert(decreases_to!(*pretty => (*pretty)->Array_0));
                        assert(decreases_to!(*v => v@));
                        assert(decreases_to!(v@ => v@[i as int]));
                    }
                    self.line_ascii(&v[i], indent_len);
                    if i < n - 1 {
                        self.push(",");
                        proof {
                            reveal_strlit(",");
                        }
                    }
                    self.pusheen();
                    proof {
                        assert(self.out@ =~= out0 + seq!['['] + pusheen_seq(bnd, w, cap(occ0 + 1))
                            + rend_ascii_items(bnd, w, ind, mitems, indent_len as int, i + 1));
                    }
                    i += 1;
                }
                self.begin_line();
                self.pip(self_indent_len);
                self.push("]");
                proof {
                    reveal_strlit("]");
                    assert(self.out@ =~= out0 + rend_ascii(bnd, w, ind, model(*pretty),
                        self_indent_len as int, occ0).0);
                }
            },
            Pretty::Record(xml) => {
                proof {
                    assert(*xml == (*pretty)->Record_0);
                    assert(decreases_to!(*pretty => (*pretty)->Record_0));
                }
                self.line_ascii_xml(xml, indent_len, self_indent_len);
            },
        }
    }

    /// Render an annotated record in ASCII mode: `Name {`, one field per
    /// line, `}`, then each child on its own line beneath it.
    #[verifier::rlimit(100)]
    #[verifier::spinoff_prover]
    pub(crate) fn line_ascii_xml(&mut self, xml: &XmlNode, indent_len: usize, self_indent_len: usize)
        requires
            indent_len as int == cap(self_indent_len as int + old(self).config.indent as int),
        ensures
            final(self).out@ == old(self).out@ + rend_ascii(
                old(self).config.need_boundaries,
                old(self).width as int,
                old(self).config.indent as int,
                PrettyModel::Record { rec: crate::model::record_model(*xml) },
                self_indent_len as int,
                old(self).already_occupied as int,
            ).0,
            final(self).already_occupied as int == rend_ascii(
                old(self).config.need_boundaries,
                old(self).width as int,
                old(self).config.indent as int,
                PrettyModel::Record { rec: crate::model::record_model(*xml) },
                self_indent_len as int,
                old(self).already_occupied as int,
            ).1,
            final(self).width == old(self).width,
            final(self).config == old(self).config,
        decreases *xml,
    {
        let ghost bnd = self.config.need_boundaries;
        let ghost w = self.width as int;
        let ghost ind = self.config.indent as int;
        let ghost out0 = self.out@;
        let ghost occ0 = self.already_occupied as int;
        let ghost mrec = crate::model::record_model(*xml);
        proof {
            lemma_model_items_index(xml.children@, xml.children@.len() as int);
            lemma_field_models_index(xml.fields@, xml.fields@.len() as int);
        }
        let ghost mkids = mrec.children;
        let ghost mflds = mrec.fields;
        self.push(xml.name.as_str());
        self.push(" {");
        self.pusheen();
        proof {
            reveal_strlit(" {");
            assert(self.out@ =~= out0 + mrec.name + seq![' ', '{'] + pusheen_seq(bnd, w, cap(
                occ0 + mrec.name.len() + 2,
            )));
        }
        let ghost head = self.out@;
        let nf = xml.fields.len();
        let mut i: usize = 0;
        while i < nf
            invariant
                bnd == self.config.need_boundaries,
                w == self.width as int,
                ind == self.config.indent as int,
                i <= nf,
                nf == xml.fields@.len(),
                mrec == crate::model::record_model(*xml),
                mflds == mrec.fields,
                mflds.len() == nf,
                forall|j: int| 0 <= j < nf ==> #[trigger] mflds[j] == (
                    xml.fields@[j].0@,
                    model(xml.fields@[j].1),
                ),
                indent_len as int == cap(self_indent_len as int + ind),
                self.out@ == head + rend_ascii_fields(bnd, w, ind, mflds, indent_len as int,
                    i as int),
                self.already_occupied == 0,
                self.width == old(self).width,
                self.config == old(self).config,
            decreases nf - i,
        {
            self.begin_line();
            self.pip(indent_len);
            let pair = &xml.fields[i];
            self.push(pair.0.as_str());
            self.push(": ");
            proof {
                reveal_strlit(": ");
                assert(decreases_to!(*xml => xml.fields));
                assert(decreases_to!(xml.fields => xml.fields@));
                assert(decreases_to!(xml.fields@ => xml.fields@[i as int]));
                assert(decreases_to!(xml.fields@[i as int] => xml.fields@[i as int].1));
            }
            self.line_ascii(&pair.1, indent_len);
            if i < nf - 1 {
                self.push(",");
                proof {
                    reveal_strlit(",");
                }
            }
            self.pusheen();
            proof {
                assert(self.out@ =~= head + rend_ascii_fields(bnd, w, ind, mflds,
                    indent_len as int, i + 1));
            }
            i += 1;
        }
        self.begin_line();
        self.pip(self_indent_len);
        self.push("}");
        proof {
            reveal_strlit("}");
            assert(self.out@ =~= head + rend_ascii_fields(bnd, w, ind, mflds, indent_len as int,
                nf as int) + begin_seq(bnd) + spaces(self_indent_len as int) + seq!['}']);
        }
        let ghost braced = self.out@;
        let nc = xml.children.len();
        let mut k: usize = 0;
        while k < nc
            invariant
                bnd == self.config.need_boundaries,
                w == self.width as int,
                ind == self.config.indent as int,
                k <= nc,
                nc == xml.children@.len(),
                mrec == crate::model::record_model(*xml),
                mkids == mrec.children,
                mkids.len() == nc,
                forall|j: int| 0 <= j < nc ==> #[trigger] mkids[j] == model(xml.children@[j]),
                indent_len as int == cap(self_indent_len as int + ind),
                self.out@ == braced + rend_ascii_kids(bnd, w, ind, mkids, indent_len as int,
                    k as int, cap(self_indent_len as int + 1)).0,
                self.already_occupied as int == rend_ascii_kids(bnd, w, ind, mkids,
                    indent_len as int, k as int, cap(self_indent_len as int + 1)).1,
                self.width == old(self).width,
                self.config == old(self).config,
            decreases nc - k,
        {
            self.pusheen();
            self.begin_line();
            self.pip(indent_len);
            proof {
                assert(decreases_to!(*xml => xml.children));
                assert(decreases_to!(xml.children => xml.children@));
                assert(decreases_to!(xml.children@ => xml.children@[k as int]));
            }
            self.line_ascii(&xml.children[k], indent_len);
            proof {
                assert(self.out@ =~= braced + rend_ascii_kids(bnd, w, ind, mkids,
                    indent_len as int, k + 1, cap(self_indent_len as int + 1)).0);
            }
            k += 1;
        }
        proof {
            assert(self.out@ =~= out0 + rend_ascii(bnd, w, ind, PrettyModel::Record { rec: mrec },
                self_indent_len as int, occ0).0);
        }
    }
}

/// The full output of one ASCII render: plan at the configured width,
/// re-plan at the width so discovered, then render between horizontal
/// rules when boundaries are drawn.
pub open spec fn ascii_output(cfg: PrettyConfig, m: PrettyModel) -> Seq<char> {
    let pass1 = plan_ascii(cfg.indent as int, cfg.width as int, cfg.reduced_spaces, 0, m, 0, 0);
    let pass2 = plan_ascii(cfg.indent as int, pass1.1, cfg.reduced_spaces, 0, pass1.0, 0, 0);
    let bnd = cfg.need_boundaries;
    let body = rend_ascii(bnd, pass2.1, cfg.indent as int, pass2.0, 0, 0);
    horizon_seq(bnd, pass2.1) + (if bnd {
        seq!['\n']
    } else {
        Seq::empty()
    }) + begin_seq(bnd) + body.0 + (if bnd {
        pusheen_seq(bnd, pass2.1, body.1)
    } else {
        Seq::empty()
    }) + horizon_seq(bnd, pass2.1)
}

impl PrettyConfig {
    /// Render `pretty` in ASCII mode into `out`.  Plans once to discover
    /// the natural width (stored in `self.width`), re-plans at that
    /// width, and renders; the appended text is exactly `ascii_output` of
    /// the configuration as given.  The input tree must not already be
    /// annotated.
    pub fn ascii(&mut self, out: &mut String, pretty: &Pretty)
        requires
            lin_free(model(*pretty)),
        ensures
            final(out)@ == old(out)@ + ascii_output(*old(self), model(*pretty)),
            final(self).width as int == plan_ascii(
                old(self).indent as int,
                old(self).width as int,
                old(self).reduced_spaces,
                0,
                model(*pretty),
                0,
                0,
            ).1,
            final(self).indent == old(self).indent,
            final(self).need_boundaries == old(self).need_boundaries,
            final(self).reduced_spaces == old(self).reduced_spaces,
    {
        proof {
            lemma_lin_free_caches_ok(model(*pretty));
        }
        let (p1, w1) = self.interesting_ascii(0, pretty, 0, 0);
        self.width = w1;
        let (p2, w2) = self.interesting_ascii(0, &p1, 0, 0);
        let mut dat = LinedBuffer {
            out: String::new(),
            width: w2,
            config: *self,
            already_occupied: 0,
        };
        self.horizon(&mut dat.out, w2);
        if self.need_boundaries {
            dat.out.append("\n");
            proof {
                reveal_strlit("\n");
            }
        }
        dat.begin_line();
        dat.line_ascii(&p2, 0);
        if self.need_boundaries {
            dat.pusheen();
        }
        self.horizon(&mut dat.out, w2);
        proof {
            assert(dat.out@ =~= ascii_output(*old(self), model(*pretty)));
        }
        out.append(dat.out.as_str());
    }
}

} // verus!
