//! The Unicode box-drawing tree rendering mode.
//!
//! Measurement works as in ASCII mode, with two differences: an array of
//! exactly one element collapses to that element, and a record whose own
//! one-line form fits (and whose field values have no breakable children)
//! keeps its whole field block on one line even while its children are
//! still listed beneath it (`fields_is_linear`).  Rendering replaces
//! indentation with accumulated prefix strings built from four
//! box-drawing glyphs, threaded down the recursion, with tee connectors
//! before entries that more entries follow and a corner connector before
//! the last.  All glyphs are assumed to occupy one display column.

use vstd::prelude::*;

use crate::buffer::{begin_seq, horizon_seq, pusheen_seq, umax, LinedBuffer};
use crate::model::{
    all_caches_upto, all_field_caches_upto, any_field_kids_upto, cap, caches_ok, has_kids, imax,
    lemma_all_caches_elem, lemma_all_field_caches_elem, lemma_append_empty,
    lemma_field_models_index, lemma_len_matches_text, lemma_lin_free_caches_ok,
    lemma_model_items_index, lemma_prepend_assoc, lin_free, model, model_items, one_line_len,
    one_line_text, record_has_kids, record_len, record_text, PrettyModel, RecordModel,
};
use crate::{Pretty, PrettyConfig, XmlNode};

verus! {

/// The measurement pass in Unicode mode.  `additional` plays the role of
/// both offsets of the ASCII planner: columns committed around the
/// subtree on its first line.  Returns the annotated tree and the width
/// the subtree requires.
pub open spec fn plan_uni(
    indent: int,
    width: int,
    red: bool,
    base: int,
    m: PrettyModel,
    additional: int,
) -> (PrettyModel, int)
    decreases m, 2int,
{
    let flb = cap(base + additional);
    let len = cap(one_line_len(m, red) + flb);
    if !has_kids(m) && len <= width {
        (
            PrettyModel::Linearized {
                text: one_line_text(m, red),
                width: one_line_len(m, red) as nat,
            },
            len,
        )
    } else {
        let next = cap(base + indent);
        match m {
            PrettyModel::Text { text } => (m, cap(text.len() + flb)),
            PrettyModel::Array { items } => if items.len() == 1 {
                plan_uni(indent, width, red, base, items[0], additional)
            } else if items.len() == 0 {
                (m, cap(flb + 2))
            } else {
                (
                    PrettyModel::Array {
                        items: plan_uni_seq(indent, width, red, next, items, items.len() as int),
                    },
                    plan_uni_seq_maxw(indent, width, red, next, items, items.len() as int),
                )
            },
            PrettyModel::Record { rec } => {
                let header = cap(rec.name.len() + flb);
                let fil = rec.fields_is_linear || (len < width && !any_field_kids_upto(
                    rec.fields,
                    rec.fields.len() as int,
                ));
                let fpart = if fil {
                    len
                } else {
                    plan_uni_fields_maxw(indent, width, red, next, rec.fields,
                        rec.fields.len() as int)
                };
                (
                    PrettyModel::Record {
                        rec: RecordModel {
                            name: rec.name,
                            fields: plan_uni_fields(indent, width, red, next, rec.fields,
                                rec.fields.len() as int),
                            fields_is_linear: fil,
                            children: plan_uni_seq(indent, width, red, next, rec.children,
                                rec.children.len() as int),
                        },
                    },
                    imax(
                        imax(
                            plan_uni_seq_maxw(indent, width, red, next, rec.children,
                                rec.children.len() as int),
                            fpart,
                        ),
                        header,
                    ),
                )
            },
            PrettyModel::Linearized { width: w, .. } => (m, cap(w as int)),
        }
    }
}

/// The first `i` trees of a sequence (array elements or record
/// children), each planned at the next indent with no committed columns.
pub open spec fn plan_uni_seq(
    indent: int,
    width: int,
    red: bool,
    next: int,
    s: Seq<PrettyModel>,
    i: int,
) -> Seq<PrettyModel>
    decreases s, i,
{
    if i <= 0 || i > s.len() {
        Seq::empty()
    } else {
        plan_uni_seq(indent, width, red, next, s, i - 1).push(
            plan_uni(indent, width, red, next, s[i - 1], 0).0,
        )
    }
}

/// The widest required width among the first `i` planned trees.
pub open spec fn plan_uni_seq_maxw(
    indent: int,
    width: int,
    red: bool,
    next: int,
    s: Seq<PrettyModel>,
    i: int,
) -> int
    decreases s, i,
{
    if i <= 0 || i > s.len() {
        0
    } else {
        imax(
            plan_uni_seq_maxw(indent, width, red, next, s, i - 1),
            plan_uni(indent, width, red, next, s[i - 1], 0).1,
        )
    }
}

/// The first `i` record fields, each value planned with its key and the
/// `": "` separator committed.
pub open spec fn plan_uni_fields(
    indent: int,
    width: int,
    red: bool,
    next: int,
    s: Seq<(Seq<char>, PrettyModel)>,
    i: int,
) -> Seq<(Seq<char>, PrettyModel)>
    decreases s, i,
{
    if i <= 0 || i > s.len() {
        Seq::empty()
    } else {
        plan_uni_fields(indent, width, red, next, s, i - 1).push(
            (s[i - 1].0, plan_uni(indent, width, red, next, s[i - 1].1, cap(
                s[i - 1].0.len() + 2int,
            )).0),
        )
    }
}

/// The widest required width among the first `i` planned record fields.
pub open spec fn plan_uni_fields_maxw(
    indent: int,
    width: int,
    red: bool,
    next: int,
    s: Seq<(Seq<char>, PrettyModel)>,
    i: int,
) -> int
    decreases s, i,
{
    if i <= 0 || i > s.len() {
        0
    } else {
        imax(
            plan_uni_fields_maxw(indent, width, red, next, s, i - 1),
            plan_uni(indent, width, red, next, s[i - 1].1, cap(s[i - 1].0.len() + 2int)).1,
        )
    }
}

pub proof fn lemma_plan_uni_seq_index(
    indent: int,
    width: int,
    red: bool,
    next: int,
    s: Seq<PrettyModel>,
    i: int,
)
    requires
        0 <= i <= s.len(),
    ensures
        plan_uni_seq(indent, width, red, next, s, i).len() == i,
        forall|j: int|
            0 <= j < i ==> plan_uni_seq(indent, width, red, next, s, i)[j] == plan_uni(
                indent,
                width,
                red,
                next,
                s[j],
                0,
            ).0,
    decreases i,
{
    if i > 0 {
        lemma_plan_uni_seq_index(indent, width, red, next, s, i - 1);
    }
}

pub proof fn lemma_plan_uni_fields_index(
    indent: int,
    width: int,
    red: bool,
    next: int,
    s: Seq<(Seq<char>, PrettyModel)>,
    i: int,
)
    requires
        0 <= i <= s.len(),
    ensures
        plan_uni_fields(indent, width, red, next, s, i).len() == i,
        forall|j: int|
            0 <= j < i ==> plan_uni_fields(indent, width, red, next, s, i)[j] == (
                s[j].0,
                plan_uni(indent, width, red, next, s[j].1, cap(s[j].0.len() + 2int)).0,
            ),
    decreases i,
{
    if i > 0 {
        lemma_plan_uni_fields_index(indent, width, red, next, s, i - 1);
    }
}

impl PrettyConfig {
    /// The executable measurement pass in Unicode mode: returns the
    /// annotated tree and the width the subtree requires, exactly as
    /// `plan_uni` describes.
    pub(crate) fn interesting_unicode(
        &self,
        base_indent: usize,
        pretty: &Pretty,
        additional: usize,
    ) -> (r: (Pretty, usize))
        requires
            caches_ok(model(*pretty)),
        ensures
            model(r.0) == plan_uni(
                self.indent as int,
                self.width as int,
                self.reduced_spaces,
                base_indent as int,
                model(*pretty),
                additional as int,
            ).0,
            r.1 as int == plan_uni(
                self.indent as int,
                self.width as int,
                self.reduced_spaces,
                base_indent as int,
                model(*pretty),
                additional as int,
            ).1,
            caches_ok(model(r.0)),
        decreases *pretty,
    {
        let ghost m = model(*pretty);
        let ghost ispec = self.indent as int;
        let ghost wspec = self.width as int;
        let red = self.reduced_spaces;
        let first_line_base = base_indent.saturating_add(additional);
        let ol_len = pretty.ol_len(red);
        let len = ol_len.saturating_add(first_line_base);
        if !pretty.has_children() && len <= self.width {
            let mut text = String::new();
            pretty.ol_build_str_ascii(red, &mut text);
            let _tl = text.as_str().unicode_len();
            proof {
                lemma_len_matches_text(m, red);
            }
            return (Pretty::Linearized(text, ol_len), len);
        }
        let next_indent = base_indent.saturating_add(self.indent);
        match pretty {
            Pretty::Text(s) => {
                let l = s.as_str().unicode_len().saturating_add(first_line_base);
                (Pretty::Text(s.clone()), l)
            },
            Pretty::Linearized(s, l) => (Pretty::Linearized(s.clone(), *l), *l),
            Pretty::Array(v) => {
                proof {
                    lemma_model_items_index(v@, v@.len() as int);
                }
                let ghost mitems = model_items(v@, v@.len() as int);
                if v.len() == 1 {
                    proof {
                        assert(*v == (*pretty)->Array_0);
                        assert(decreases_to!(*pretty => (*pretty)->Array_0));
                        assert(decreases_to!(*v => v@));
                        assert(decreases_to!(v@ => v@[0]));
                        lemma_all_caches_elem(mitems, 1, 0);
                    }
                    return self.interesting_unicode(base_indent, &v[0], additional);
                }
                if v.len() == 0 {
                    let w = first_line_base.saturating_add(2);
                    let r0 = Pretty::Array(Vec::new());
                    proof {
                        assert(model(r0) =~= m);
                    }
                    return (r0, w);
                }
                let ghost planned = plan_uni_seq(ispec, wspec, red, next_indent as int, mitems,
                    mitems.len() as int);
                proof {
                    lemma_plan_uni_seq_index(ispec, wspec, red, next_indent as int, mitems,
                        mitems.len() as int);
                }
                let n = v.len();
                let mut out_items: Vec<Pretty> = Vec::new();
                let mut maxw: usize = 0;
                let mut i: usize = 0;
                while i < n
                    invariant
                        ispec == self.indent as int,
                        wspec == self.width as int,
                        red == self.reduced_spaces,
                        *pretty == Pretty::Array(*v),
                        caches_ok(m),
                        i <= n,
                        n == v@.len(),
                        m == (PrettyModel::Array { items: mitems }),
                        mitems == model_items(v@, v@.len() as int),
                        mitems.len() == n,
                        forall|j: int| 0 <= j < n ==> #[trigger] mitems[j] == model(v@[j]),
                        planned == plan_uni_seq(ispec, wspec, red, next_indent as int, mitems,
                            mitems.len() as int),
                        planned.len() == n,
                        forall|j: int|
                            0 <= j < n ==> #[trigger] planned[j] == plan_uni(ispec, wspec, red,
                                next_indent as int, mitems[j], 0).0,
                        out_items@.len() == i,
                        forall|j: int|
                            0 <= j < i ==> model(#[trigger] out_items@[j]) == planned[j],
                        all_caches_upto(planned, i as int),
                        maxw as int == plan_uni_seq_maxw(ispec, wspec, red, next_indent as int,
                            mitems, i as int),
                    decreases n - i,
                {
                    proof {
                        assert(*v == (*pretty)->Array_0);
                        assert(decreases_to!(*pretty => (*pretty)->Array_0));
                        assert(decreases_to!(*v => v@));
                        assert(decreases_to!(v@ => v@[i as int]));
                        lemma_all_caches_elem(mitems, n as int, i as int);
                    }
                    let (t, w) = self.interesting_unicode(next_indent, &v[i], 0);
                    out_items.push(t);
                    maxw = umax(maxw, w);
                    i += 1;
                }
                let r0 = Pretty::Array(out_items);
                proof {
                    lemma_model_items_index(out_items@, out_items@.len() as int);
                    assert(model_items(out_items@, out_items@.len() as int) =~= planned);
                    assert(model(r0) =~= plan_uni(ispec, wspec, red, base_indent as int, m,
                        additional as int).0);
                }
                (r0, maxw)
            },
            Pretty::Record(xml) => {
                proof {
                    lemma_model_items_index(xml.children@, xml.children@.len() as int);
                    lemma_field_models_index(xml.fields@, xml.fields@.len() as int);
                }
                let ghost mrec = crate::model::record_model(*xml);
                let ghost mkids = mrec.children;
                let ghost mflds = mrec.fields;
                let name_len = xml.name.as_str().unicode_len();
                let header = name_len.saturating_add(first_line_base);
                let ghost planned_kids = plan_uni_seq(ispec, wspec, red, next_indent as int, mkids,
                    mkids.len() as int);
                let ghost planned_flds = plan_uni_fields(ispec, wspec, red, next_indent as int,
                    mflds, mflds.len() as int);
                proof {
                    lemma_plan_uni_seq_index(ispec, wspec, red, next_indent as int, mkids,
                        mkids.len() as int);
                    lemma_plan_uni_fields_index(ispec, wspec, red, next_indent as int, mflds,
                        mflds.len() as int);
                }
                let nf = xml.fields.len();
                let mut no_field_kids = true;
                let mut q: usize = 0;
                while q < nf
                    invariant
                        q <= nf,
                        nf == xml.fields@.len(),
                        mrec == crate::model::record_model(*xml),
                        mflds == mrec.fields,
                        mflds.len() == nf,
                        forall|j: int| 0 <= j < nf ==> #[trigger] mflds[j] == (
                            xml.fields@[j].0@,
                            model(xml.fields@[j].1),
                        ),
                        no_field_kids == !any_field_kids_upto(mflds, q as int),
                    decreases nf - q,
                {
                    let pair = &xml.fields[q];
                    if pair.1.has_children() {
                        no_field_kids = false;
                    }
                    q += 1;
                }
                let fields_is_linear = xml.fields_is_linear || (len < self.width && no_field_kids);
                let nc = xml.children.len();
                let mut out_children: Vec<Pretty> = Vec::new();
                let mut cw: usize = 0;
                let mut i: usize = 0;
                while i < nc
                    invariant
                        ispec == self.indent as int,
                        wspec == self.width as int,
                        red == self.reduced_spaces,
                        *pretty == Pretty::Record(*xml),
                        caches_ok(m),
                        i <= nc,
                        nc == xml.children@.len(),
                        m == (PrettyModel::Record { rec: mrec }),
                        mrec == crate::model::record_model(*xml),
                        mkids == mrec.children,
                        mkids.len() == nc,
                        forall|j: int| 0 <= j < nc ==> #[trigger] mkids[j] == model(
                            xml.children@[j],
                        ),
                        planned_kids == plan_uni_seq(ispec, wspec, red, next_indent as int, mkids,
                            mkids.len() as int),
                        planned_kids.len() == nc,
                        forall|j: int|
                            0 <= j < nc ==> #[trigger] planned_kids[j] == plan_uni(ispec, wspec,
                                red, next_indent as int, mkids[j], 0).0,
                        out_children@.len() == i,
                        forall|j: int|
                            0 <= j < i ==> model(#[trigger] out_children@[j]) == planned_kids[j],
                        all_caches_upto(planned_kids, i as int),
                        cw as int == plan_uni_seq_maxw(ispec, wspec, red, next_indent as int,
                            mkids, i as int),
                    decreases nc - i,
                {
                    proof {
                        assert(*xml == (*pretty)->Record_0);
                        assert(decreases_to!(*pretty => (*pretty)->Record_0));
                        assert(decreases_to!(*xml => xml.children));
                        assert(decreases_to!(xml.children => xml.children@));
                        assert(decreases_to!(xml.children@ => xml.children@[i as int]));
                        lemma_all_caches_elem(mkids, nc as int, i as int);
                    }
                    let (t, w) = self.interesting_unicode(next_indent, &xml.children[i], 0);
                    out_children.push(t);
                    cw = umax(cw, w);
                    i += 1;
                }
                let mut out_fields: Vec<(String, Pretty)> = Vec::new();
                let mut fw: usize = 0;
                let mut k: usize = 0;
                while k < nf
                    invariant
                        ispec == self.indent as int,
                        wspec == self.width as int,
                        red == self.reduced_spaces,
                        *pretty == Pretty::Record(*xml),
                        caches_ok(m),
                        k <= nf,
                        nf == xml.fields@.len(),
                        m == (PrettyModel::Record { rec: mrec }),
                        mrec == crate::model::record_model(*xml),
                        mflds == mrec.fields,
                        mflds.len() == nf,
                        forall|j: int| 0 <= j < nf ==> #[trigger] mflds[j] == (
                            xml.fields@[j].0@,
                            model(xml.fields@[j].1),
                        ),
                        planned_flds == plan_uni_fields(ispec, wspec, red, next_indent as int,
                            mflds, mflds.len() as int),
                        planned_flds.len() == nf,
                        forall|j: int|
                            0 <= j < nf ==> #[trigger] planned_flds[j] == (
                                mflds[j].0,
                                plan_uni(ispec, wspec, red, next_indent as int, mflds[j].1, cap(
                                    mflds[j].0.len() + 2int,
                                )).0,
                            ),
                        out_fields@.len() == k,
                        forall|j: int|
                            0 <= j < k ==> (#[trigger] out_fields@[j]).0@ == planned_flds[j].0
                                && model(out_fields@[j].1) == planned_flds[j].1,
                        all_field_caches_upto(planned_flds, k as int),
                        fw as int == plan_uni_fields_maxw(ispec, wspec, red, next_indent as int,
                            mflds, k as int),
                    decreases nf - k,
                {
                    proof {
                        assert(*xml == (*pretty)->Record_0);
                        assert(decreases_to!(*pretty => (*pretty)->Record_0));
                        assert(decreases_to!(*xml => xml.fields));
                        assert(decreases_to!(xml.fields => xml.fields@));
                        assert(decreases_to!(xml.fields@ => xml.fields@[k as int]));
                        assert(decreases_to!(xml.fields@[k as int] => xml.fields@[k as int].1));
                        lemma_all_field_caches_elem(mflds, nf as int, k as int);
                    }
                    let pair = &xml.fields[k];
                    let key_len = pair.0.as_str().unicode_len();
                    let start = key_len.saturating_add(2);
                    let (t, w) = self.interesting_unicode(next_indent, &pair.1, start);
                    let key = pair.0.clone();
                    out_fields.push((key, t));
                    fw = umax(fw, w);
                    k += 1;
                }
                let fpart = if fields_is_linear {
                    len
                } else {
                    fw
                };
                let w = umax(umax(cw, fpart), header);
                let node = XmlNode {
                    name: xml.name.clone(),
                    fields: out_fields,
                    fields_is_linear,
                    children: out_children,
                };
                let r0 = Pretty::Record(node);
                proof {
                    lemma_model_items_index(node.children@, node.children@.len() as int);
                    lemma_field_models_index(node.fields@, node.fields@.len() as int);
                    assert(model_items(node.children@, node.children@.len() as int)
                        =~= planned_kids);
                    assert(crate::model::field_models(node.fields@, node.fields@.len() as int)
                        =~= planned_flds);
                    assert(crate::model::record_model(node) =~= plan_uni(ispec, wspec, red,
                        base_indent as int, m, additional as int).0->Record_rec);
                }
                (r0, w)
            },
        }
    }
}


/// `s` repeated `n` times.
pub open spec fn rep_seq(s: Seq<char>, n: int) -> Seq<char>
    decreases n,
{
    if n <= 0 {
        Seq::empty()
    } else {
        rep_seq(s, n - 1) + s
    }
}

/// What one nesting level appends to a continuation prefix: the starting
/// glyph (only when the indent leaves room for it), the fill glyph
/// repeated to one column short of the indent, and a closing space unless
/// spacing is reduced.
pub open spec fn prefix_ext(indent: int, red: bool, start: Seq<char>, fill: Seq<char>) -> Seq<
    char,
> {
    (if indent > 1 {
        start
    } else {
        Seq::<char>::empty()
    }) + rep_seq(
        fill,
        if indent > 1 {
            indent - 2
        } else {
            0
        },
    ) + (if red {
        Seq::<char>::empty()
    } else {
        seq![' ']
    })
}

/// The continuation prefix under an entry that more entries follow: a
/// vertical bar, then spaces.
pub open spec fn cont_of(indent: int, red: bool, p: Seq<char>) -> Seq<char> {
    p + prefix_ext(indent, red, seq!['\u{2502}'], seq![' '])
}

/// The continuation prefix under the last entry: spaces only.
pub open spec fn last_cont_of(indent: int, red: bool, p: Seq<char>) -> Seq<char> {
    p + prefix_ext(indent, red, seq![' '], seq![' '])
}

/// The connector before an entry that more entries follow: a tee.
pub open spec fn tee_of(indent: int, red: bool, p: Seq<char>) -> Seq<char> {
    p + prefix_ext(indent, red, seq!['\u{251C}'], seq!['\u{2500}'])
}

/// The connector before the last entry: a corner.
pub open spec fn corner_of(indent: int, red: bool, p: Seq<char>) -> Seq<char> {
    p + prefix_ext(indent, red, seq!['\u{2514}'], seq!['\u{2500}'])
}

/// The connector before the first array element: a down-and-right corner.
pub open spec fn first_of(indent: int, red: bool, p: Seq<char>) -> Seq<char> {
    p + prefix_ext(indent, red, seq!['\u{250C}'], seq!['\u{2500}'])
}

impl PrettyConfig {
    /// Extend a continuation prefix by one nesting level, exactly as
    /// `prefix_ext` describes.
    pub(crate) fn append_prefix(&self, editor: &str, start: &str, fill: &str) -> (r: String)
        ensures
            r@ == editor@ + prefix_ext(self.indent as int, self.reduced_spaces, start@, fill@),
    {
        let mut r = editor.to_owned();
        let mut remaining = self.indent;
        if remaining > 1 {
            r.append(start);
            remaining -= 1;
        }
        let ghost started: Seq<char> = if self.indent > 1 {
            start@
        } else {
            Seq::<char>::empty()
        };
        let fills: usize = if remaining > 0 {
            remaining - 1
        } else {
            0
        };
        proof {
            assert(fills as int == if self.indent > 1 {
                self.indent - 2
            } else {
                0int
            });
            assert(r@ =~= editor@ + started + rep_seq(fill@, 0));
        }
        let mut i: usize = 0;
        while i < fills
            invariant
                i <= fills,
                started == if self.indent > 1 {
                    start@
                } else {
                    Seq::<char>::empty()
                },
                r@ == editor@ + started + rep_seq(fill@, i as int),
            decreases fills - i,
        {
            r.append(fill);
            proof {
                assert(r@ =~= editor@ + started + rep_seq(fill@, i + 1));
            }
            i += 1;
        }
        if !self.reduced_spaces {
            r.append(" ");
            proof {
                reveal_strlit(" ");
            }
        }
        proof {
            assert(r@ =~= editor@ + prefix_ext(self.indent as int, self.reduced_spaces, start@,
                fill@));
        }
        r
    }
}

/// The rendering pass in Unicode mode: the text emitted for an annotated
/// subtree under continuation prefix `pfx`, with `olp` prepended if the
/// subtree renders inline, and `occ` columns of the current line already
/// occupied; and the occupied count after it.
pub open spec fn rend_uni(
    bnd: bool,
    w: int,
    indent: int,
    red: bool,
    m: PrettyModel,
    pfx: Seq<char>,
    olp: Seq<char>,
    occ: int,
) -> (Seq<char>, int)
    decreases m, 2int,
{
    match m {
        PrettyModel::Text { text } => (olp + text, cap(cap(occ + olp.len()) + text.len())),
        PrettyModel::Linearized { text, width } => (
            olp + text,
            cap(cap(occ + olp.len()) + cap(width as int)),
        ),
        PrettyModel::Array { items } => {
            if items.len() == 0 {
                (seq!['[', ']'], cap(occ + 2))
            } else {
                let body = rend_uni_items(bnd, w, indent, red, items, pfx, items.len() as int);
                (pusheen_seq(bnd, w, occ) + body.0, body.1)
            }
        },
        PrettyModel::Record { rec } => {
            let fldpart = if rec.fields_is_linear {
                (
                    record_text(rec, red) + pusheen_seq(bnd, w, cap(occ + record_len(rec, red))),
                    0int,
                )
            } else {
                let fl = rend_uni_flds(bnd, w, indent, red, rec.fields, pfx, record_has_kids(rec),
                    rec.fields.len() as int);
                (rec.name + pusheen_seq(bnd, w, cap(occ + rec.name.len())) + fl.0, fl.1)
            };
            let kids = rend_uni_kids(bnd, w, indent, red, rec.children, pfx,
                rec.children.len() as int, fldpart.1);
            (fldpart.0 + kids.0, kids.1)
        },
    }
}

/// The lines of the first `i` array elements: the first behind a
/// down-and-right connector, later ones behind a tee, the last behind a
/// corner; every element but the last closes its line.
pub open spec fn rend_uni_items(
    bnd: bool,
    w: int,
    indent: int,
    red: bool,
    s: Seq<PrettyModel>,
    pfx: Seq<char>,
    i: int,
) -> (Seq<char>, int)
    decreases s, i,
{
    if i <= 0 || i > s.len() {
        (Seq::empty(), 0)
    } else {
        let pre = rend_uni_items(bnd, w, indent, red, s, pfx, i - 1);
        let is_not_last = i - 1 < s.len() - 1;
        let cpfx = if i - 1 == 0 || is_not_last {
            cont_of(indent, red, pfx)
        } else {
            last_cont_of(indent, red, pfx)
        };
        let fpfx = if i - 1 == 0 {
            first_of(indent, red, pfx)
        } else if is_not_last {
            tee_of(indent, red, pfx)
        } else {
            corner_of(indent, red, pfx)
        };
        let body = rend_uni(bnd, w, indent, red, s[i - 1], cpfx, Seq::empty(), cap(
            pre.1 + fpfx.len(),
        ));
        (
            pre.0 + begin_seq(bnd) + fpfx + body.0 + (if is_not_last {
                pusheen_seq(bnd, w, body.1)
            } else {
                Seq::empty()
            }),
            if is_not_last {
                0int
            } else {
                body.1
            },
        )
    }
}

/// The lines of the first `i` record fields: `key:` behind a tee (or a
/// corner when nothing follows, children counting as followers), the
/// value rendered with a one-space inline prefix; every field with a
/// follower closes its line.
pub open spec fn rend_uni_flds(
    bnd: bool,
    w: int,
    indent: int,
    red: bool,
    s: Seq<(Seq<char>, PrettyModel)>,
    pfx: Seq<char>,
    has_k: bool,
    i: int,
) -> (Seq<char>, int)
    decreases s, i,
{
    if i <= 0 || i > s.len() {
        (Seq::empty(), 0)
    } else {
        let pre = rend_uni_flds(bnd, w, indent, red, s, pfx, has_k, i - 1);
        let is_not_last = has_k || i - 1 < s.len() - 1;
        let cpfx = if is_not_last {
            cont_of(indent, red, pfx)
        } else {
            last_cont_of(indent, red, pfx)
        };
        let fpfx = if is_not_last {
            tee_of(indent, red, pfx)
        } else {
            corner_of(indent, red, pfx)
        };
        let body = rend_uni(bnd, w, indent, red, s[i - 1].1, cpfx, seq![' '], cap(
            cap(cap(pre.1 + fpfx.len()) + s[i - 1].0.len()) + 1,
        ));
        (
            pre.0 + begin_seq(bnd) + fpfx + s[i - 1].0 + seq![':'] + body.0 + (if is_not_last {
                pusheen_seq(bnd, w, body.1)
            } else {
                Seq::empty()
            }),
            if is_not_last {
                0int
            } else {
                body.1
            },
        )
    }
}

/// The lines of the first `i` record children: each behind a tee (or a
/// corner for the last), on a fresh line; every child but the last
/// closes its line.  `occ0` is carried through when there are none.
pub open spec fn rend_uni_kids(
    bnd: bool,
    w: int,
    indent: int,
    red: bool,
    s: Seq<PrettyModel>,
    pfx: Seq<char>,
    i: int,
    occ0: int,
) -> (Seq<char>, int)
    decreases s, i,
{
    if i <= 0 || i > s.len() {
        (Seq::empty(), occ0)
    } else {
        let pre = rend_uni_kids(bnd, w, indent, red, s, pfx, i - 1, occ0);
        let is_not_last = i - 1 < s.len() - 1;
        let cpfx = if is_not_last {
            cont_of(indent, red, pfx)
        } else {
            last_cont_of(indent, red, pfx)
        };
        let fpfx = if is_not_last {
            tee_of(indent, red, pfx)
        } else {
            corner_of(indent, red, pfx)
        };
        let body = rend_uni(bnd, w, indent, red, s[i - 1], cpfx, Seq::empty(), cap(
            pre.1 + fpfx.len(),
        ));
        (
            pre.0 + begin_seq(bnd) + fpfx + body.0 + (if is_not_last {
                pusheen_seq(bnd, w, body.1)
            } else {
                Seq::empty()
            }),
            if is_not_last {
                0int
            } else {
                body.1
            },
        )
    }
}

impl LinedBuffer {
    /// Render an annotated subtree in Unicode tree mode, exactly as
    /// `rend_uni` describes.
    #[verifier::rlimit(100)]
    #[verifier::spinoff_prover]
    pub(crate) fn line_unicode(&mut self, pretty: &Pretty, prefix: &str, one_line_prefix: &str)
        ensures
            final(self).out@ == old(self).out@ + rend_uni(
                old(self).config.need_boundaries,
                old(self).width as int,
                old(self).config.indent as int,
                old(self).config.reduced_spaces,
                model(*pretty),
                prefix@,
                one_line_prefix@,
                old(self).already_occupied as int,
            ).0,
            final(self).already_occupied as int == rend_uni(
                old(self).config.need_boundaries,
                old(self).width as int,
                old(self).config.indent as int,
                old(self).config.reduced_spaces,
                model(*pretty),
                prefix@,
                one_line_prefix@,
                old(self).already_occupied as int,
            ).1,
            final(self).width == old(self).width,
            final(self).config == old(self).config,
        decreases *pretty, 2int,
    {
        let ghost bnd = self.config.need_boundaries;
        let ghost w = self.width as int;
        let ghost ind = self.config.indent as int;
        let ghost red = self.config.reduced_spaces;
        let ghost out0 = self.out@;
        let ghost occ0 = self.already_occupied as int;
        match pretty {
            Pretty::Text(s) => {
                self.push(one_line_prefix);
                self.push(s.as_str());
            },
            Pretty::Linearized(s, ol_len) => {
                self.push(one_line_prefix);
                self.out.append(s.as_str());
                self.already_occupied = self.already_occupied.saturating_add(*ol_len);
            },
            Pretty::Record(xml) => {
                proof {
                    assert(*xml == (*pretty)->Record_0);
                    assert(decreases_to!(*pretty => (*pretty)->Record_0));
                }
                self.line_unicode_xml(xml, prefix);
            },
            Pretty::Array(v) => {
                proof {
                    lemma_model_items_index(v@, v@.len() as int);
                }
                let ghost mitems = model_items(v@, v@.len() as int);
                if v.len() == 0 {
                    self.push("[]");
                    proof {
                        reveal_strlit("[]");
                        assert(self.out@ =~= out0 + seq!['[', ']']);
                    }
                    return ;
                }
                let cont_prefix = self.config.append_prefix(prefix, "\u{2502}", " ");
                let last_cont_prefix = self.config.append_prefix(prefix, " ", " ");
                let fields_prefix = self.config.append_prefix(prefix, "\u{251C}", "\u{2500}");
                let last_field_prefix = self.config.append_prefix(prefix, "\u{2514}", "\u{2500}");
                let fst_field_prefix = self.config.append_prefix(prefix, "\u{250C}", "\u{2500}");
                proof {
                    reveal_strlit("\u{2502}");
                    reveal_strlit(" ");
                    reveal_strlit("\u{251C}");
                    reveal_strlit("\u{2514}");
                    reveal_strlit("\u{250C}");
                    reveal_strlit("\u{2500}");
                    assert("\u{2502}"@ =~= seq!['\u{2502}']);
                    assert(" "@ =~= seq![' ']);
                    assert("\u{251C}"@ =~= seq!['\u{251C}']);
                    assert("\u{2514}"@ =~= seq!['\u{2514}']);
                    assert("\u{250C}"@ =~= seq!['\u{250C}']);
                    assert("\u{2500}"@ =~= seq!['\u{2500}']);
                    assert(cont_prefix@ =~= cont_of(ind, red, prefix@));
                    assert(last_cont_prefix@ =~= last_cont_of(ind, red, prefix@));
                    assert(fields_prefix@ =~= tee_of(ind, red, prefix@));
                    assert(last_field_prefix@ =~= corner_of(ind, red, prefix@));
                    assert(fst_field_prefix@ =~= first_of(ind, red, prefix@));
                }
                self.pusheen();
                let ghost opened = self.out@;
                let n = v.len();
                let mut i: usize = 0;
                while i < n
                    invariant
                        bnd == self.config.need_boundaries,
                        w == self.width as int,
                        ind == self.config.indent as int,
                        red == self.config.reduced_spaces,
                        *pretty == Pretty::Array(*v),
                        i <= n,
                        n == v@.len(),
                        mitems == model_items(v@, v@.len() as int),
                        mitems.len() == n,
                        forall|j: int| 0 <= j < n ==> #[trigger] mitems[j] == model(v@[j]),
                        cont_prefix@ == cont_of(ind, red, prefix@),
                        last_cont_prefix@ == last_cont_of(ind, red, prefix@),
                        fields_prefix@ == tee_of(ind, red, prefix@),
                        last_field_prefix@ == corner_of(ind, red, prefix@),
                        fst_field_prefix@ == first_of(ind, red, prefix@),
                        opened == out0 + pusheen_seq(bnd, w, occ0),
                        self.out@ == opened + rend_uni_items(bnd, w, ind, red, mitems, prefix@,
                            i as int).0,
                        self.already_occupied as int == rend_uni_items(bnd, w, ind, red, mitems,
                            prefix@, i as int).1,
                        self.width == old(self).width,
                        self.config == old(self).config,
                    decreases n - i,
                {
                    self.begin_line();
                    let is_not_last = i < n - 1;
                    let sel_field: &String = if i == 0 {
                        &fst_field_prefix
                    } else if is_not_last {
                        &fields_prefix
                    } else {
                        &last_field_prefix
                    };
                    let sel_cont: &String = if i == 0 || is_not_last {
                        &cont_prefix
                    } else {
                        &last_cont_prefix
                    };
                    self.push(sel_field.as_str());
                    proof {
                        assert(*v == (*pretty)->Array_0);
                        assert(decreases_to!(*pretty => (*pretty)->Array_0));
                        assert(decreases_to!(*v => v@));
                        assert(decreases_to!(v@ => v@[i as int]));
                    }
                    self.line_unicode(&v[i], sel_cont.as_str(), "");
                    if is_not_last {
                        self.pusheen();
                    }
                    proof {
                        reveal_strlit("");
                        assert(""@ =~= Seq::<char>::empty());
                        let pre = rend_uni_items(bnd, w, ind, red, mitems, prefix@, i as int);
                        let b1 = begin_seq(bnd);
                        let b2 = if i == 0 {
                            first_of(ind, red, prefix@)
                        } else if i < n - 1 {
                            tee_of(ind, red, prefix@)
                        } else {
                            corner_of(ind, red, prefix@)
                        };
                        let cp = if i == 0 || i < n - 1 {
                            cont_of(ind, red, prefix@)
                        } else {
                            last_cont_of(ind, red, prefix@)
                        };
                        let bod = rend_uni(bnd, w, ind, red, mitems[i as int], cp, Seq::empty(),
                            cap(pre.1 + b2.len()));
                        let b4 = if i < n - 1 {
                            pusheen_seq(bnd, w, bod.1)
                        } else {
                            Seq::<char>::empty()
                        };
                        assert(rend_uni_items(bnd, w, ind, red, mitems, prefix@, i + 1).0 == pre.0
                            + b1 + b2 + bod.0 + b4);
                        assert(self.out@ == opened + pre.0 + b1 + b2 + bod.0 + b4) by {
                            if i >= n - 1 {
                                lemma_append_empty(opened + pre.0 + b1 + b2 + bod.0);
                            }
                        };
                        lemma_prepend_assoc(opened, pre.0, b1);
                        lemma_prepend_assoc(opened, pre.0 + b1, b2);
                        lemma_prepend_assoc(opened, pre.0 + b1 + b2, bod.0);
                        lemma_prepend_assoc(opened, pre.0 + b1 + b2 + bod.0, b4);
                    }
                    i += 1;
                }
                proof {
                    assert(self.out@ =~= out0 + rend_uni(bnd, w, ind, red, model(*pretty),
                        prefix@, one_line_prefix@, occ0).0);
                }
            },
        }
    }

    /// Render the field lines of a broken record in Unicode tree mode,
    /// exactly as `rend_uni_flds` describes.
    #[verifier::rlimit(100)]
    #[verifier::spinoff_prover]
    pub(crate) fn line_unicode_fields(
        &mut self,
        xml: &XmlNode,
        has_children: bool,
        prefix: &str,
        cont_prefix: &String,
        last_cont_prefix: &String,
        fields_prefix: &String,
        last_field_prefix: &String,
    )
        requires
            old(self).already_occupied == 0,
            has_children == record_has_kids(crate::model::record_model(*xml)),
            cont_prefix@ == cont_of(
                old(self).config.indent as int,
                old(self).config.reduced_spaces,
                prefix@,
            ),
            last_cont_prefix@ == last_cont_of(
                old(self).config.indent as int,
                old(self).config.reduced_spaces,
                prefix@,
            ),
            fields_prefix@ == tee_of(
                old(self).config.indent as int,
                old(self).config.reduced_spaces,
                prefix@,
            ),
            last_field_prefix@ == corner_of(
                old(self).config.indent as int,
                old(self).config.reduced_spaces,
                prefix@,
            ),
        ensures
            final(self).out@ == old(self).out@ + rend_uni_flds(
                old(self).config.need_boundaries,
                old(self).width as int,
                old(self).config.indent as int,
                old(self).config.reduced_spaces,
                crate::model::record_model(*xml).fields,
                prefix@,
                has_children,
                crate::model::record_model(*xml).fields.len() as int,
            ).0,
            final(self).already_occupied as int == rend_uni_flds(
                old(self).config.need_boundaries,
                old(self).width as int,
                old(self).config.indent as int,
                old(self).config.reduced_spaces,
                crate::model::record_model(*xml).fields,
                prefix@,
                has_children,
                crate::model::record_model(*xml).fields.len() as int,
            ).1,
            final(self).width == old(self).width,
            final(self).config == old(self).config,
        decreases *xml, 0int,
    {
        let ghost bnd = self.config.need_boundaries;
        let ghost w = self.width as int;
        let ghost ind = self.config.indent as int;
        let ghost red = self.config.reduced_spaces;
        let ghost head = self.out@;
        let ghost mrec = crate::model::record_model(*xml);
        let ghost mflds = mrec.fields;
        proof {
            lemma_field_models_index(xml.fields@, xml.fields@.len() as int);
        }
        let nf = xml.fields.len();
        let mut i: usize = 0;
        while i < nf
            invariant
                bnd == self.config.need_boundaries,
                w == self.width as int,
                ind == self.config.indent as int,
                red == self.config.reduced_spaces,
                i <= nf,
                nf == xml.fields@.len(),
                mrec == crate::model::record_model(*xml),
                mflds == mrec.fields,
                mflds.len() == nf,
                forall|j: int| 0 <= j < nf ==> #[trigger] mflds[j] == (
                    xml.fields@[j].0@,
                    model(xml.fields@[j].1),
                ),
                has_children == record_has_kids(mrec),
                cont_prefix@ == cont_of(ind, red, prefix@),
                last_cont_prefix@ == last_cont_of(ind, red, prefix@),
                fields_prefix@ == tee_of(ind, red, prefix@),
                last_field_prefix@ == corner_of(ind, red, prefix@),
                self.out@ == head + rend_uni_flds(bnd, w, ind, red, mflds, prefix@, has_children,
                    i as int).0,
                self.already_occupied as int == rend_uni_flds(bnd, w, ind, red, mflds, prefix@,
                    has_children, i as int).1,
                self.width == old(self).width,
                self.config == old(self).config,
            decreases nf - i,
        {
            self.begin_line();
            let is_not_last = has_children || i < nf - 1;
            let sel_field: &String = if is_not_last {
                &fields_prefix
            } else {
                &last_field_prefix
            };
            let sel_cont: &String = if is_not_last {
                &cont_prefix
            } else {
                &last_cont_prefix
            };
            self.push(sel_field.as_str());
            let pair = &xml.fields[i];
            self.push(pair.0.as_str());
            self.push(":");
            proof {
                reveal_strlit(":");
                assert(decreases_to!(*xml => xml.fields));
                assert(decreases_to!(xml.fields => xml.fields@));
                assert(decreases_to!(xml.fields@ => xml.fields@[i as int]));
                assert(decreases_to!(xml.fields@[i as int] => xml.fields@[i as int].1));
            }
            self.line_unicode(&pair.1, sel_cont.as_str(), " ");
            if is_not_last {
                self.pusheen();
            }
            proof {
                reveal_strlit(" ");
                assert(" "@ =~= seq![' ']);
                let pre = rend_uni_flds(bnd, w, ind, red, mflds, prefix@, has_children, i as int);
                let b1 = begin_seq(bnd);
                let b2 = if is_not_last {
                    tee_of(ind, red, prefix@)
                } else {
                    corner_of(ind, red, prefix@)
                };
                let b3 = mflds[i as int].0;
                let b4 = seq![':'];
                let cp = if is_not_last {
                    cont_of(ind, red, prefix@)
                } else {
                    last_cont_of(ind, red, prefix@)
                };
                let bod = rend_uni(bnd, w, ind, red, mflds[i as int].1, cp, seq![' '], cap(
                    cap(cap(pre.1 + b2.len()) + b3.len()) + 1,
                ));
                let b6 = if is_not_last {
                    pusheen_seq(bnd, w, bod.1)
                } else {
                    Seq::<char>::empty()
                };
                assert(rend_uni_flds(bnd, w, ind, red, mflds, prefix@, has_children, i + 1).0
                    == pre.0 + b1 + b2 + b3 + b4 + bod.0 + b6);
                assert(self.out@ == head + pre.0 + b1 + b2 + b3 + b4 + bod.0 + (if is_not_last {
                    pusheen_seq(bnd, w, bod.1)
                } else {
                    Seq::<char>::empty()
                })) by {
                    if !is_not_last {
                        lemma_append_empty(head + pre.0 + b1 + b2 + b3 + b4 + bod.0);
                    }
                };
                lemma_prepend_assoc(head, pre.0, b1);
                lemma_prepend_assoc(head, pre.0 + b1, b2);
                lemma_prepend_assoc(head, pre.0 + b1 + b2, b3);
                lemma_prepend_assoc(head, pre.0 + b1 + b2 + b3, b4);
                lemma_prepend_assoc(head, pre.0 + b1 + b2 + b3 + b4, bod.0);
                lemma_prepend_assoc(head, pre.0 + b1 + b2 + b3 + b4 + bod.0, b6);
                assert(self.out@ == head + rend_uni_flds(bnd, w, ind, red, mflds, prefix@,
                    has_children, i + 1).0);
            }
            i += 1;
        }
    }

    /// Render an annotated record in Unicode tree mode: either its whole
    /// field block on one line (`fields_is_linear`) or its name with one
    /// field per connector-prefixed line, then its children beneath it.
    #[verifier::rlimit(100)]
    #[verifier::spinoff_prover]
    pub(crate) fn line_unicode_xml(&mut self, xml: &XmlNode, prefix: &str)
        ensures
            final(self).out@ == old(self).out@ + rend_uni(
                old(self).config.need_boundaries,
                old(self).width as int,
                old(self).config.indent as int,
                old(self).config.reduced_spaces,
                PrettyModel::Record { rec: crate::model::record_model(*xml) },
                prefix@,
                Seq::empty(),
                old(self).already_occupied as int,
            ).0,
            final(self).already_occupied as int == rend_uni(
                old(self).config.need_boundaries,
                old(self).width as int,
                old(self).config.indent as int,
                old(self).config.reduced_spaces,
                PrettyModel::Record { rec: crate::model::record_model(*xml) },
                prefix@,
                Seq::empty(),
                old(self).already_occupied as int,
            ).1,
            final(self).width == old(self).width,
            final(self).config == old(self).config,
        decreases *xml, 1int,
    {
        let ghost bnd = self.config.need_boundaries;
        let ghost w = self.width as int;
        let ghost ind = self.config.indent as int;
        let ghost red = self.config.reduced_spaces;
        let ghost out0 = self.out@;
        let ghost occ0 = self.already_occupied as int;
        let ghost mrec = crate::model::record_model(*xml);
        proof {
            lemma_model_items_index(xml.children@, xml.children@.len() as int);
            lemma_field_models_index(xml.fields@, xml.fields@.len() as int);
        }
        let ghost mkids = mrec.children;
        let ghost mflds = mrec.fields;
        let has_children = xml.has_children();
        let cont_prefix = self.config.append_prefix(prefix, "\u{2502}", " ");
        let last_cont_prefix = self.config.append_prefix(prefix, " ", " ");
        let fields_prefix = self.config.append_prefix(prefix, "\u{251C}", "\u{2500}");
        let last_field_prefix = self.config.append_prefix(prefix, "\u{2514}", "\u{2500}");
        proof {
            reveal_strlit("\u{2502}");
            reveal_strlit(" ");
            reveal_strlit("\u{251C}");
            reveal_strlit("\u{2514}");
            reveal_strlit("\u{2500}");
            assert("\u{2502}"@ =~= seq!['\u{2502}']);
            assert(" "@ =~= seq![' ']);
            assert("\u{251C}"@ =~= seq!['\u{251C}']);
            assert("\u{2514}"@ =~= seq!['\u{2514}']);
            assert("\u{2500}"@ =~= seq!['\u{2500}']);
            assert(cont_prefix@ =~= cont_of(ind, red, prefix@));
            assert(last_cont_prefix@ =~= last_cont_of(ind, red, prefix@));
            assert(fields_prefix@ =~= tee_of(ind, red, prefix@));
            assert(last_field_prefix@ =~= corner_of(ind, red, prefix@));
        }
        if xml.fields_is_linear {
            let reduced_ws = self.config.reduced_spaces;
            xml.ol_build_str_ascii(reduced_ws, &mut self.out);
            let l = xml.ol_len(reduced_ws);
            self.already_occupied = self.already_occupied.saturating_add(l);
            self.pusheen();
            proof {
                assert(self.out@ =~= out0 + record_text(mrec, red) + pusheen_seq(bnd, w, cap(
                    occ0 + record_len(mrec, red),
                )));
            }
        } else {
            self.push(xml.name.as_str());
            self.pusheen();
            self.line_unicode_fields(xml, has_children, prefix, &cont_prefix, &last_cont_prefix,
                &fields_prefix, &last_field_prefix);
        }
        let ghost fronted = self.out@;
        let ghost occ_mid = self.already_occupied as int;
        let nc = xml.children.len();
        let mut k: usize = 0;
        while k < nc
            invariant
                bnd == self.config.need_boundaries,
                w == self.width as int,
                ind == self.config.indent as int,
                red == self.config.reduced_spaces,
                k <= nc,
                nc == xml.children@.len(),
                mrec == crate::model::record_model(*xml),
                mkids == mrec.children,
                mkids.len() == nc,
                forall|j: int| 0 <= j < nc ==> #[trigger] mkids[j] == model(xml.children@[j]),
                cont_prefix@ == cont_of(ind, red, prefix@),
                last_cont_prefix@ == last_cont_of(ind, red, prefix@),
                fields_prefix@ == tee_of(ind, red, prefix@),
                last_field_prefix@ == corner_of(ind, red, prefix@),
                self.out@ == fronted + rend_uni_kids(bnd, w, ind, red, mkids, prefix@, k as int,
                    occ_mid).0,
                self.already_occupied as int == rend_uni_kids(bnd, w, ind, red, mkids, prefix@,
                    k as int, occ_mid).1,
                self.width == old(self).width,
                self.config == old(self).config,
            decreases nc - k,
        {
            self.begin_line();
            let is_not_last = k < nc - 1;
            let sel_field: &String = if is_not_last {
                &fields_prefix
            } else {
                &last_field_prefix
            };
            let sel_cont: &String = if is_not_last {
                &cont_prefix
            } else {
                &last_cont_prefix
            };
            self.push(sel_field.as_str());
            proof {
                assert(decreases_to!(*xml => xml.children));
                assert(decreases_to!(xml.children => xml.children@));
                assert(decreases_to!(xml.children@ => xml.children@[k as int]));
            }
            self.line_unicode(&xml.children[k], sel_cont.as_str(), "");
            if is_not_last {
                self.pusheen();
            }
            proof {
                reveal_strlit("");
                assert(""@ =~= Seq::<char>::empty());
                let pre = rend_uni_kids(bnd, w, ind, red, mkids, prefix@, k as int, occ_mid);
                let b1 = begin_seq(bnd);
                let b2 = if k < nc - 1 {
                    tee_of(ind, red, prefix@)
                } else {
                    corner_of(ind, red, prefix@)
                };
                let cp = if k < nc - 1 {
                    cont_of(ind, red, prefix@)
                } else {
                    last_cont_of(ind, red, prefix@)
                };
                let bod = rend_uni(bnd, w, ind, red, mkids[k as int], cp, Seq::empty(), cap(
                    pre.1 + b2.len(),
                ));
                let b4 = if k < nc - 1 {
                    pusheen_seq(bnd, w, bod.1)
                } else {
                    Seq::<char>::empty()
                };
                assert(rend_uni_kids(bnd, w, ind, red, mkids, prefix@, k + 1, occ_mid).0 == pre.0
                    + b1 + b2 + bod.0 + b4);
                assert(self.out@ == fronted + pre.0 + b1 + b2 + bod.0 + b4) by {
                    if k >= nc - 1 {
                        lemma_append_empty(fronted + pre.0 + b1 + b2 + bod.0);
                    }
                };
                lemma_prepend_assoc(fronted, pre.0, b1);
                lemma_prepend_assoc(fronted, pre.0 + b1, b2);
                lemma_prepend_assoc(fronted, pre.0 + b1 + b2, bod.0);
                lemma_prepend_assoc(fronted, pre.0 + b1 + b2 + bod.0, b4);
            }
            k += 1;
        }
        proof {
            assert(self.out@ =~= out0 + rend_uni(bnd, w, ind, red, PrettyModel::Record {
                rec: mrec,
            }, prefix@, Seq::empty(), occ0).0);
        }
    }
}

/// The full output of one Unicode render: plan at the configured width,
/// re-plan at the width so discovered, then render between horizontal
/// rules when boundaries are drawn.
pub open spec fn unicode_output(cfg: PrettyConfig, m: PrettyModel) -> Seq<char> {
    let pass1 = plan_uni(cfg.indent as int, cfg.width as int, cfg.reduced_spaces, 0, m, 0);
    let pass2 = plan_uni(cfg.indent as int, pass1.1, cfg.reduced_spaces, 0, pass1.0, 0);
    let bnd = cfg.need_boundaries;
    let body = rend_uni(bnd, pass2.1, cfg.indent as int, cfg.reduced_spaces, pass2.0,
        Seq::empty(), Seq::empty(), 0);
    horizon_seq(bnd, pass2.1) + (if bnd {
        seq!['\n']
    } else {
        Seq::empty()
    }) + begin_seq(bnd) + body.0 + (if bnd {
        pusheen_seq(bnd, pass2.1, body.1)
    } else {
        Seq::empty()
    }) + horizon_seq(bnd, pass2.1)
}

impl PrettyConfig {
    /// Render `pretty` in Unicode tree mode into `out` and return the
    /// computed display width.  Plans once to discover the natural width
    /// (stored in `self.width`), re-plans at that width so that lines
    /// broken conservatively in the first pass can fold back, and
    /// renders; the appended text is exactly `unicode_output` of the
    /// configuration as given.  The input tree must not already be
    /// annotated.
    pub fn unicode(&mut self, out: &mut String, pretty: &Pretty) -> (w: usize)
        requires
            lin_free(model(*pretty)),
        ensures
            final(out)@ == old(out)@ + unicode_output(*old(self), model(*pretty)),
            w as int == plan_uni(
                old(self).indent as int,
                plan_uni(
                    old(self).indent as int,
                    old(self).width as int,
                    old(self).reduced_spaces,
                    0,
                    model(*pretty),
                    0,
                ).1,
                old(self).reduced_spaces,
                0,
                plan_uni(
                    old(self).indent as int,
                    old(self).width as int,
                    old(self).reduced_spaces,
                    0,
                    model(*pretty),
                    0,
                ).0,
                0,
            ).1,
            final(self).width as int == plan_uni(
                old(self).indent as int,
                old(self).width as int,
                old(self).reduced_spaces,
                0,
                model(*pretty),
                0,
            ).1,
            final(self).indent == old(self).indent,
            final(self).need_boundaries == old(self).need_boundaries,
            final(self).reduced_spaces == old(self).reduced_spaces,
    {
        proof {
            lemma_lin_free_caches_ok(model(*pretty));
        }
        let (p1, w1) = self.interesting_unicode(0, pretty, 0);
        self.width = w1;
        let (p2, w2) = self.interesting_unicode(0, &p1, 0);
        let mut dat = LinedBuffer {
            out: String::new(),
            width: w2,
            config: *self,
            already_occupied: 0,
        };
        self.horizon(&mut dat.out, w2);
        if self.need_boundaries {
            dat.out.append("\n");
            proof {
                reveal_strlit("\n");
            }
        }
        dat.begin_line();
        dat.line_unicode(&p2, "", "");
        if self.need_boundaries {
            dat.pusheen();
        }
        self.horizon(&mut dat.out, w2);
        proof {
            reveal_strlit("");
            assert(""@ =~= Seq::<char>::empty());
            assert(dat.out@ =~= unicode_output(*old(self), model(*pretty)));
        }
        out.append(dat.out.as_str());
        w2
    }
}

} // verus!
