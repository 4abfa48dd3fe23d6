//! Laws of the layout engine, stated over the spec functions that the
//! executable functions are proved to implement exactly.

use vstd::prelude::*;

use crate::ascii::{
    ascii_output, plan_ascii, plan_ascii_children, plan_ascii_fields, plan_ascii_items,
    lemma_plan_ascii_children_index, lemma_plan_ascii_fields_index, lemma_plan_ascii_items_index,
    rend_ascii, rend_ascii_fields, rend_ascii_items, rend_ascii_kids,
};
use crate::buffer::{begin_seq, horizon_seq, pusheen_seq, spaces};
use crate::model::{
    any_field_kids_upto, any_kids_upto, brace_close_seq, brace_open_seq, cap, caches_ok, colon_seq,
    fields_text_upto, has_kids, items_text_upto, lemma_any_field_kids_elem, lemma_any_kids_elem,
    lemma_append_empty, lemma_len_matches_text, lemma_prepend_assoc, lemma_prepend_empty,
    one_line_len, one_line_text,
    record_has_kids, sep_seq, PrettyModel,
};
use crate::unicode::{
    cont_of, corner_of, first_of, last_cont_of, lemma_plan_uni_fields_index,
    lemma_plan_uni_seq_index, plan_uni, plan_uni_fields, plan_uni_seq, rend_uni, rend_uni_flds,
    rend_uni_items, rend_uni_kids, tee_of, unicode_output,
};

verus! {

/// Width fidelity: for every subtree whose cached widths are honest (in
/// particular, for every tree the measurement pass produces), the width
/// the one-line measurer reports is exactly the character count of the
/// one-line text the renderer emits for it, saturated at `usize::MAX`.
pub proof fn law_width_fidelity(m: PrettyModel, reduced: bool)
    requires
        caches_ok(m),
    ensures
        one_line_len(m, reduced) == cap(one_line_text(m, reduced).len() as int),
{
    lemma_len_matches_text(m, reduced);
}

/// Idempotence of measurement: planning is a function of the tree, the
/// configuration, and the committed columns alone, with no hidden state,
/// so measuring the same subtree twice with the same indent and offsets
/// yields the same annotated tree and the same width, in either mode.
pub proof fn law_measurement_idempotent(
    indent: int,
    width: int,
    red: bool,
    base: int,
    m: PrettyModel,
    start_add: int,
    end_add: int,
)
    ensures
        plan_ascii(indent, width, red, base, m, start_add, end_add) == plan_ascii(
            indent,
            width,
            red,
            base,
            m,
            start_add,
            end_add,
        ),
        plan_uni(indent, width, red, base, m, start_add) == plan_uni(
            indent,
            width,
            red,
            base,
            m,
            start_add,
        ),
{
}

/// Frame consistency: when boundaries are drawn, every content line the
/// renderer closes — left margin, `occ` columns of content, padding, and
/// right margin — has the same total visible width as the horizontal
/// rules, namely `width + 4` columns, provided the line's content does
/// not exceed the frame width (an overlong leaf is printed in full and
/// may locally exceed the frame; padding then clamps to zero).
pub proof fn law_frame_consistency(width: int, occ: int, content: Seq<char>)
    requires
        content.len() == occ,
        0 <= occ <= width,
        width + 2 <= usize::MAX as int,
    ensures
        (begin_seq(true) + content + pusheen_seq(true, width, occ)).len() == width + 5,
        horizon_seq(true, width).len() == width + 4,
{
    assert(spaces(width - occ).len() == width - occ);
    assert(crate::buffer::dashes(cap(width + 2)).len() == width + 2);
}

/// Whether the measurement pass committed this subtree to one-line form.
pub open spec fn committed_one_line(m: PrettyModel) -> bool {
    m is Linearized
}

/// Monotonic breaking, bracket-and-brace mode: widening the target width
/// never makes a subtree break that fit on one line at the narrower
/// width; contrapositively, narrowing the width never makes a broken
/// subtree fit.  This holds for every subtree at every indent and offset.
pub proof fn law_monotonic_breaking_ascii(
    indent: int,
    w1: int,
    w2: int,
    red: bool,
    base: int,
    m: PrettyModel,
    start_add: int,
    end_add: int,
)
    requires
        w1 <= w2,
    ensures
        committed_one_line(plan_ascii(indent, w1, red, base, m, start_add, end_add).0)
            ==> committed_one_line(plan_ascii(indent, w2, red, base, m, start_add, end_add).0),
{
}

/// Monotonic breaking, Unicode tree mode: as in bracket-and-brace mode;
/// a single-element array collapses to its element at either width, so
/// the claim follows for it from the claim for the element.
pub proof fn law_monotonic_breaking_unicode(
    indent: int,
    w1: int,
    w2: int,
    red: bool,
    base: int,
    m: PrettyModel,
    additional: int,
)
    requires
        w1 <= w2,
    ensures
        committed_one_line(plan_uni(indent, w1, red, base, m, additional).0)
            ==> committed_one_line(plan_uni(indent, w2, red, base, m, additional).0),
    decreases m,
{
    match m {
        PrettyModel::Array { items } => {
            if items.len() == 1 {
                law_monotonic_breaking_unicode(indent, w1, w2, red, base, items[0], additional);
            }
        },
        _ => {},
    }
}


/// `a` occurs inside `b` in order (not necessarily contiguously).
pub open spec fn is_subseq_of(a: Seq<char>, b: Seq<char>) -> bool
    decreases b.len(),
{
    if a.len() == 0 {
        true
    } else if b.len() == 0 {
        false
    } else {
        (a[0] == b[0] && is_subseq_of(a.drop_first(), b.drop_first())) || is_subseq_of(
            a,
            b.drop_first(),
        )
    }
}

pub proof fn lemma_subseq_refl(a: Seq<char>)
    ensures
        is_subseq_of(a, a),
    decreases a.len(),
{
    if a.len() > 0 {
        lemma_subseq_refl(a.drop_first());
    }
}

pub proof fn lemma_subseq_pad_left(pad: Seq<char>, a: Seq<char>, b: Seq<char>)
    requires
        is_subseq_of(a, b),
    ensures
        is_subseq_of(a, pad + b),
    decreases pad.len(),
{
    if pad.len() == 0 {
        assert(pad + b =~= b);
    } else {
        lemma_subseq_pad_left(pad.drop_first(), a, b);
        assert((pad + b).drop_first() =~= pad.drop_first() + b);
        assert((pad + b).len() > 0);
    }
}

pub proof fn lemma_subseq_concat(a1: Seq<char>, b1: Seq<char>, a2: Seq<char>, b2: Seq<char>)
    requires
        is_subseq_of(a1, b1),
        is_subseq_of(a2, b2),
    ensures
        is_subseq_of(a1 + a2, b1 + b2),
    decreases b1.len(),
{
    if a1.len() == 0 {
        assert(a1 + a2 =~= a2);
        lemma_subseq_pad_left(b1, a2, b2);
    } else {
        if a1[0] == b1[0] && is_subseq_of(a1.drop_first(), b1.drop_first()) {
            lemma_subseq_concat(a1.drop_first(), b1.drop_first(), a2, b2);
            assert((a1 + a2).drop_first() =~= a1.drop_first() + a2);
            assert((b1 + b2).drop_first() =~= b1.drop_first() + b2);
            assert((a1 + a2)[0] == (b1 + b2)[0]);
        } else {
            lemma_subseq_concat(a1, b1.drop_first(), a2, b2);
            assert((b1 + b2).drop_first() =~= b1.drop_first() + b2);
            assert((b1 + b2).len() > 0);
        }
    }
}

pub proof fn lemma_subseq_pad_right(a: Seq<char>, b: Seq<char>, pad: Seq<char>)
    requires
        is_subseq_of(a, b),
    ensures
        is_subseq_of(a, b + pad),
{
    lemma_subseq_concat(a, b, Seq::<char>::empty(), pad);
    lemma_append_empty(a);
}

pub proof fn lemma_subseq_trans(a: Seq<char>, b: Seq<char>, c: Seq<char>)
    requires
        is_subseq_of(a, b),
        is_subseq_of(b, c),
    ensures
        is_subseq_of(a, c),
    decreases c.len(),
{
    if a.len() == 0 || c.len() == 0 {
    } else if b.len() == 0 {
    } else {
        if b[0] == c[0] && is_subseq_of(b.drop_first(), c.drop_first()) {
            if a[0] == b[0] && is_subseq_of(a.drop_first(), b.drop_first()) {
                lemma_subseq_trans(a.drop_first(), b.drop_first(), c.drop_first());
            } else {
                lemma_subseq_trans(a, b.drop_first(), c.drop_first());
            }
        } else {
            lemma_subseq_trans(a, b, c.drop_first());
        }
    }
}

/// The concatenation, in order, of the contents of every leaf of the
/// tree: `Text` contents and cached one-line texts.
pub open spec fn leaf_concat(m: PrettyModel) -> Seq<char>
    decreases m, 2int,
{
    match m {
        PrettyModel::Text { text } => text,
        PrettyModel::Linearized { text, .. } => text,
        PrettyModel::Array { items } => leaves_items(items, items.len() as int),
        PrettyModel::Record { rec } => leaves_fields(rec.fields, rec.fields.len() as int)
            + leaves_items(rec.children, rec.children.len() as int),
    }
}

/// The concatenated leaf contents of the first `i` trees of a sequence.
pub open spec fn leaves_items(s: Seq<PrettyModel>, i: int) -> Seq<char>
    decreases s, i,
{
    if i <= 0 || i > s.len() {
        Seq::empty()
    } else {
        leaves_items(s, i - 1) + leaf_concat(s[i - 1])
    }
}

/// The concatenated leaf contents of the first `i` field values.
pub open spec fn leaves_fields(s: Seq<(Seq<char>, PrettyModel)>, i: int) -> Seq<char>
    decreases s, i,
{
    if i <= 0 || i > s.len() {
        Seq::empty()
    } else {
        leaves_fields(s, i - 1) + leaf_concat(s[i - 1].1)
    }
}

/// No truncation, one-line form: for a subtree without breakable
/// children — exactly the subtrees the measurement pass may commit to
/// one line — every leaf's content occurs, in order, inside the one-line
/// text.  (A record's children are never part of its one-line form,
/// which is why subtrees with them are never committed.)
pub proof fn law_no_truncation_one_line(m: PrettyModel, red: bool)
    requires
        !has_kids(m),
    ensures
        is_subseq_of(leaf_concat(m), one_line_text(m, red)),
    decreases m, 2int,
{
    match m {
        PrettyModel::Text { text } => {
            lemma_subseq_refl(text);
        },
        PrettyModel::Linearized { text, .. } => {
            lemma_subseq_refl(text);
        },
        PrettyModel::Array { items } => {
            if items.len() > 0 {
                lemma_items_leaves_in_text(items, items.len() as int, red);
                lemma_subseq_pad_left(
                    crate::model::arr_open_seq(red),
                    leaves_items(items, items.len() as int),
                    items_text_upto(items, items.len() as int, red),
                );
                lemma_subseq_pad_right(
                    leaves_items(items, items.len() as int),
                    crate::model::arr_open_seq(red) + items_text_upto(items, items.len() as int,
                        red),
                    crate::model::arr_close_seq(red),
                );
            }
        },
        PrettyModel::Record { rec } => {
            let nf = rec.fields.len() as int;
            assert(rec.children.len() == 0);
            assert(leaf_concat(m) =~= leaves_fields(rec.fields, nf));
            if nf == 0 {
            } else {
                lemma_fields_leaves_in_text(rec.fields, nf, red);
                lemma_subseq_pad_left(
                    rec.name + brace_open_seq(red),
                    leaves_fields(rec.fields, nf),
                    fields_text_upto(rec.fields, nf, red),
                );
                lemma_prepend_assoc(rec.name, brace_open_seq(red), fields_text_upto(rec.fields,
                    nf, red));
                lemma_subseq_pad_right(
                    leaves_fields(rec.fields, nf),
                    rec.name + brace_open_seq(red) + fields_text_upto(rec.fields, nf, red),
                    brace_close_seq(red),
                );
            }
        },
    }
}

pub proof fn lemma_items_leaves_in_text(s: Seq<PrettyModel>, i: int, red: bool)
    requires
        0 <= i <= s.len(),
        !any_kids_upto(s, s.len() as int),
    ensures
        is_subseq_of(leaves_items(s, i), items_text_upto(s, i, red)),
    decreases s, i,
{
    if i > 0 {
        lemma_items_leaves_in_text(s, i - 1, red);
        lemma_any_kids_elem(s, s.len() as int, i - 1);
        law_no_truncation_one_line(s[i - 1], red);
        let sep: Seq<char> = if i - 1 > 0 {
            sep_seq()
        } else {
            Seq::empty()
        };
        lemma_subseq_pad_left(sep, leaf_concat(s[i - 1]), one_line_text(s[i - 1], red));
        lemma_subseq_concat(
            leaves_items(s, i - 1),
            items_text_upto(s, i - 1, red),
            leaf_concat(s[i - 1]),
            sep + one_line_text(s[i - 1], red),
        );
        lemma_prepend_assoc(items_text_upto(s, i - 1, red), sep, one_line_text(s[i - 1], red));
    }
}

pub proof fn lemma_fields_leaves_in_text(s: Seq<(Seq<char>, PrettyModel)>, i: int, red: bool)
    requires
        0 <= i <= s.len(),
        !any_field_kids_upto(s, s.len() as int),
    ensures
        is_subseq_of(leaves_fields(s, i), fields_text_upto(s, i, red)),
    decreases s, i,
{
    if i > 0 {
        lemma_fields_leaves_in_text(s, i - 1, red);
        lemma_any_field_kids_elem(s, s.len() as int, i - 1);
        law_no_truncation_one_line(s[i - 1].1, red);
        let sep: Seq<char> = if i - 1 > 0 {
            sep_seq()
        } else {
            Seq::empty()
        };
        let pre = sep + s[i - 1].0 + colon_seq();
        lemma_subseq_pad_left(pre, leaf_concat(s[i - 1].1), one_line_text(s[i - 1].1, red));
        lemma_subseq_concat(
            leaves_fields(s, i - 1),
            fields_text_upto(s, i - 1, red),
            leaf_concat(s[i - 1].1),
            pre + one_line_text(s[i - 1].1, red),
        );
        let t = one_line_text(s[i - 1].1, red);
        let ftp = fields_text_upto(s, i - 1, red);
        assert(ftp + (pre + t) =~= ftp + sep + s[i - 1].0 + colon_seq() + t);
        assert(fields_text_upto(s, i, red) == ftp + sep + s[i - 1].0 + colon_seq() + t);
    }
}


/// The measurement pass drops no leaf: every leaf of the input occurs,
/// in order, among the leaves of the annotated tree (a committed subtree
/// carries its whole one-line text, which contains its leaves).
pub proof fn law_plan_ascii_keeps_leaves(
    indent: int,
    width: int,
    red: bool,
    base: int,
    m: PrettyModel,
    start_add: int,
    end_add: int,
)
    ensures
        is_subseq_of(
            leaf_concat(m),
            leaf_concat(plan_ascii(indent, width, red, base, m, start_add, end_add).0),
        ),
    decreases m, 2int,
{
    let flb = cap(base + start_add + end_add);
    let len = cap(one_line_len(m, red) + flb);
    if !has_kids(m) && len <= width {
        law_no_truncation_one_line(m, red);
    } else {
        let next = cap(base + indent);
        match m {
            PrettyModel::Text { text } => {
                lemma_subseq_refl(text);
            },
            PrettyModel::Linearized { text, .. } => {
                lemma_subseq_refl(text);
            },
            PrettyModel::Array { items } => {
                if items.len() > 0 {
                    lemma_plan_ascii_items_index(indent, width, red, next, items,
                        items.len() as int);
                    lemma_plan_items_keeps_leaves(indent, width, red, next, items,
                        items.len() as int);
                }
            },
            PrettyModel::Record { rec } => {
                let nf = rec.fields.len() as int;
                let nc = rec.children.len() as int;
                lemma_plan_ascii_fields_index(indent, width, red, next, rec.fields, nf);
                lemma_plan_ascii_children_index(indent, width, red, next, rec.children, nc);
                lemma_plan_fields_keeps_leaves(indent, width, red, next, rec.fields, nf);
                lemma_plan_children_keeps_leaves(indent, width, red, next, rec.children, nc);
                lemma_subseq_concat(
                    leaves_fields(rec.fields, nf),
                    leaves_fields(plan_ascii_fields(indent, width, red, next, rec.fields, nf), nf),
                    leaves_items(rec.children, nc),
                    leaves_items(plan_ascii_children(indent, width, red, next, rec.children, nc),
                        nc),
                );
            },
        }
    }
}

pub proof fn lemma_plan_items_keeps_leaves(
    indent: int,
    width: int,
    red: bool,
    next: int,
    s: Seq<PrettyModel>,
    i: int,
)
    requires
        0 <= i <= s.len(),
    ensures
        is_subseq_of(
            leaves_items(s, i),
            leaves_items(plan_ascii_items(indent, width, red, next, s, s.len() as int), i),
        ),
    decreases s, i,
{
    lemma_plan_ascii_items_index(indent, width, red, next, s, s.len() as int);
    let planned = plan_ascii_items(indent, width, red, next, s, s.len() as int);
    if i > 0 {
        lemma_plan_items_keeps_leaves(indent, width, red, next, s, i - 1);
        law_plan_ascii_keeps_leaves(indent, width, red, next, s[i - 1], 0, 1);
        lemma_subseq_concat(
            leaves_items(s, i - 1),
            leaves_items(planned, i - 1),
            leaf_concat(s[i - 1]),
            leaf_concat(planned[i - 1]),
        );
    }
}

pub proof fn lemma_plan_children_keeps_leaves(
    indent: int,
    width: int,
    red: bool,
    next: int,
    s: Seq<PrettyModel>,
    i: int,
)
    requires
        0 <= i <= s.len(),
    ensures
        is_subseq_of(
            leaves_items(s, i),
            leaves_items(plan_ascii_children(indent, width, red, next, s, s.len() as int), i),
        ),
    decreases s, i,
{
    lemma_plan_ascii_children_index(indent, width, red, next, s, s.len() as int);
    let planned = plan_ascii_children(indent, width, red, next, s, s.len() as int);
    if i > 0 {
        lemma_plan_children_keeps_leaves(indent, width, red, next, s, i - 1);
        let e: int = if i - 1 < s.len() - 1 {
            1
        } else {
            0
        };
        law_plan_ascii_keeps_leaves(indent, width, red, next, s[i - 1], 0, e);
        lemma_subseq_concat(
            leaves_items(s, i - 1),
            leaves_items(planned, i - 1),
            leaf_concat(s[i - 1]),
            leaf_concat(planned[i - 1]),
        );
    }
}

pub proof fn lemma_plan_fields_keeps_leaves(
    indent: int,
    width: int,
    red: bool,
    next: int,
    s: Seq<(Seq<char>, PrettyModel)>,
    i: int,
)
    requires
        0 <= i <= s.len(),
    ensures
        is_subseq_of(
            leaves_fields(s, i),
            leaves_fields(plan_ascii_fields(indent, width, red, next, s, s.len() as int), i),
        ),
    decreases s, i,
{
    lemma_plan_ascii_fields_index(indent, width, red, next, s, s.len() as int);
    let planned = plan_ascii_fields(indent, width, red, next, s, s.len() as int);
    if i > 0 {
        lemma_plan_fields_keeps_leaves(indent, width, red, next, s, i - 1);
        let e: int = if i - 1 < s.len() - 1 {
            1
        } else {
            0
        };
        law_plan_ascii_keeps_leaves(indent, width, red, next, s[i - 1].1, cap(
            s[i - 1].0.len() + 2int,
        ), e);
        lemma_subseq_concat(
            leaves_fields(s, i - 1),
            leaves_fields(planned, i - 1),
            leaf_concat(s[i - 1].1),
            leaf_concat(planned[i - 1].1),
        );
    }
}


pub proof fn lemma_subseq_between(a: Seq<char>, b: Seq<char>, pre: Seq<char>, post: Seq<char>)
    requires
        is_subseq_of(a, b),
    ensures
        is_subseq_of(a, (pre + b) + post),
{
    lemma_subseq_pad_left(pre, a, b);
    lemma_subseq_pad_right(a, pre + b, post);
}

/// The rendering pass drops no leaf: every leaf of the annotated tree
/// occurs, in order, in the emitted text.
#[verifier::rlimit(60)]
#[verifier::spinoff_prover]
pub proof fn law_rend_ascii_contains_leaves(
    bnd: bool,
    w: int,
    indent: int,
    m: PrettyModel,
    self_ind: int,
    occ: int,
)
    ensures
        is_subseq_of(leaf_concat(m), rend_ascii(bnd, w, indent, m, self_ind, occ).0),
    decreases m, 2int,
{
    match m {
        PrettyModel::Text { text } => {
            lemma_subseq_refl(text);
        },
        PrettyModel::Linearized { text, .. } => {
            lemma_subseq_refl(text);
        },
        PrettyModel::Array { items } => {
            if items.len() > 0 {
                let ind_len = cap(self_ind + indent);
                let n = items.len() as int;
                lemma_rend_items_contain_leaves(bnd, w, indent, items, ind_len, n);
                let op = seq!['['] + crate::buffer::pusheen_seq(bnd, w, cap(occ + 1));
                let body = rend_ascii_items(bnd, w, indent, items, ind_len, n);
                let cl = begin_seq(bnd) + spaces(self_ind) + seq![']'];
                lemma_subseq_pad_left(op, leaves_items(items, n), body);
                lemma_subseq_pad_right(leaves_items(items, n), op + body, cl);
                assert(rend_ascii(bnd, w, indent, m, self_ind, occ).0 =~= (op + body) + cl);
            }
        },
        PrettyModel::Record { rec } => {
            let ind_len = cap(self_ind + indent);
            let nf = rec.fields.len() as int;
            let nc = rec.children.len() as int;
            lemma_rend_fields_contain_leaves(bnd, w, indent, rec.fields, ind_len, nf);
            lemma_rend_kids_contain_leaves(bnd, w, indent, rec.children, ind_len, nc, cap(
                self_ind + 1,
            ));
            let lf = leaves_fields(rec.fields, nf);
            let lk = leaves_items(rec.children, nc);
            let fpart = rend_ascii_fields(bnd, w, indent, rec.fields, ind_len, nf);
            let kpart = rend_ascii_kids(bnd, w, indent, rec.children, ind_len, nc, cap(
                self_ind + 1,
            )).0;
            let pre = rec.name + seq![' ', '{'] + crate::buffer::pusheen_seq(bnd, w, cap(
                occ + rec.name.len() + 2,
            ));
            let mid = begin_seq(bnd) + spaces(self_ind) + seq!['}'];
            lemma_subseq_pad_right(lf, fpart, mid);
            lemma_subseq_concat(lf, fpart + mid, lk, kpart);
            lemma_subseq_pad_left(pre, lf + lk, (fpart + mid) + kpart);
            assert(rend_ascii(bnd, w, indent, m, self_ind, occ).0 =~= pre + ((fpart + mid)
                + kpart));
            assert(leaf_concat(m) == lf + lk);
        },
    }
}

pub proof fn lemma_rend_items_contain_leaves(
    bnd: bool,
    w: int,
    indent: int,
    s: Seq<PrettyModel>,
    ind_len: int,
    i: int,
)
    requires
        0 <= i <= s.len(),
    ensures
        is_subseq_of(leaves_items(s, i), rend_ascii_items(bnd, w, indent, s, ind_len, i)),
    decreases s, i,
{
    if i > 0 {
        lemma_rend_items_contain_leaves(bnd, w, indent, s, ind_len, i - 1);
        law_rend_ascii_contains_leaves(bnd, w, indent, s[i - 1], ind_len, cap(ind_len));
        let body = rend_ascii(bnd, w, indent, s[i - 1], ind_len, cap(ind_len));
        let occ2 = if i - 1 < s.len() - 1 {
            cap(body.1 + 1)
        } else {
            body.1
        };
        let pre = begin_seq(bnd) + spaces(ind_len);
        let post = (if i - 1 < s.len() - 1 {
            seq![',']
        } else {
            Seq::<char>::empty()
        }) + crate::buffer::pusheen_seq(bnd, w, occ2);
        lemma_subseq_between(leaf_concat(s[i - 1]), body.0, pre, post);
        lemma_subseq_concat(
            leaves_items(s, i - 1),
            rend_ascii_items(bnd, w, indent, s, ind_len, i - 1),
            leaf_concat(s[i - 1]),
            (pre + body.0) + post,
        );
        assert(rend_ascii_items(bnd, w, indent, s, ind_len, i) =~= rend_ascii_items(bnd, w,
            indent, s, ind_len, i - 1) + ((pre + body.0) + post));
    }
}

pub proof fn lemma_rend_fields_contain_leaves(
    bnd: bool,
    w: int,
    indent: int,
    s: Seq<(Seq<char>, PrettyModel)>,
    ind_len: int,
    i: int,
)
    requires
        0 <= i <= s.len(),
    ensures
        is_subseq_of(leaves_fields(s, i), rend_ascii_fields(bnd, w, indent, s, ind_len, i)),
    decreases s, i,
{
    if i > 0 {
        lemma_rend_fields_contain_leaves(bnd, w, indent, s, ind_len, i - 1);
        let start_occ = cap(cap(cap(ind_len) + s[i - 1].0.len()) + 2);
        law_rend_ascii_contains_leaves(bnd, w, indent, s[i - 1].1, ind_len, start_occ);
        let body = rend_ascii(bnd, w, indent, s[i - 1].1, ind_len, start_occ);
        let occ2 = if i - 1 < s.len() - 1 {
            cap(body.1 + 1)
        } else {
            body.1
        };
        let pre = begin_seq(bnd) + spaces(ind_len) + s[i - 1].0 + colon_seq();
        let post = (if i - 1 < s.len() - 1 {
            seq![',']
        } else {
            Seq::<char>::empty()
        }) + crate::buffer::pusheen_seq(bnd, w, occ2);
        lemma_subseq_between(leaf_concat(s[i - 1].1), body.0, pre, post);
        lemma_subseq_concat(
            leaves_fields(s, i - 1),
            rend_ascii_fields(bnd, w, indent, s, ind_len, i - 1),
            leaf_concat(s[i - 1].1),
            (pre + body.0) + post,
        );
        assert(rend_ascii_fields(bnd, w, indent, s, ind_len, i) =~= rend_ascii_fields(bnd, w,
            indent, s, ind_len, i - 1) + ((pre + body.0) + post));
    }
}

pub proof fn lemma_rend_kids_contain_leaves(
    bnd: bool,
    w: int,
    indent: int,
    s: Seq<PrettyModel>,
    ind_len: int,
    i: int,
    occ0: int,
)
    requires
        0 <= i <= s.len(),
    ensures
        is_subseq_of(leaves_items(s, i), rend_ascii_kids(bnd, w, indent, s, ind_len, i, occ0).0),
    decreases s, i,
{
    if i > 0 {
        lemma_rend_kids_contain_leaves(bnd, w, indent, s, ind_len, i - 1, occ0);
        law_rend_ascii_contains_leaves(bnd, w, indent, s[i - 1], ind_len, cap(ind_len));
        let prev = rend_ascii_kids(bnd, w, indent, s, ind_len, i - 1, occ0);
        let body = rend_ascii(bnd, w, indent, s[i - 1], ind_len, cap(ind_len));
        let pre = crate::buffer::pusheen_seq(bnd, w, prev.1) + begin_seq(bnd) + spaces(ind_len);
        lemma_subseq_pad_left(pre, leaf_concat(s[i - 1]), body.0);
        lemma_subseq_concat(leaves_items(s, i - 1), prev.0, leaf_concat(s[i - 1]), pre + body.0);
        assert(rend_ascii_kids(bnd, w, indent, s, ind_len, i, occ0).0 =~= prev.0 + (pre
            + body.0));
    }
}

/// No truncation, bracket-and-brace mode, end to end: every leaf of the
/// input tree occurs, in order, in the full rendered output — through
/// both measurement passes and the rendering pass, no character of a
/// leaf is dropped.
pub proof fn law_no_truncation_ascii(cfg: crate::PrettyConfig, m: PrettyModel)
    ensures
        is_subseq_of(leaf_concat(m), ascii_output(cfg, m)),
{
    let pass1 = plan_ascii(cfg.indent as int, cfg.width as int, cfg.reduced_spaces, 0, m, 0, 0);
    let pass2 = plan_ascii(cfg.indent as int, pass1.1, cfg.reduced_spaces, 0, pass1.0, 0, 0);
    let bnd = cfg.need_boundaries;
    let body = rend_ascii(bnd, pass2.1, cfg.indent as int, pass2.0, 0, 0);
    law_plan_ascii_keeps_leaves(cfg.indent as int, cfg.width as int, cfg.reduced_spaces, 0, m, 0,
        0);
    law_plan_ascii_keeps_leaves(cfg.indent as int, pass1.1, cfg.reduced_spaces, 0, pass1.0, 0, 0);
    lemma_subseq_trans(leaf_concat(m), leaf_concat(pass1.0), leaf_concat(pass2.0));
    law_rend_ascii_contains_leaves(bnd, pass2.1, cfg.indent as int, pass2.0, 0, 0);
    lemma_subseq_trans(leaf_concat(m), leaf_concat(pass2.0), body.0);
    let pre = horizon_seq(bnd, pass2.1) + (if bnd {
        seq!['\n']
    } else {
        Seq::<char>::empty()
    }) + begin_seq(bnd);
    let post = (if bnd {
        pusheen_seq(bnd, pass2.1, body.1)
    } else {
        Seq::<char>::empty()
    }) + horizon_seq(bnd, pass2.1);
    lemma_subseq_between(leaf_concat(m), body.0, pre, post);
    assert(ascii_output(cfg, m) =~= (pre + body.0) + post);
}


/// The `fields_is_linear` flags of the tree are honest: wherever the
/// flag is set, none of that record's field values has breakable
/// children.  Constructors leave every flag `false`, so caller-built
/// trees satisfy this trivially, and the measurement pass preserves it.
pub open spec fn fil_honest(m: PrettyModel) -> bool
    decreases m, 1int,
{
    match m {
        PrettyModel::Text { .. } => true,
        PrettyModel::Linearized { .. } => true,
        PrettyModel::Array { items } => all_fil_honest(items, items.len() as int),
        PrettyModel::Record { rec } => (rec.fields_is_linear ==> !any_field_kids_upto(
            rec.fields,
            rec.fields.len() as int,
        )) && all_field_fil_honest(rec.fields, rec.fields.len() as int) && all_fil_honest(
            rec.children,
            rec.children.len() as int,
        ),
    }
}

/// `fil_honest` holds of the first `i` trees of a sequence.
pub open spec fn all_fil_honest(s: Seq<PrettyModel>, i: int) -> bool
    decreases s, i,
{
    if i <= 0 || i > s.len() {
        true
    } else {
        all_fil_honest(s, i - 1) && fil_honest(s[i - 1])
    }
}

/// `fil_honest` holds of the first `i` field values of a field list.
pub open spec fn all_field_fil_honest(s: Seq<(Seq<char>, PrettyModel)>, i: int) -> bool
    decreases s, i,
{
    if i <= 0 || i > s.len() {
        true
    } else {
        all_field_fil_honest(s, i - 1) && fil_honest(s[i - 1].1)
    }
}

pub proof fn lemma_all_fil_honest_elem(s: Seq<PrettyModel>, n: int, j: int)
    requires
        0 <= j < n <= s.len(),
        all_fil_honest(s, n),
    ensures
        fil_honest(s[j]),
    decreases n,
{
    if j < n - 1 {
        lemma_all_fil_honest_elem(s, n - 1, j);
    }
}

pub proof fn lemma_all_field_fil_honest_elem(s: Seq<(Seq<char>, PrettyModel)>, n: int, j: int)
    requires
        0 <= j < n <= s.len(),
        all_field_fil_honest(s, n),
    ensures
        fil_honest(s[j].1),
    decreases n,
{
    if j < n - 1 {
        lemma_all_field_fil_honest_elem(s, n - 1, j);
    }
}

/// Measurement never gives a subtree breakable children it did not
/// already have.
pub proof fn lemma_plan_uni_keeps_childless(
    indent: int,
    width: int,
    red: bool,
    base: int,
    m: PrettyModel,
    additional: int,
)
    requires
        !has_kids(m),
    ensures
        !has_kids(plan_uni(indent, width, red, base, m, additional).0),
    decreases m, 2int,
{
    let flb = cap(base + additional);
    let len = cap(one_line_len(m, red) + flb);
    if !has_kids(m) && len <= width {
    } else {
        let next = cap(base + indent);
        match m {
            PrettyModel::Array { items } => {
                if items.len() == 1 {
                    lemma_any_kids_elem(items, 1, 0);
                    lemma_plan_uni_keeps_childless(indent, width, red, base, items[0], additional);
                } else if items.len() > 0 {
                    lemma_plan_uni_seq_index(indent, width, red, next, items, items.len() as int);
                    lemma_plan_uni_seq_childless(indent, width, red, next, items,
                        items.len() as int);
                }
            },
            PrettyModel::Record { rec } => {
                lemma_plan_uni_fields_index(indent, width, red, next, rec.fields,
                    rec.fields.len() as int);
                lemma_plan_uni_seq_index(indent, width, red, next, rec.children,
                    rec.children.len() as int);
                lemma_plan_uni_fields_childless(indent, width, red, next, rec.fields,
                    rec.fields.len() as int);
            },
            _ => {},
        }
    }
}

pub proof fn lemma_plan_uni_seq_childless(
    indent: int,
    width: int,
    red: bool,
    next: int,
    s: Seq<PrettyModel>,
    i: int,
)
    requires
        0 <= i <= s.len(),
        !any_kids_upto(s, s.len() as int),
    ensures
        !any_kids_upto(plan_uni_seq(indent, width, red, next, s, s.len() as int), i),
    decreases s, i,
{
    lemma_plan_uni_seq_index(indent, width, red, next, s, s.len() as int);
    if i > 0 {
        lemma_plan_uni_seq_childless(indent, width, red, next, s, i - 1);
        lemma_any_kids_elem(s, s.len() as int, i - 1);
        lemma_plan_uni_keeps_childless(indent, width, red, next, s[i - 1], 0);
    }
}

pub proof fn lemma_plan_uni_fields_childless(
    indent: int,
    width: int,
    red: bool,
    next: int,
    s: Seq<(Seq<char>, PrettyModel)>,
    i: int,
)
    requires
        0 <= i <= s.len(),
        !any_field_kids_upto(s, s.len() as int),
    ensures
        !any_field_kids_upto(plan_uni_fields(indent, width, red, next, s, s.len() as int), i),
    decreases s, i,
{
    lemma_plan_uni_fields_index(indent, width, red, next, s, s.len() as int);
    if i > 0 {
        lemma_plan_uni_fields_childless(indent, width, red, next, s, i - 1);
        lemma_any_field_kids_elem(s, s.len() as int, i - 1);
        lemma_plan_uni_keeps_childless(indent, width, red, next, s[i - 1].1, cap(
            s[i - 1].0.len() + 2int,
        ));
    }
}

/// The measurement pass keeps the `fields_is_linear` flags honest: a
/// flag it sets is justified either by the flag it found (already
/// honest) or by its own check that no field value has breakable
/// children.
pub proof fn lemma_plan_uni_keeps_fil_honest(
    indent: int,
    width: int,
    red: bool,
    base: int,
    m: PrettyModel,
    additional: int,
)
    requires
        fil_honest(m),
    ensures
        fil_honest(plan_uni(indent, width, red, base, m, additional).0),
    decreases m, 2int,
{
    let flb = cap(base + additional);
    let len = cap(one_line_len(m, red) + flb);
    if !has_kids(m) && len <= width {
    } else {
        let next = cap(base + indent);
        match m {
            PrettyModel::Array { items } => {
                if items.len() == 1 {
                    lemma_all_fil_honest_elem(items, 1, 0);
                    lemma_plan_uni_keeps_fil_honest(indent, width, red, base, items[0],
                        additional);
                } else if items.len() > 0 {
                    lemma_plan_uni_seq_index(indent, width, red, next, items, items.len() as int);
                    lemma_plan_uni_seq_fil_honest(indent, width, red, next, items,
                        items.len() as int);
                }
            },
            PrettyModel::Record { rec } => {
                let nf = rec.fields.len() as int;
                let nc = rec.children.len() as int;
                lemma_plan_uni_fields_index(indent, width, red, next, rec.fields, nf);
                lemma_plan_uni_seq_index(indent, width, red, next, rec.children, nc);
                lemma_plan_uni_fields_fil_honest(indent, width, red, next, rec.fields, nf);
                lemma_plan_uni_seq_fil_honest(indent, width, red, next, rec.children, nc);
                let fil = rec.fields_is_linear || (len < width && !any_field_kids_upto(
                    rec.fields,
                    nf,
                ));
                if fil {
                    lemma_plan_uni_fields_childless(indent, width, red, next, rec.fields, nf);
                }
            },
            _ => {},
        }
    }
}

pub proof fn lemma_plan_uni_seq_fil_honest(
    indent: int,
    width: int,
    red: bool,
    next: int,
    s: Seq<PrettyModel>,
    i: int,
)
    requires
        0 <= i <= s.len(),
        all_fil_honest(s, s.len() as int),
    ensures
        all_fil_honest(plan_uni_seq(indent, width, red, next, s, s.len() as int), i),
    decreases s, i,
{
    lemma_plan_uni_seq_index(indent, width, red, next, s, s.len() as int);
    if i > 0 {
        lemma_plan_uni_seq_fil_honest(indent, width, red, next, s, i - 1);
        lemma_all_fil_honest_elem(s, s.len() as int, i - 1);
        lemma_plan_uni_keeps_fil_honest(indent, width, red, next, s[i - 1], 0);
    }
}

pub proof fn lemma_plan_uni_fields_fil_honest(
    indent: int,
    width: int,
    red: bool,
    next: int,
    s: Seq<(Seq<char>, PrettyModel)>,
    i: int,
)
    requires
        0 <= i <= s.len(),
        all_field_fil_honest(s, s.len() as int),
    ensures
        all_field_fil_honest(plan_uni_fields(indent, width, red, next, s, s.len() as int), i),
    decreases s, i,
{
    lemma_plan_uni_fields_index(indent, width, red, next, s, s.len() as int);
    if i > 0 {
        lemma_plan_uni_fields_fil_honest(indent, width, red, next, s, i - 1);
        lemma_all_field_fil_honest_elem(s, s.len() as int, i - 1);
        lemma_plan_uni_keeps_fil_honest(indent, width, red, next, s[i - 1].1, cap(
            s[i - 1].0.len() + 2int,
        ));
    }
}

/// The Unicode measurement pass drops no leaf.
pub proof fn law_plan_uni_keeps_leaves(
    indent: int,
    width: int,
    red: bool,
    base: int,
    m: PrettyModel,
    additional: int,
)
    ensures
        is_subseq_of(
            leaf_concat(m),
            leaf_concat(plan_uni(indent, width, red, base, m, additional).0),
        ),
    decreases m, 2int,
{
    let flb = cap(base + additional);
    let len = cap(one_line_len(m, red) + flb);
    if !has_kids(m) && len <= width {
        law_no_truncation_one_line(m, red);
    } else {
        let next = cap(base + indent);
        match m {
            PrettyModel::Text { text } => {
                lemma_subseq_refl(text);
            },
            PrettyModel::Linearized { text, .. } => {
                lemma_subseq_refl(text);
            },
            PrettyModel::Array { items } => {
                if items.len() == 1 {
                    law_plan_uni_keeps_leaves(indent, width, red, base, items[0], additional);
                    assert(leaf_concat(m) == leaves_items(items, 1));
                    assert(leaves_items(items, 1) == leaves_items(items, 0) + leaf_concat(
                        items[0],
                    ));
                    lemma_prepend_empty(leaf_concat(items[0]));
                } else if items.len() > 0 {
                    lemma_plan_uni_seq_index(indent, width, red, next, items, items.len() as int);
                    lemma_plan_uni_seq_keeps_leaves(indent, width, red, next, items,
                        items.len() as int);
                }
            },
            PrettyModel::Record { rec } => {
                let nf = rec.fields.len() as int;
                let nc = rec.children.len() as int;
                lemma_plan_uni_fields_index(indent, width, red, next, rec.fields, nf);
                lemma_plan_uni_seq_index(indent, width, red, next, rec.children, nc);
                lemma_plan_uni_fields_keeps_leaves(indent, width, red, next, rec.fields, nf);
                lemma_plan_uni_seq_keeps_leaves(indent, width, red, next, rec.children, nc);
                lemma_subseq_concat(
                    leaves_fields(rec.fields, nf),
                    leaves_fields(plan_uni_fields(indent, width, red, next, rec.fields, nf), nf),
                    leaves_items(rec.children, nc),
                    leaves_items(plan_uni_seq(indent, width, red, next, rec.children, nc), nc),
                );
            },
        }
    }
}

pub proof fn lemma_plan_uni_seq_keeps_leaves(
    indent: int,
    width: int,
    red: bool,
    next: int,
    s: Seq<PrettyModel>,
    i: int,
)
    requires
        0 <= i <= s.len(),
    ensures
        is_subseq_of(
            leaves_items(s, i),
            leaves_items(plan_uni_seq(indent, width, red, next, s, s.len() as int), i),
        ),
    decreases s, i,
{
    lemma_plan_uni_seq_index(indent, width, red, next, s, s.len() as int);
    let planned = plan_uni_seq(indent, width, red, next, s, s.len() as int);
    if i > 0 {
        lemma_plan_uni_seq_keeps_leaves(indent, width, red, next, s, i - 1);
        law_plan_uni_keeps_leaves(indent, width, red, next, s[i - 1], 0);
        lemma_subseq_concat(
            leaves_items(s, i - 1),
            leaves_items(planned, i - 1),
            leaf_concat(s[i - 1]),
            leaf_concat(planned[i - 1]),
        );
    }
}

pub proof fn lemma_plan_uni_fields_keeps_leaves(
    indent: int,
    width: int,
    red: bool,
    next: int,
    s: Seq<(Seq<char>, PrettyModel)>,
    i: int,
)
    requires
        0 <= i <= s.len(),
    ensures
        is_subseq_of(
            leaves_fields(s, i),
            leaves_fields(plan_uni_fields(indent, width, red, next, s, s.len() as int), i),
        ),
    decreases s, i,
{
    lemma_plan_uni_fields_index(indent, width, red, next, s, s.len() as int);
    let planned = plan_uni_fields(indent, width, red, next, s, s.len() as int);
    if i > 0 {
        lemma_plan_uni_fields_keeps_leaves(indent, width, red, next, s, i - 1);
        law_plan_uni_keeps_leaves(indent, width, red, next, s[i - 1].1, cap(
            s[i - 1].0.len() + 2int,
        ));
        lemma_subseq_concat(
            leaves_fields(s, i - 1),
            leaves_fields(planned, i - 1),
            leaf_concat(s[i - 1].1),
            leaf_concat(planned[i - 1].1),
        );
    }
}


/// The Unicode rendering pass drops no leaf, provided the
/// `fields_is_linear` flags are honest (constructors make them so, and
/// the measurement pass keeps them so): a record rendered with its field
/// block on one line carries every field leaf inside that line.
#[verifier::rlimit(60)]
#[verifier::spinoff_prover]
pub proof fn law_rend_uni_contains_leaves(
    bnd: bool,
    w: int,
    indent: int,
    red: bool,
    m: PrettyModel,
    pfx: Seq<char>,
    olp: Seq<char>,
    occ: int,
)
    requires
        fil_honest(m),
    ensures
        is_subseq_of(leaf_concat(m), rend_uni(bnd, w, indent, red, m, pfx, olp, occ).0),
    decreases m, 2int,
{
    match m {
        PrettyModel::Text { text } => {
            lemma_subseq_refl(text);
            lemma_subseq_pad_left(olp, text, text);
        },
        PrettyModel::Linearized { text, .. } => {
            lemma_subseq_refl(text);
            lemma_subseq_pad_left(olp, text, text);
        },
        PrettyModel::Array { items } => {
            if items.len() > 0 {
                let n = items.len() as int;
                lemma_rend_uni_items_contain_leaves(bnd, w, indent, red, items, pfx, n);
                lemma_subseq_pad_left(
                    pusheen_seq(bnd, w, occ),
                    leaves_items(items, n),
                    rend_uni_items(bnd, w, indent, red, items, pfx, n).0,
                );
            }
        },
        PrettyModel::Record { rec } => {
            let nf = rec.fields.len() as int;
            let nc = rec.children.len() as int;
            let lf = leaves_fields(rec.fields, nf);
            let lk = leaves_items(rec.children, nc);
            let fldpart: Seq<char> = if rec.fields_is_linear {
                crate::model::record_text(rec, red) + pusheen_seq(bnd, w, cap(
                    occ + crate::model::record_len(rec, red),
                ))
            } else {
                rec.name + pusheen_seq(bnd, w, cap(occ + rec.name.len())) + rend_uni_flds(bnd, w,
                    indent, red, rec.fields, pfx, record_has_kids(rec), nf).0
            };
            if rec.fields_is_linear {
                if nf == 0 {
                    assert(lf.len() == 0);
                } else {
                    lemma_fields_leaves_in_text(rec.fields, nf, red);
                    lemma_subseq_pad_left(
                        rec.name + brace_open_seq(red),
                        lf,
                        fields_text_upto(rec.fields, nf, red),
                    );
                    lemma_prepend_assoc(rec.name, brace_open_seq(red), fields_text_upto(
                        rec.fields,
                        nf,
                        red,
                    ));
                    lemma_subseq_pad_right(
                        lf,
                        rec.name + brace_open_seq(red) + fields_text_upto(rec.fields, nf, red),
                        brace_close_seq(red),
                    );
                }
                lemma_subseq_pad_right(
                    lf,
                    crate::model::record_text(rec, red),
                    pusheen_seq(bnd, w, cap(occ + crate::model::record_len(rec, red))),
                );
            } else {
                lemma_rend_uni_flds_contain_leaves(bnd, w, indent, red, rec.fields, pfx,
                    record_has_kids(rec), nf);
                lemma_subseq_pad_left(
                    rec.name + pusheen_seq(bnd, w, cap(occ + rec.name.len())),
                    lf,
                    rend_uni_flds(bnd, w, indent, red, rec.fields, pfx, record_has_kids(rec),
                        nf).0,
                );
                lemma_prepend_assoc(
                    rec.name,
                    pusheen_seq(bnd, w, cap(occ + rec.name.len())),
                    rend_uni_flds(bnd, w, indent, red, rec.fields, pfx, record_has_kids(rec),
                        nf).0,
                );
            }
            let fo: int = if rec.fields_is_linear {
                0
            } else {
                rend_uni_flds(bnd, w, indent, red, rec.fields, pfx, record_has_kids(rec), nf).1
            };
            lemma_rend_uni_kids_contain_leaves(bnd, w, indent, red, rec.children, pfx, nc, fo);
            lemma_subseq_concat(
                lf,
                fldpart,
                lk,
                rend_uni_kids(bnd, w, indent, red, rec.children, pfx, nc, fo).0,
            );
        },
    }
}

pub proof fn lemma_rend_uni_items_contain_leaves(
    bnd: bool,
    w: int,
    indent: int,
    red: bool,
    s: Seq<PrettyModel>,
    pfx: Seq<char>,
    i: int,
)
    requires
        0 <= i <= s.len(),
        all_fil_honest(s, s.len() as int),
    ensures
        is_subseq_of(leaves_items(s, i), rend_uni_items(bnd, w, indent, red, s, pfx, i).0),
    decreases s, i,
{
    if i > 0 {
        lemma_rend_uni_items_contain_leaves(bnd, w, indent, red, s, pfx, i - 1);
        lemma_all_fil_honest_elem(s, s.len() as int, i - 1);
        let pre = rend_uni_items(bnd, w, indent, red, s, pfx, i - 1);
        let is_not_last = i - 1 < s.len() - 1;
        let cpfx = if i - 1 == 0 || is_not_last {
            cont_of(indent, red, pfx)
        } else {
            last_cont_of(indent, red, pfx)
        };
        let fpfx = if i - 1 == 0 {
            first_of(indent, red, pfx)
        } else if is_not_last {
            tee_of(indent, red, pfx)
        } else {
            corner_of(indent, red, pfx)
        };
        let body = rend_uni(bnd, w, indent, red, s[i - 1], cpfx, Seq::empty(), cap(
            pre.1 + fpfx.len(),
        ));
        law_rend_uni_contains_leaves(bnd, w, indent, red, s[i - 1], cpfx, Seq::empty(), cap(
            pre.1 + fpfx.len(),
        ));
        let b4: Seq<char> = if is_not_last {
            pusheen_seq(bnd, w, body.1)
        } else {
            Seq::empty()
        };
        lemma_subseq_pad_left(begin_seq(bnd) + fpfx, leaf_concat(s[i - 1]), body.0);
        lemma_subseq_pad_right(leaf_concat(s[i - 1]), (begin_seq(bnd) + fpfx) + body.0, b4);
        lemma_subseq_concat(
            leaves_items(s, i - 1),
            pre.0,
            leaf_concat(s[i - 1]),
            ((begin_seq(bnd) + fpfx) + body.0) + b4,
        );
        lemma_prepend_assoc(pre.0, begin_seq(bnd), fpfx);
        lemma_prepend_assoc(pre.0, begin_seq(bnd) + fpfx, body.0);
        lemma_prepend_assoc(pre.0, (begin_seq(bnd) + fpfx) + body.0, b4);
        assert(rend_uni_items(bnd, w, indent, red, s, pfx, i).0 == pre.0 + (((begin_seq(bnd)
            + fpfx) + body.0) + b4)) by {
            lemma_prepend_assoc(pre.0 + begin_seq(bnd), fpfx, body.0);
            assert(rend_uni_items(bnd, w, indent, red, s, pfx, i).0 == pre.0 + begin_seq(bnd)
                + fpfx + body.0 + b4);
            lemma_prepend_assoc(pre.0, begin_seq(bnd), fpfx);
            lemma_prepend_assoc(pre.0, begin_seq(bnd) + fpfx, body.0);
            lemma_prepend_assoc(pre.0, (begin_seq(bnd) + fpfx) + body.0, b4);
        };
    }
}

pub proof fn lemma_rend_uni_flds_contain_leaves(
    bnd: bool,
    w: int,
    indent: int,
    red: bool,
    s: Seq<(Seq<char>, PrettyModel)>,
    pfx: Seq<char>,
    has_k: bool,
    i: int,
)
    requires
        0 <= i <= s.len(),
        all_field_fil_honest(s, s.len() as int),
    ensures
        is_subseq_of(
            leaves_fields(s, i),
            rend_uni_flds(bnd, w, indent, red, s, pfx, has_k, i).0,
        ),
    decreases s, i,
{
    if i > 0 {
        lemma_rend_uni_flds_contain_leaves(bnd, w, indent, red, s, pfx, has_k, i - 1);
        lemma_all_field_fil_honest_elem(s, s.len() as int, i - 1);
        let pre = rend_uni_flds(bnd, w, indent, red, s, pfx, has_k, i - 1);
        let is_not_last = has_k || i - 1 < s.len() - 1;
        let cpfx = if is_not_last {
            cont_of(indent, red, pfx)
        } else {
            last_cont_of(indent, red, pfx)
        };
        let fpfx = if is_not_last {
            tee_of(indent, red, pfx)
        } else {
            corner_of(indent, red, pfx)
        };
        let so = cap(cap(cap(pre.1 + fpfx.len()) + s[i - 1].0.len()) + 1);
        let body = rend_uni(bnd, w, indent, red, s[i - 1].1, cpfx, seq![' '], so);
        law_rend_uni_contains_leaves(bnd, w, indent, red, s[i - 1].1, cpfx, seq![' '], so);
        let b6: Seq<char> = if is_not_last {
            pusheen_seq(bnd, w, body.1)
        } else {
            Seq::empty()
        };
        let hd = ((begin_seq(bnd) + fpfx) + s[i - 1].0) + seq![':'];
        lemma_subseq_pad_left(hd, leaf_concat(s[i - 1].1), body.0);
        lemma_subseq_pad_right(leaf_concat(s[i - 1].1), hd + body.0, b6);
        lemma_subseq_concat(
            leaves_fields(s, i - 1),
            pre.0,
            leaf_concat(s[i - 1].1),
            (hd + body.0) + b6,
        );
        assert(rend_uni_flds(bnd, w, indent, red, s, pfx, has_k, i).0 == pre.0 + ((hd + body.0)
            + b6)) by {
            assert(rend_uni_flds(bnd, w, indent, red, s, pfx, has_k, i).0 == pre.0 + begin_seq(
                bnd,
            ) + fpfx + s[i - 1].0 + seq![':'] + body.0 + b6);
            lemma_prepend_assoc(pre.0, begin_seq(bnd), fpfx);
            lemma_prepend_assoc(pre.0, begin_seq(bnd) + fpfx, s[i - 1].0);
            lemma_prepend_assoc(pre.0, (begin_seq(bnd) + fpfx) + s[i - 1].0, seq![':']);
            lemma_prepend_assoc(pre.0, hd, body.0);
            lemma_prepend_assoc(pre.0, hd + body.0, b6);
        };
    }
}

pub proof fn lemma_rend_uni_kids_contain_leaves(
    bnd: bool,
    w: int,
    indent: int,
    red: bool,
    s: Seq<PrettyModel>,
    pfx: Seq<char>,
    i: int,
    occ0: int,
)
    requires
        0 <= i <= s.len(),
        all_fil_honest(s, s.len() as int),
    ensures
        is_subseq_of(
            leaves_items(s, i),
            rend_uni_kids(bnd, w, indent, red, s, pfx, i, occ0).0,
        ),
    decreases s, i,
{
    if i > 0 {
        lemma_rend_uni_kids_contain_leaves(bnd, w, indent, red, s, pfx, i - 1, occ0);
        lemma_all_fil_honest_elem(s, s.len() as int, i - 1);
        let pre = rend_uni_kids(bnd, w, indent, red, s, pfx, i - 1, occ0);
        let is_not_last = i - 1 < s.len() - 1;
        let cpfx = if is_not_last {
            cont_of(indent, red, pfx)
        } else {
            last_cont_of(indent, red, pfx)
        };
        let fpfx = if is_not_last {
            tee_of(indent, red, pfx)
        } else {
            corner_of(indent, red, pfx)
        };
        let body = rend_uni(bnd, w, indent, red, s[i - 1], cpfx, Seq::empty(), cap(
            pre.1 + fpfx.len(),
        ));
        law_rend_uni_contains_leaves(bnd, w, indent, red, s[i - 1], cpfx, Seq::empty(), cap(
            pre.1 + fpfx.len(),
        ));
        let b4: Seq<char> = if is_not_last {
            pusheen_seq(bnd, w, body.1)
        } else {
            Seq::empty()
        };
        lemma_subseq_pad_left(begin_seq(bnd) + fpfx, leaf_concat(s[i - 1]), body.0);
        lemma_subseq_pad_right(leaf_concat(s[i - 1]), (begin_seq(bnd) + fpfx) + body.0, b4);
        lemma_subseq_concat(
            leaves_items(s, i - 1),
            pre.0,
            leaf_concat(s[i - 1]),
            ((begin_seq(bnd) + fpfx) + body.0) + b4,
        );
        assert(rend_uni_kids(bnd, w, indent, red, s, pfx, i, occ0).0 == pre.0 + (((begin_seq(bnd)
            + fpfx) + body.0) + b4)) by {
            assert(rend_uni_kids(bnd, w, indent, red, s, pfx, i, occ0).0 == pre.0 + begin_seq(bnd)
                + fpfx + body.0 + b4);
            lemma_prepend_assoc(pre.0, begin_seq(bnd), fpfx);
            lemma_prepend_assoc(pre.0, begin_seq(bnd) + fpfx, body.0);
            lemma_prepend_assoc(pre.0, (begin_seq(bnd) + fpfx) + body.0, b4);
        };
    }
}

/// No truncation, Unicode tree mode, end to end: every leaf of the input
/// tree occurs, in order, in the full rendered output, provided the
/// input's `fields_is_linear` flags are honest — as they are in every
/// tree built through the constructors, which leave them all `false`.
pub proof fn law_no_truncation_unicode(cfg: crate::PrettyConfig, m: PrettyModel)
    requires
        fil_honest(m),
    ensures
        is_subseq_of(leaf_concat(m), unicode_output(cfg, m)),
{
    let pass1 = plan_uni(cfg.indent as int, cfg.width as int, cfg.reduced_spaces, 0, m, 0);
    let pass2 = plan_uni(cfg.indent as int, pass1.1, cfg.reduced_spaces, 0, pass1.0, 0);
    let bnd = cfg.need_boundaries;
    let body = rend_uni(bnd, pass2.1, cfg.indent as int, cfg.reduced_spaces, pass2.0,
        Seq::empty(), Seq::empty(), 0);
    law_plan_uni_keeps_leaves(cfg.indent as int, cfg.width as int, cfg.reduced_spaces, 0, m, 0);
    law_plan_uni_keeps_leaves(cfg.indent as int, pass1.1, cfg.reduced_spaces, 0, pass1.0, 0);
    lemma_subseq_trans(leaf_concat(m), leaf_concat(pass1.0), leaf_concat(pass2.0));
    lemma_plan_uni_keeps_fil_honest(cfg.indent as int, cfg.width as int, cfg.reduced_spaces, 0, m,
        0);
    lemma_plan_uni_keeps_fil_honest(cfg.indent as int, pass1.1, cfg.reduced_spaces, 0, pass1.0,
        0);
    law_rend_uni_contains_leaves(bnd, pass2.1, cfg.indent as int, cfg.reduced_spaces, pass2.0,
        Seq::empty(), Seq::empty(), 0);
    lemma_subseq_trans(leaf_concat(m), leaf_concat(pass2.0), body.0);
    let pre = horizon_seq(bnd, pass2.1) + (if bnd {
        seq!['\n']
    } else {
        Seq::<char>::empty()
    }) + begin_seq(bnd);
    let post = (if bnd {
        pusheen_seq(bnd, pass2.1, body.1)
    } else {
        Seq::<char>::empty()
    }) + horizon_seq(bnd, pass2.1);
    lemma_subseq_between(leaf_concat(m), body.0, pre, post);
    assert(unicode_output(cfg, m) =~= (pre + body.0) + post);
}

} // verus!
