//! The order of old lines through a body diff and its hunks: old lines
//! only ever go forward, so each hunk lies between the unchanged lines
//! around it, and every hunk of a body diff can be reverted.

use crate::diff::{
    body_model, context_model, edit_model, edit_step, lines_upto, pair_model, render, seg_model, segments,
    source_lines, line_keys, BlockModel, ChangeKind, ContextModel, Seg, SourceLine,
};
use crate::hunks::{
    char_start, hunk_fold, hunk_step, hunks_model, finish_model, lemma_char_start_le, lemma_split_nl_piece,
    line_span, push_change_model, revert_defined, start_or, end_or, HunkFold, HunkModel,
};
use crate::lcs::{lemma_script_aligns, old_indices, range_seq, script, DiffOp};
use crate::text::split_nl;
use vstd::prelude::*;

verus! {

/// The old lines a block covers, in order.
pub open spec fn block_olds(b: BlockModel) -> Seq<nat> {
    match b {
        BlockModel::Unchanged(cs) => cs.map_values(|c: ContextModel| c.old_line),
        BlockModel::Changed(c) => if c.kind != ChangeKind::Insert {
            seq![c.old_line]
        } else {
            seq![]
        },
    }
}

/// The old lines of the blocks, in order.
pub open spec fn olds(bs: Seq<BlockModel>) -> Seq<nat>
    decreases bs.len(),
{
    if bs.len() == 0 {
        seq![]
    } else {
        olds(bs.drop_last()) + block_olds(bs.last())
    }
}

/// Strictly increasing.
pub open spec fn increasing(s: Seq<nat>) -> bool {
    forall|i: int, j: int| 0 <= i < j < s.len() ==> s[i] < s[j]
}

proof fn lemma_olds_concat(a: Seq<BlockModel>, b: Seq<BlockModel>)
    ensures
        olds(a + b) == olds(a) + olds(b),
    decreases b.len(),
{
    if b.len() == 0 {
        assert(a + b =~= a);
        assert(olds(a) + olds(b) =~= olds(a));
    } else {
        lemma_olds_concat(a, b.drop_last());
        assert((a + b).drop_last() =~= a + b.drop_last());
        assert((a + b).last() == b.last());
        assert(olds(a + b) =~= olds(a) + olds(b));
    }
}

/// The old indices of the runs, in order.
pub open spec fn seg_old(s: Seg) -> Seq<int> {
    match s {
        Seg::Keep(ps) => ps.map_values(|p: (usize, usize)| p.0 as int),
        Seg::Edit(rs, _) => rs.map_values(|r: usize| r as int),
    }
}

pub open spec fn flat_old(segs: Seq<Seg>) -> Seq<int>
    decreases segs.len(),
{
    if segs.len() == 0 {
        seq![]
    } else {
        flat_old(segs.drop_last()) + seg_old(segs.last())
    }
}

/// The old index a step visits, if any.
pub open spec fn op_old(op: DiffOp) -> Seq<int> {
    match op {
        DiffOp::Same(i, _) => seq![i as int],
        DiffOp::Delete(i) => seq![i as int],
        DiffOp::Insert(_) => seq![],
    }
}

proof fn lemma_old_indices_push(ops: Seq<DiffOp>, x: DiffOp)
    ensures
        old_indices(ops.push(x)) == old_indices(ops) + op_old(x),
    decreases ops.len(),
{
    if ops.len() == 0 {
        let one = ops.push(x);
        assert(one.drop_first() =~= Seq::<DiffOp>::empty());
        assert(old_indices(one.drop_first()) =~= Seq::<int>::empty());
        assert(one[0] == x);
        assert(old_indices(one) =~= op_old(x) + old_indices(one.drop_first()));
        assert(old_indices(one) =~= op_old(x));
        assert(old_indices(ops) =~= Seq::<int>::empty());
    } else {
        lemma_old_indices_push(ops.drop_first(), x);
        assert(ops.push(x).drop_first() =~= ops.drop_first().push(x));
        assert(ops.push(x)[0] == ops[0]);
        assert(old_indices(ops.push(x)) =~= old_indices(ops) + op_old(x));
    }
}

proof fn lemma_flat_old_segments(ops: Seq<DiffOp>)
    ensures
        flat_old(segments(ops)) == old_indices(ops),
    decreases ops.len(),
{
    if ops.len() > 0 {
        let d = ops.drop_last();
        lemma_flat_old_segments(d);
        lemma_old_indices_push(d, ops.last());
        assert(d.push(ops.last()) =~= ops);
        let prev = segments(d);
        let segs = segments(ops);
        let last = prev.len() - 1;
        match ops.last() {
            DiffOp::Same(i, j) => match prev.last() {
                Seg::Keep(ps) if prev.len() > 0 => {
                    assert(segs == prev.update(last, Seg::Keep(ps.push((i, j)))));
                    assert(segs.drop_last() =~= prev.drop_last());
                    assert(seg_old(Seg::Keep(ps.push((i, j)))) =~= seg_old(Seg::Keep(ps)) + seq![i as int]);
                    assert(flat_old(segs) =~= flat_old(prev) + seq![i as int]);
                },
                _ => {
                    assert(segs == prev.push(Seg::Keep(seq![(i, j)])));
                    assert(segs.drop_last() =~= prev);
                    assert(seg_old(Seg::Keep(seq![(i, j)])) =~= seq![i as int]);
                },
            },
            DiffOp::Delete(i) => match prev.last() {
                Seg::Edit(rs, xs) if prev.len() > 0 => {
                    assert(segs == prev.update(last, Seg::Edit(rs.push(i), xs)));
                    assert(segs.drop_last() =~= prev.drop_last());
                    assert(seg_old(Seg::Edit(rs.push(i), xs)) =~= seg_old(Seg::Edit(rs, xs)) + seq![i as int]);
                    assert(flat_old(segs) =~= flat_old(prev) + seq![i as int]);
                },
                _ => {
                    assert(segs == prev.push(Seg::Edit(seq![i], seq![])));
                    assert(segs.drop_last() =~= prev);
                    assert(seg_old(Seg::Edit(seq![i], seq![])) =~= seq![i as int]);
                },
            },
            DiffOp::Insert(j) => match prev.last() {
                Seg::Edit(rs, xs) if prev.len() > 0 => {
                    assert(segs == prev.update(last, Seg::Edit(rs, xs.push(j))));
                    assert(segs.drop_last() =~= prev.drop_last());
                    assert(seg_old(Seg::Edit(rs, xs.push(j))) == seg_old(Seg::Edit(rs, xs)));
                    assert(flat_old(segs) =~= flat_old(prev));
                },
                _ => {
                    assert(segs == prev.push(Seg::Edit(seq![], seq![j])));
                    assert(segs.drop_last() =~= prev);
                    assert(seg_old(Seg::Edit(seq![], seq![j])) =~= Seq::<int>::empty());
                    assert(flat_old(segs) =~= flat_old(prev));
                },
            },
        }
    } else {
        assert(flat_old(segments(ops)) =~= old_indices(ops));
    }
}

proof fn lemma_olds_one(x: BlockModel)
    ensures
        olds(seq![x]) == block_olds(x),
{
    let one = seq![x];
    assert(one.drop_last() =~= Seq::<BlockModel>::empty());
    assert(olds(one.drop_last()) =~= Seq::<nat>::empty());
    assert(one.last() == x);
    assert(olds(one) == olds(one.drop_last()) + block_olds(one.last()));
    assert(olds(one) =~= block_olds(x));
}

proof fn lemma_olds_two(x: BlockModel, y: BlockModel)
    ensures
        olds(seq![x, y]) == block_olds(x) + block_olds(y),
{
    lemma_olds_one(x);
    assert(seq![x, y].drop_last() =~= seq![x]);
}

pub open spec fn lines_of_indices(idx: Seq<int>, ol: Seq<SourceLine>) -> Seq<nat> {
    idx.map_values(|i: int| ol[i].line)
}

proof fn lemma_edit_olds(rs: Seq<usize>, xs: Seq<usize>, ol: Seq<SourceLine>, nl: Seq<SourceLine>, k: int)
    requires
        0 <= k,
    ensures
        olds(edit_model(rs, xs, ol, nl, k)) == lines_of_indices(
            rs.take(if k < rs.len() { k } else { rs.len() as int }).map_values(|r: usize| r as int),
            ol,
        ),
    decreases k,
{
    let m = if k < rs.len() { k } else { rs.len() as int };
    if k == 0 {
        assert(rs.take(0).map_values(|r: usize| r as int) =~= Seq::<int>::empty());
        assert(lines_of_indices(Seq::<int>::empty(), ol) =~= Seq::<nat>::empty());
    } else {
        lemma_edit_olds(rs, xs, ol, nl, k - 1);
        let a = edit_model(rs, xs, ol, nl, k - 1);
        let b = edit_step(rs, xs, ol, nl, k - 1);
        lemma_olds_concat(a, b);
        let t = k - 1;
        let step: Seq<nat> = if t < rs.len() { seq![ol[rs[t] as int].line] } else { seq![] };
        assert(olds(b) =~= step) by {
            if t < rs.len() && t < xs.len() {
                let o = ol[rs[t] as int];
                let n = nl[xs[t] as int];
                lemma_olds_one(BlockModel::Changed(crate::diff::replaced_model(o, n)));
                lemma_olds_two(BlockModel::Changed(crate::diff::deleted_model(o)), BlockModel::Changed(crate::diff::inserted_model(n)));
            } else if t < rs.len() {
                lemma_olds_one(BlockModel::Changed(crate::diff::deleted_model(ol[rs[t] as int])));
            } else if t < xs.len() {
                lemma_olds_one(BlockModel::Changed(crate::diff::inserted_model(nl[xs[t] as int])));
            }
        }
        let pm1 = if t < rs.len() { t } else { rs.len() as int };
        if t < rs.len() {
            assert(rs.take(t + 1).map_values(|r: usize| r as int) =~= rs.take(t).map_values(|r: usize| r as int).push(
                rs[t] as int,
            ));
        }
        assert(olds(edit_model(rs, xs, ol, nl, k)) =~= lines_of_indices(
            rs.take(m).map_values(|r: usize| r as int),
            ol,
        ));
    }
}

proof fn lemma_render_olds(segs: Seq<Seg>, ol: Seq<SourceLine>, nl: Seq<SourceLine>)
    ensures
        olds(render(segs, ol, nl)) == lines_of_indices(flat_old(segs), ol),
    decreases segs.len(),
{
    if segs.len() == 0 {
        assert(lines_of_indices(Seq::<int>::empty(), ol) =~= Seq::<nat>::empty());
    } else {
        lemma_render_olds(segs.drop_last(), ol, nl);
        let a = render(segs.drop_last(), ol, nl);
        let b = seg_model(segs.last(), ol, nl);
        lemma_olds_concat(a, b);
        assert(olds(b) == lines_of_indices(seg_old(segs.last()), ol)) by {
            match segs.last() {
                Seg::Keep(ps) => {
                    let ctx = ps.map_values(|p: (usize, usize)| context_model(ol[p.0 as int], nl[p.1 as int]));
                    lemma_olds_one(BlockModel::Unchanged(ctx));
                    assert(b == seq![BlockModel::Unchanged(ctx)]);
                    assert(olds(b) =~= lines_of_indices(seg_old(segs.last()), ol));
                },
                Seg::Edit(rs, xs) => {
                    lemma_edit_olds(rs, xs, ol, nl, crate::diff::max_len(rs, xs));
                    assert(rs.take(rs.len() as int) =~= rs);
                },
            }
        }
        assert(lines_of_indices(flat_old(segs), ol) =~= lines_of_indices(flat_old(segs.drop_last()), ol)
            + lines_of_indices(seg_old(segs.last()), ol));
    }
}

proof fn lemma_lines_increasing(ps: Seq<Seq<char>>, k: int)
    ensures
        forall|i: int, j: int| 0 <= i < j < lines_upto(ps, k).len() ==> lines_upto(ps, k)[i].line < lines_upto(ps, k)[j].line,
        forall|i: int| 0 <= i < lines_upto(ps, k).len() ==> #[trigger] lines_upto(ps, k)[i].line <= k,
    decreases k,
{
    if k > 0 {
        lemma_lines_increasing(ps, k - 1);
        let prev = lines_upto(ps, k - 1);
        let cur = lines_upto(ps, k);
        assert forall|i: int| 0 <= i < cur.len() implies #[trigger] cur[i].line <= k by {
            if i < prev.len() {
                assert(cur[i] == prev[i]);
            }
        }
        assert forall|i: int, j: int| 0 <= i < j < cur.len() implies cur[i].line < cur[j].line by {
            assert(cur[i] == prev[i]);
            if j < prev.len() {
                assert(cur[j] == prev[j]);
            } else {
                assert(prev[i].line <= k - 1);
            }
        }
    }
}

/// The old lines of a body diff only go forward.
pub proof fn lemma_body_olds_increasing(old: Seq<char>, new: Seq<char>)
    requires
        source_lines(old).len() <= usize::MAX,
        source_lines(new).len() <= usize::MAX,
    ensures
        increasing(olds(body_model(old, new))),
{
    let ol = source_lines(old);
    let nl = source_lines(new);
    let a = line_keys(ol);
    let b = line_keys(nl);
    let ops = script(a, b, 0, 0);
    lemma_script_aligns(a, b, 0, 0);
    lemma_flat_old_segments(ops);
    lemma_render_olds(segments(ops), ol, nl);
    lemma_lines_increasing(split_nl(old), split_nl(old).len() as int);
    let idx = range_seq(0, a.len() as int);
    let s = lines_of_indices(idx, ol);
    assert(olds(body_model(old, new)) == s);
    assert forall|i: int, j: int| 0 <= i < j < s.len() implies s[i] < s[j] by {
        assert(idx[i] == i && idx[j] == j);
    }
}

/// A hunk lies between the unchanged lines around it: its old lines run
/// forward, after the unchanged line before it and before the one after.
pub open spec fn hunk_ordered(h: HunkModel) -> bool {
    &&& match h.old_lines {
        Some((f, l)) => f <= l,
        None => true,
    }
    &&& match (h.old_lines, h.next_context) {
        (Some((_, l)), Some((no, _))) => l < no,
        _ => true,
    }
    &&& match (h.old_lines, h.prev_context) {
        (Some((f, _)), Some((po, _))) => po < f,
        _ => true,
    }
}

/// Where the grouping stands, given the old lines `seen` so far.
pub open spec fn fold_ordered(st: HunkFold, seen: Seq<nat>) -> bool {
    &&& forall|i: int| 0 <= i < st.out.len() ==> hunk_ordered(#[trigger] st.out[i])
    &&& match st.prev {
        Some((po, _)) => seen.len() > 0 && po <= seen.last(),
        None => true,
    }
    &&& match st.open {
        Some(h) => {
            &&& h.next_context is None
            &&& match h.old_lines {
                Some((f, l)) => f <= l && seen.len() > 0 && l == seen.last(),
                None => true,
            }
            &&& match (h.old_lines, h.prev_context) {
                (Some((f, _)), Some((po, _))) => po < f,
                _ => true,
            }
            &&& match h.prev_context {
                Some((po, _)) => seen.len() > 0 && po <= seen.last(),
                None => true,
            }
        },
        None => true,
    }
}

proof fn lemma_increasing_prefix(s: Seq<nat>, k: int)
    requires
        increasing(s),
        0 <= k <= s.len(),
    ensures
        increasing(s.take(k)),
{
}

#[verifier::spinoff_prover]
#[verifier::rlimit(40)]
proof fn lemma_fold_ordered(bs: Seq<BlockModel>, k: int, total: nat)
    requires
        0 <= k <= bs.len(),
        increasing(olds(bs)),
    ensures
        fold_ordered(hunk_fold(bs, k, total), olds(bs.take(k))),
    decreases k,
{
    if k == 0 {
        assert(bs.take(0) =~= Seq::<BlockModel>::empty());
    } else {
        lemma_fold_ordered(bs, k - 1, total);
        let st = hunk_fold(bs, k - 1, total);
        let b = bs[k - 1];
        let seen = olds(bs.take(k - 1));
        let seen2 = olds(bs.take(k));
        assert(bs.take(k).drop_last() =~= bs.take(k - 1));
        assert(seen2 == seen + block_olds(b));
        lemma_olds_concat(bs.take(k), bs.skip(k));
        assert(bs.take(k) + bs.skip(k) =~= bs);
        assert(increasing(seen2)) by {
            assert forall|i: int, j: int| 0 <= i < j < seen2.len() implies seen2[i] < seen2[j] by {
                assert(seen2[i] == olds(bs)[i] && seen2[j] == olds(bs)[j]);
            }
        }
        let bo = block_olds(b);
        assert(forall|j: int| 0 <= j < bo.len() ==> seen.len() == 0 || seen.last() < #[trigger] bo[j]) by {
            assert forall|j: int| 0 <= j < bo.len() implies seen.len() == 0 || seen.last() < #[trigger] bo[j] by {
                if seen.len() > 0 {
                    assert(seen2[seen.len() - 1] == seen.last());
                    assert(seen2[seen.len() + j] == bo[j]);
                }
            }
        }
        let st2 = hunk_step(st, b, total);
        assert(hunk_fold(bs, k, total) == st2);
        match b {
            BlockModel::Unchanged(cs) => {
                if cs.len() > 0 {
                    assert(bo[0] == cs[0].old_line);
                    assert(bo[bo.len() - 1] == cs.last().old_line);
                    assert(seen2.last() == bo.last());
                }
                assert forall|i: int| 0 <= i < st2.out.len() implies hunk_ordered(#[trigger] st2.out[i]) by {
                    if i < st.out.len() {
                        assert(st2.out[i] == st.out[i]);
                    }
                }
                if cs.len() == 0 {
                    assert(seen2 =~= seen);
                }
            },
            BlockModel::Changed(c) => {
                let h = match st.open {
                    Some(h) => h,
                    None => HunkModel {
                        changes: (st.index, st.index),
                        deleted: seq![],
                        added: seq![],
                        gap_line: total,
                        old_lines: None,
                        new_lines: None,
                        prev_context: st.prev,
                        next_context: None,
                    },
                };
                let h2 = push_change_model(h, c);
                if c.kind != ChangeKind::Insert {
                    assert(bo =~= seq![c.old_line]);
                    assert(seen2.last() == c.old_line);
                    if seen.len() > 0 {
                        assert(seen.last() < c.old_line);
                    }
                } else {
                    assert(bo =~= Seq::<nat>::empty());
                    assert(seen2 =~= seen);
                }
            },
        }
    }
}

/// Every hunk of a body diff lies between the unchanged lines around it.
pub proof fn lemma_hunks_ordered(bs: Seq<BlockModel>, total: nat)
    requires
        increasing(olds(bs)),
    ensures
        forall|i: int| 0 <= i < hunks_model(bs, total).len() ==> hunk_ordered(#[trigger] hunks_model(bs, total)[i]),
{
    lemma_fold_ordered(bs, bs.len() as int, total);
    let st = hunk_fold(bs, bs.len() as int, total);
    let hs = hunks_model(bs, total);
    assert forall|i: int| 0 <= i < hs.len() implies hunk_ordered(#[trigger] hs[i]) by {
        if i < st.out.len() {
            assert(hs[i] == st.out[i]);
        }
    }
}

/// A hunk between its unchanged neighbours can be put back.
proof fn lemma_ordered_revert_defined(h: HunkModel, old: Seq<char>, new: Seq<char>)
    requires
        hunk_ordered(h),
    ensures
        revert_defined(h, old, new),
{
    let ps = split_nl(old);
    if let Some((of, ol)) = h.old_lines {
        if 1 <= of <= ps.len() && 1 <= ol <= ps.len() {
            lemma_split_nl_piece(old, of - 1);
            lemma_split_nl_piece(old, ol - 1);
            lemma_char_start_le(ps, of - 1, ol - 1);
            if let Some((no, _)) = h.next_context {
                if 1 <= no <= ps.len() {
                    lemma_char_start_le(ps, ol - 1, no - 1);
                    lemma_split_nl_piece(old, no - 1);
                }
            }
            if let Some((po, _)) = h.prev_context {
                if 1 <= po <= ps.len() {
                    lemma_char_start_le(ps, po - 1, of - 1);
                    lemma_split_nl_piece(old, po - 1);
                }
            }
        }
    }
}

/// Every hunk of the body diff of two texts can be reverted against them.
pub proof fn lemma_hunks_revertible(old: Seq<char>, new: Seq<char>, total: nat)
    requires
        source_lines(old).len() <= usize::MAX,
        source_lines(new).len() <= usize::MAX,
    ensures
        forall|i: int|
            0 <= i < hunks_model(body_model(old, new), total).len() ==> revert_defined(
                #[trigger] hunks_model(body_model(old, new), total)[i],
                old,
                new,
            ),
{
    lemma_body_olds_increasing(old, new);
    lemma_hunks_ordered(body_model(old, new), total);
    let hs = hunks_model(body_model(old, new), total);
    assert forall|i: int| 0 <= i < hs.len() implies revert_defined(#[trigger] hs[i], old, new) by {
        lemma_ordered_revert_defined(hs[i], old, new);
    }
}

/// The changes of closed hunks tile `0..end` in order, each hunk taking at
/// least one.
pub open spec fn tiles(out: Seq<HunkModel>, end: nat) -> bool {
    &&& out.len() > 0 ==> out[0].changes.0 == 0 && out.last().changes.1 == end
    &&& out.len() == 0 ==> end == 0
    &&& forall|i: int| 0 <= i < out.len() ==> (#[trigger] out[i]).changes.0 < out[i].changes.1
    &&& forall|i: int| 0 <= i < out.len() - 1 ==> (#[trigger] out[i]).changes.1 == out[i + 1].changes.0
}

/// Where the closed hunks end, and the open one starts.
pub open spec fn closed_end(st: HunkFold) -> nat {
    match st.open {
        Some(h) => h.changes.0,
        None => st.index,
    }
}

pub open spec fn fold_tiled(st: HunkFold) -> bool {
    &&& tiles(st.out, closed_end(st))
    &&& match st.open {
        Some(h) => h.changes.1 == st.index && h.changes.0 < st.index,
        None => true,
    }
}

proof fn lemma_tiles_push(out: Seq<HunkModel>, end: nat, h: HunkModel)
    requires
        tiles(out, end),
        h.changes.0 == end,
        h.changes.0 < h.changes.1,
    ensures
        tiles(out.push(h), h.changes.1),
{
    let o2 = out.push(h);
    assert forall|i: int| 0 <= i < o2.len() implies (#[trigger] o2[i]).changes.0 < o2[i].changes.1 by {
        if i < out.len() {
            assert(o2[i] == out[i]);
        }
    }
    assert forall|i: int| 0 <= i < o2.len() - 1 implies (#[trigger] o2[i]).changes.1 == o2[i + 1].changes.0 by {
        assert(o2[i] == out[i]);
        if i + 1 < out.len() {
            assert(o2[i + 1] == out[i + 1]);
        }
    }
    if out.len() > 0 {
        assert(o2[0] == out[0]);
    }
}

#[verifier::spinoff_prover]
proof fn lemma_fold_tiled(bs: Seq<BlockModel>, k: int, total: nat)
    requires
        0 <= k <= bs.len(),
    ensures
        fold_tiled(hunk_fold(bs, k, total)),
        hunk_fold(bs, k, total).index == crate::diff::count_changed(bs.take(k)),
    decreases k,
{
    if k == 0 {
        assert(bs.take(0) =~= Seq::<BlockModel>::empty());
    } else {
        lemma_fold_tiled(bs, k - 1, total);
        let st = hunk_fold(bs, k - 1, total);
        assert(bs.take(k).drop_last() =~= bs.take(k - 1));
        assert(bs.take(k).last() == bs[k - 1]);
        match bs[k - 1] {
            BlockModel::Unchanged(cs) => {
                if let Some(h) = st.open {
                    let next = if cs.len() > 0 { Some((cs[0].old_line, cs[0].new_line)) } else { None };
                    let closed = finish_model(HunkModel { next_context: next, ..h }, total);
                    lemma_tiles_push(st.out, closed_end(st), closed);
                }
            },
            BlockModel::Changed(c) => {},
        }
    }
}

/// The hunks split the changes of a body diff into consecutive runs: the
/// first starts at change 0, each starts where the one before ended, none is
/// empty, and the last ends at the number of changes; there are none
/// exactly when there is no change.
pub proof fn lemma_hunk_changes_tile(bs: Seq<BlockModel>, total: nat)
    ensures
        tiles(hunks_model(bs, total), crate::diff::count_changed(bs)),
{
    lemma_fold_tiled(bs, bs.len() as int, total);
    assert(bs.take(bs.len() as int) =~= bs);
    let st = hunk_fold(bs, bs.len() as int, total);
    if let Some(h) = st.open {
        lemma_tiles_push(st.out, closed_end(st), finish_model(h, total));
    }
}

/// How a change's fields go with its kind: a deletion has no new line and
/// no new range, an insertion no old line.
pub open spec fn change_shaped(c: crate::diff::ChangeModel) -> bool {
    &&& c.kind == ChangeKind::Delete ==> c.new_line == 0 && c.new_range is None
    &&& c.kind == ChangeKind::Insert ==> c.old_line == 0 && c.new_range is Some
    &&& c.kind == ChangeKind::Replace ==> c.new_range is Some
}

pub open spec fn blocks_shaped(bs: Seq<BlockModel>) -> bool {
    forall|i: int| 0 <= i < bs.len() && (#[trigger] bs[i]) is Changed ==> change_shaped(bs[i]->Changed_0)
}

proof fn lemma_shaped_concat(a: Seq<BlockModel>, b: Seq<BlockModel>)
    requires
        blocks_shaped(a),
        blocks_shaped(b),
    ensures
        blocks_shaped(a + b),
{
    assert forall|i: int| 0 <= i < (a + b).len() && (#[trigger] (a + b)[i]) is Changed implies change_shaped((a + b)[i]->Changed_0) by {
        if i < a.len() {
            assert((a + b)[i] == a[i]);
        } else {
            assert((a + b)[i] == b[i - a.len()]);
        }
    }
}

proof fn lemma_edit_shaped(rs: Seq<usize>, xs: Seq<usize>, ol: Seq<SourceLine>, nl: Seq<SourceLine>, k: int)
    ensures
        blocks_shaped(edit_model(rs, xs, ol, nl, k)),
    decreases k,
{
    if k > 0 {
        lemma_edit_shaped(rs, xs, ol, nl, k - 1);
        let b = edit_step(rs, xs, ol, nl, k - 1);
        assert(blocks_shaped(b)) by {
            assert forall|i: int| 0 <= i < b.len() && (#[trigger] b[i]) is Changed implies change_shaped(b[i]->Changed_0) by {}
        }
        lemma_shaped_concat(edit_model(rs, xs, ol, nl, k - 1), b);
    }
}

proof fn lemma_render_shaped(segs: Seq<Seg>, ol: Seq<SourceLine>, nl: Seq<SourceLine>)
    ensures
        blocks_shaped(render(segs, ol, nl)),
    decreases segs.len(),
{
    if segs.len() > 0 {
        lemma_render_shaped(segs.drop_last(), ol, nl);
        let b = seg_model(segs.last(), ol, nl);
        match segs.last() {
            Seg::Keep(ps) => {},
            Seg::Edit(rs, xs) => {
                lemma_edit_shaped(rs, xs, ol, nl, crate::diff::max_len(rs, xs));
            },
        }
        lemma_shaped_concat(render(segs.drop_last(), ol, nl), b);
    }
}

/// The old lines of a body diff are 1-based.
proof fn lemma_body_olds_positive(old: Seq<char>, new: Seq<char>)
    requires
        source_lines(old).len() <= usize::MAX,
        source_lines(new).len() <= usize::MAX,
    ensures
        forall|i: int| 0 <= i < olds(body_model(old, new)).len() ==> #[trigger] olds(body_model(old, new))[i] >= 1,
{
    let ol = source_lines(old);
    let nl = source_lines(new);
    let a = line_keys(ol);
    let b = line_keys(nl);
    let ops = script(a, b, 0, 0);
    lemma_script_aligns(a, b, 0, 0);
    lemma_flat_old_segments(ops);
    lemma_render_olds(segments(ops), ol, nl);
    crate::hunks::lemma_lines_upto_numbered(split_nl(old), split_nl(old).len() as int);
    let idx = range_seq(0, a.len() as int);
    let o = olds(body_model(old, new));
    assert forall|i: int| 0 <= i < o.len() implies #[trigger] o[i] >= 1 by {
        assert(idx[i] == i);
        assert(o[i] == ol[i].line);
    }
}

/// The changes of a body diff: an insertion and only an insertion has no
/// old line; a deletion and only a deletion has no new line and no range in
/// the new text.
pub proof fn lemma_body_changes_shaped(old: Seq<char>, new: Seq<char>)
    requires
        source_lines(old).len() <= usize::MAX,
        source_lines(new).len() <= usize::MAX,
    ensures
        forall|i: int|
            0 <= i < body_model(old, new).len() && (#[trigger] body_model(old, new)[i]) is Changed ==> {
                let c = body_model(old, new)[i]->Changed_0;
                &&& (c.kind == ChangeKind::Insert <==> c.old_line == 0)
                &&& (c.kind == ChangeKind::Delete <==> c.new_line == 0)
                &&& (c.kind == ChangeKind::Delete <==> c.new_range is None)
            },
{
    let bs = body_model(old, new);
    let ol = source_lines(old);
    let nl = source_lines(new);
    lemma_render_shaped(segments(script(line_keys(ol), line_keys(nl), 0, 0)), ol, nl);
    crate::hunks::lemma_body_numbered(old, new);
    lemma_body_olds_positive(old, new);
    assert forall|i: int| 0 <= i < bs.len() && (#[trigger] bs[i]) is Changed implies ({
        let c = bs[i]->Changed_0;
        &&& (c.kind == ChangeKind::Insert <==> c.old_line == 0)
        &&& (c.kind == ChangeKind::Delete <==> c.new_line == 0)
        &&& (c.kind == ChangeKind::Delete <==> c.new_range is None)
    }) by {
        let c = bs[i]->Changed_0;
        if c.kind != ChangeKind::Insert {
            lemma_olds_concat(bs.take(i), bs.skip(i));
            assert(bs.take(i) + bs.skip(i) =~= bs);
            lemma_olds_concat(seq![bs[i]], bs.skip(i + 1));
            assert(seq![bs[i]] + bs.skip(i + 1) =~= bs.skip(i));
            lemma_olds_one(bs[i]);
            assert(block_olds(bs[i]) == seq![c.old_line]);
            let o = olds(bs);
            assert(o[olds(bs.take(i)).len() as int] == c.old_line);
        }
    }
}

} // verus!
