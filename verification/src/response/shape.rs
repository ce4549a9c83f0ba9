//! What every parsed response looks like: every block has a window, and
//! no prose before a block is lost.

use crate::response::{
    block_piece, body_from, fence, fold_step, fold_upto, header_at, lemma_body_from, prose_piece,
    resolve_block, response_of, segments_from, segments_of, FoldV, SegV,
};
use crate::text::{find_from, lemma_find_from, lemma_next_nl};
use crate::types::BlockV;
use vstd::prelude::*;

verus! {

/// A piece as the reader gives it: a block has a window unless it is the
/// task block.
spec fn piece_ok(g: SegV) -> bool {
    match g {
        SegV::Block { window, mode, .. } => window.len() > 0 || mode is Task,
        SegV::Prose(_) => true,
    }
}

/// A block as the parser keeps it: with a window, and not the task.
spec fn block_ok(b: BlockV) -> bool {
    b.window.len() > 0 && !(b.mode is Task)
}

proof fn lemma_pieces_ok(s: Seq<char>, pos: int)
    ensures
        forall|k: int|
            0 <= k < segments_from(s, pos).len() ==> piece_ok(#[trigger] segments_from(s, pos)[k]),
    decreases s.len() - pos,
{
    if 0 <= pos < s.len() {
        lemma_find_from(s, fence(), pos);
        match find_from(s, fence(), pos) {
            None => {},
            Some(bs) => {
                lemma_next_nl(s, bs + 3);
                let (he, hdr) = header_at(s, bs + 3);
                lemma_body_from(s, he, None, seq![]);
                let (ce, content) = body_from(s, he, None, seq![]);
                lemma_pieces_ok(s, ce);
                let a = prose_piece(s.subrange(pos, bs));
                let b = block_piece(hdr, content);
                let c = segments_from(s, ce);
                assert(segments_from(s, pos) == a + b + c);
                assert forall|k: int| 0 <= k < (a + b + c).len() implies piece_ok(
                    #[trigger] (a + b + c)[k],
                ) by {
                    if k >= a.len() + b.len() {
                        assert((a + b + c)[k] == c[k - a.len() - b.len()]);
                    }
                }
            },
        }
    }
}

proof fn lemma_fold_ok(segs: Seq<SegV>, k: int)
    requires
        forall|j: int| 0 <= j < segs.len() ==> piece_ok(#[trigger] segs[j]),
    ensures
        forall|j: int|
            0 <= j < fold_upto(segs, k).blocks.len() ==> block_ok(
                #[trigger] fold_upto(segs, k).blocks[j],
            ),
    decreases k,
{
    if 0 < k <= segs.len() {
        lemma_fold_ok(segs, k - 1);
        let st = fold_upto(segs, k - 1);
        let g = segs[k - 1];
        assert(piece_ok(g));
        let n = fold_step(st, g);
        assert forall|j: int| 0 <= j < n.blocks.len() implies block_ok(#[trigger] n.blocks[j]) by {
            if j < st.blocks.len() {
                assert(n.blocks[j] == st.blocks[j]);
            }
        }
    }
}

/// Every block of a parsed response has a window and a mode other than
/// the task; the task block is taken into the task instead.
pub proof fn lemma_blocks_have_windows(s: Seq<char>)
    ensures
        forall|k: int|
            0 <= k < response_of(s).segments.len() ==> (#[trigger] response_of(s).segments[k]).window.len()
                > 0 && !(response_of(s).segments[k].mode is Task),
{
    let segs = segments_of(s);
    lemma_pieces_ok(s, 0);
    let f = fold_upto(segs, segs.len() as int);
    lemma_fold_ok(segs, segs.len() as int);
    assert forall|k: int| 0 <= k < response_of(s).segments.len() implies (
    #[trigger] response_of(s).segments[k]).window.len() > 0 && !(
    response_of(s).segments[k].mode is Task) by {
        assert(block_ok(f.blocks[k]));
        assert(response_of(s).segments[k] == resolve_block(f.blocks[k]));
    }
}

/// Whether `t` stands somewhere in `x`.
pub open spec fn holds_text(x: Seq<char>, t: Seq<char>) -> bool {
    exists|i: int| 0 <= i && i + t.len() <= x.len() && #[trigger] x.subrange(i, i + t.len()) == t
}

proof fn lemma_holds_self(t: Seq<char>)
    ensures
        holds_text(t, t),
{
    let i: int = 0;
    assert(t.subrange(i, i + t.len()) =~= t);
}

proof fn lemma_holds_left(x: Seq<char>, y: Seq<char>, t: Seq<char>)
    requires
        holds_text(x, t),
    ensures
        holds_text(x + y, t),
{
    let i = choose|i: int| 0 <= i && i + t.len() <= x.len() && #[trigger] x.subrange(i, i + t.len()) == t;
    assert((x + y).subrange(i, i + t.len()) =~= x.subrange(i, i + t.len()));
}

proof fn lemma_holds_right(x: Seq<char>, y: Seq<char>, t: Seq<char>)
    requires
        holds_text(y, t),
    ensures
        holds_text(x + y, t),
{
    let i = choose|i: int| 0 <= i && i + t.len() <= y.len() && #[trigger] y.subrange(i, i + t.len()) == t;
    assert((x + y).subrange(x.len() + i, x.len() + i + t.len()) =~= y.subrange(i, i + t.len()));
}

/// Whether the piece is a block the parser keeps (not the task block).
pub open spec fn kept_block(g: SegV) -> bool {
    match g {
        SegV::Block { mode, .. } => !(mode is Task),
        SegV::Prose(_) => false,
    }
}

/// How many of the first `j` pieces are blocks the parser keeps.
pub open spec fn kept_before(segs: Seq<SegV>, j: int) -> nat
    decreases j,
{
    if j <= 0 || j > segs.len() {
        0
    } else {
        kept_before(segs, j - 1) + if kept_block(segs[j - 1]) {
            1nat
        } else {
            0nat
        }
    }
}

proof fn lemma_fold_count(segs: Seq<SegV>, j: int)
    requires
        0 <= j <= segs.len(),
    ensures
        fold_upto(segs, j).blocks.len() == kept_before(segs, j),
    decreases j,
{
    if j > 0 {
        lemma_fold_count(segs, j - 1);
    }
}

/// Blocks once gathered stay as they are.
proof fn lemma_fold_keeps(segs: Seq<SegV>, j1: int, j2: int, n: int)
    requires
        0 <= j1 <= j2 <= segs.len(),
        0 <= n < fold_upto(segs, j1).blocks.len(),
    ensures
        n < fold_upto(segs, j2).blocks.len(),
        fold_upto(segs, j2).blocks[n] == fold_upto(segs, j1).blocks[n],
    decreases j2 - j1,
{
    if j2 > j1 {
        lemma_fold_keeps(segs, j1, j2 - 1, n);
    }
}

/// Prose pieces wait: after a prose piece and only prose after it, the
/// waiting prose holds that piece.
proof fn lemma_prose_waits(segs: Seq<SegV>, k: int, t: Seq<char>, j: int)
    requires
        0 <= k < j <= segs.len(),
        segs[k] == SegV::Prose(t),
        forall|q: int| k < q < j ==> (#[trigger] segs[q]) is Prose,
    ensures
        fold_upto(segs, j).prose matches Some(p) && holds_text(p, t),
    decreases j - k,
{
    let st = fold_upto(segs, j - 1);
    if j == k + 1 {
        lemma_holds_self(t);
        match st.prose {
            Some(p) => {
                lemma_holds_right(p + seq!['\n'], t, t);
            },
            None => {},
        }
    } else {
        lemma_prose_waits(segs, k, t, j - 1);
        let t2 = segs[j - 1]->Prose_0;
        let p = st.prose->0;
        lemma_holds_left(p, seq!['\n'] + t2, t);
        assert(p + seq!['\n'] + t2 =~= p + (seq!['\n'] + t2));
    }
}

/// No prose before a block is lost: a prose piece followed only by prose
/// up to a block that the parser keeps stands in that block's prose.
pub proof fn lemma_prose_reaches_block(s: Seq<char>, k: int, m: int)
    requires
        0 <= k < m < segments_of(s).len(),
        segments_of(s)[k] is Prose,
        kept_block(segments_of(s)[m]),
        forall|q: int| k < q < m ==> (#[trigger] segments_of(s)[q]) is Prose,
    ensures
        kept_before(segments_of(s), m) < response_of(s).segments.len(),
        response_of(s).segments[kept_before(segments_of(s), m) as int].window == segments_of(
            s,
        )[m]->Block_window,
        response_of(s).segments[kept_before(segments_of(s), m) as int].prose matches Some(p)
            && holds_text(p, segments_of(s)[k]->Prose_0),
{
    let segs = segments_of(s);
    let t = segs[k]->Prose_0;
    let n = kept_before(segs, m) as int;
    lemma_prose_waits(segs, k, t, m);
    lemma_fold_count(segs, m);
    lemma_fold_count(segs, m + 1);
    let st = fold_upto(segs, m);
    let st1 = fold_upto(segs, m + 1);
    assert(st1 == fold_step(st, segs[m]));
    assert(st1.blocks[n].window == segs[m]->Block_window);
    assert(st1.blocks[n].prose == st.prose);
    lemma_fold_keeps(segs, m + 1, segs.len() as int, n);
    let f = fold_upto(segs, segs.len() as int);
    assert(response_of(s).segments[n] == resolve_block(f.blocks[n]));
}

} // verus!
