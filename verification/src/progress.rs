//! A tick always ends: each turn of its driver brings it closer to the end;
//! and it keeps one block per window all along.

use crate::agent::ResponseV;
use crate::server::{
    add_to_groups, begin_state, close_segments, deliver_spec, group_of, groups_upto,
    lemma_upsert_distinct, lemma_window_pos, move_to_end_spec, select, step_spec, tick_for,
    upsert_all, upsert_spec, without_window, Kind, OpV, Stage, StateV, TickConfig, TickV,
    select_upto, kind_of, window_pos,
};
use crate::types::{BlockV, ModeV};
use vstd::prelude::*;

verus! {

/// How many stages are left after the given one.
pub open spec fn stage_rank(s: Stage) -> nat {
    match s {
        Stage::Ask => 7,
        Stage::Exec => 6,
        Stage::WriteRun | Stage::WriteRead => 5,
        Stage::Edit | Stage::EditFetch | Stage::EditRun | Stage::EditRead => 4,
        Stage::Delegate => 3,
        Stage::Settle => 2,
        Stage::Refresh => 1,
        Stage::Finished => 0,
    }
}

/// The items of a list of `n` left from index `i` on.
pub open spec fn left(n: nat, i: nat) -> nat {
    if i < n {
        (n - i) as nat
    } else {
        0
    }
}

/// The items left in the current stage.
pub open spec fn items_left(t: TickV, sv: StateV) -> nat {
    match t.stage {
        Stage::Ask => left(t.asks.len(), t.i),
        Stage::Exec => left(t.execs.len(), t.i),
        Stage::WriteRun | Stage::WriteRead => left(t.writes.len(), t.i),
        Stage::Edit | Stage::EditFetch | Stage::EditRun | Stage::EditRead => left(
            t.groups.len(),
            t.i,
        ),
        Stage::Delegate => left(t.delegates.len(), t.i),
        Stage::Refresh => left(sv.segments.len(), t.i),
        _ => 0,
    }
}

/// The part of the current item left: a write is run, then read back; an
/// edit is checked, its file fetched if need be, written, then read back.
pub open spec fn phase(t: TickV) -> nat {
    let write_item = t.i < t.writes.len();
    let edit_item = t.i < t.groups.len();
    match t.stage {
        Stage::WriteRun => 1,
        Stage::WriteRead => if write_item {
            0
        } else {
            2
        },
        Stage::Edit => if edit_item {
            3
        } else {
            0
        },
        Stage::EditFetch => if edit_item {
            2
        } else {
            1
        },
        Stage::EditRun => 1,
        Stage::EditRead => if edit_item {
            0
        } else {
            1
        },
        _ => 0,
    }
}

/// Whether the tick `a` is nearer its end than `b`: by stage, then by the
/// items left, then by the part of the item left.
pub open spec fn nearer(a: (TickV, StateV), b: (TickV, StateV)) -> bool {
    let (sa, ia, pa) = (stage_rank(a.0.stage), items_left(a.0, a.1), phase(a.0));
    let (sb, ib, pb) = (stage_rank(b.0.stage), items_left(b.0, b.1), phase(b.0));
    sa < sb || (sa == sb && (ia < ib || (ia == ib && pa < pb)))
}

/// One turn of the driver: a step, and, when the step asks for something
/// from outside, the delivery of what came back.
pub open spec fn turn(t: TickV, cfg: TickConfig, sv: StateV, out: (i32, Seq<char>)) -> (
    TickV,
    StateV,
) {
    let (t1, sv1, op) = step_spec(t, cfg, sv);
    match op {
        OpV::Ask { .. } | OpV::Run { .. } | OpV::ReadFile { .. } => deliver_spec(t1, sv1, out),
        _ => (t1, sv1),
    }
}

/// Every edit group holds at least one block.
pub open spec fn groups_filled(groups: Seq<(Seq<char>, Seq<BlockV>)>) -> bool {
    forall|g: int| 0 <= g < groups.len() ==> #[trigger] groups[g].1.len() > 0
}

/// The edit groups a response is sorted into are never empty.
pub proof fn lemma_tick_groups_filled(r: ResponseV, stage: Stage)
    ensures
        groups_filled(tick_for(r, stage).groups),
{
    let edits = select(r.segments, Kind::Edit);
    lemma_groups_filled(edits, edits.len() as int);
}

proof fn lemma_groups_filled(edits: Seq<BlockV>, k: int)
    ensures
        groups_filled(groups_upto(edits, k)),
    decreases k,
{
    if 0 < k <= edits.len() {
        lemma_groups_filled(edits, k - 1);
        let gs = groups_upto(edits, k - 1);
        let b = edits[k - 1];
        match group_of(gs, b.window) {
            Some(g) => {
                lemma_group_of(gs, b.window);
                let n = add_to_groups(gs, b);
                assert forall|h: int| 0 <= h < n.len() implies #[trigger] n[h].1.len() > 0 by {
                    if h != g {
                        assert(n[h] == gs[h]);
                    }
                }
            },
            None => {
                let n = add_to_groups(gs, b);
                assert forall|h: int| 0 <= h < n.len() implies #[trigger] n[h].1.len() > 0 by {
                    if h < gs.len() {
                        assert(n[h] == gs[h]);
                    }
                }
            },
        }
    }
}

proof fn lemma_group_of(groups: Seq<(Seq<char>, Seq<BlockV>)>, w: Seq<char>)
    ensures
        match group_of(groups, w) {
            Some(g) => 0 <= g < groups.len(),
            None => true,
        },
    decreases groups.len(),
{
    if groups.len() > 0 && groups.last().0 != w {
        lemma_group_of(groups.drop_last(), w);
    }
}

/// A tick ends: every turn of its driver (a step, and the delivery of what
/// the step asked for, whatever comes back) leaves the tick nearer its end
/// and its edit groups as they were, until a step says the tick is done,
/// which leaves it finished.
pub proof fn lemma_tick_progress(t: TickV, cfg: TickConfig, sv: StateV, out: (i32, Seq<char>))
    requires
        groups_filled(t.groups),
    ensures
        turn(t, cfg, sv, out).0.groups == t.groups,
        step_spec(t, cfg, sv).2 is Done ==> turn(t, cfg, sv, out).0.stage == Stage::Finished,
        !(step_spec(t, cfg, sv).2 is Done) ==> nearer(turn(t, cfg, sv, out), (t, sv)),
{
    if t.stage == Stage::Edit && t.i < t.groups.len() {
        let (path, bs) = t.groups[t.i as int];
        assert(bs.len() > 0);
    }
    if t.stage == Stage::EditRead && t.i < t.groups.len() {
        assert(t.groups[t.i as int].1.len() > 0);
    }
}

/// Whether no two blocks are for the same window.
pub open spec fn windows_distinct(segs: Seq<BlockV>) -> bool {
    forall|i: int, j: int| 0 <= i < j < segs.len() ==> segs[i].window != segs[j].window
}

proof fn lemma_move_distinct(segs: Seq<BlockV>, w: Seq<char>)
    requires
        windows_distinct(segs),
    ensures
        windows_distinct(move_to_end_spec(segs, w)),
{
    lemma_window_pos(segs, w);
    match crate::server::window_pos(segs, w) {
        Some(p) => {
            let u = move_to_end_spec(segs, w);
            assert forall|i: int, j: int| 0 <= i < j < u.len() implies u[i].window != u[j].window by {
                let oi = if i < p { i } else { i + 1 };
                let oj = if j == u.len() - 1 { p } else if j < p { j } else { j + 1 };
                assert(u[i] == segs[oi]);
                assert(u[j] == segs[oj]);
                assert(oi != oj);
            }
        },
        None => {},
    }
}

proof fn lemma_without_from(segs: Seq<BlockV>, w: Seq<char>)
    ensures
        forall|k: int|
            0 <= k < without_window(segs, w).len() ==> exists|j: int|
                0 <= j < segs.len() && segs[j] == #[trigger] without_window(segs, w)[k],
        without_window(segs, w).len() <= segs.len(),
    decreases segs.len(),
{
    if segs.len() > 0 {
        let p = segs.drop_last();
        lemma_without_from(p, w);
        let q = without_window(p, w);
        let r = without_window(segs, w);
        assert forall|k: int| 0 <= k < r.len() implies exists|j: int|
            0 <= j < segs.len() && segs[j] == #[trigger] r[k] by {
            if k < q.len() {
                assert(r[k] == q[k]);
                let j = choose|j: int| 0 <= j < p.len() && p[j] == q[k];
                assert(segs[j] == r[k]);
            } else {
                assert(r[k] == segs[segs.len() - 1]);
            }
        }
    }
}

proof fn lemma_without_distinct(segs: Seq<BlockV>, w: Seq<char>)
    requires
        windows_distinct(segs),
    ensures
        windows_distinct(without_window(segs, w)),
    decreases segs.len(),
{
    if segs.len() > 0 {
        let p = segs.drop_last();
        assert(windows_distinct(p)) by {
            assert forall|i: int, j: int| 0 <= i < j < p.len() implies p[i].window != p[j].window by {
                assert(p[i] == segs[i] && p[j] == segs[j]);
            }
        }
        lemma_without_distinct(p, w);
        lemma_without_from(p, w);
        let q = without_window(p, w);
        let r = without_window(segs, w);
        if segs.last().window != w {
            assert forall|i: int, j: int| 0 <= i < j < r.len() implies r[i].window != r[j].window by {
                if j == q.len() {
                    assert(r[i] == q[i]);
                    let a = choose|a: int| 0 <= a < p.len() && p[a] == q[i];
                    assert(segs[a] == r[i]);
                    assert(r[j] == segs[segs.len() - 1]);
                } else {
                    assert(r[i] == q[i] && r[j] == q[j]);
                }
            }
        }
    }
}

proof fn lemma_close_distinct(segs: Seq<BlockV>, closes: Seq<BlockV>)
    requires
        windows_distinct(segs),
    ensures
        windows_distinct(close_segments(segs, closes)),
    decreases closes.len(),
{
    if closes.len() > 0 {
        lemma_close_distinct(segs, closes.drop_last());
        lemma_without_distinct(close_segments(segs, closes.drop_last()), closes.last().window);
    }
}

proof fn lemma_upsert_all_distinct(segs: Seq<BlockV>, bs: Seq<BlockV>)
    requires
        windows_distinct(segs),
    ensures
        windows_distinct(upsert_all(segs, bs)),
    decreases bs.len(),
{
    if bs.len() > 0 {
        lemma_upsert_all_distinct(segs, bs.drop_last());
        lemma_upsert_distinct(upsert_all(segs, bs.drop_last()), bs.last());
    }
}

/// Taking in a response keeps one block per window.
pub proof fn lemma_begin_keeps_windows(sv: StateV, r: ResponseV)
    requires
        windows_distinct(sv.segments),
    ensures
        windows_distinct(begin_state(sv, r).segments),
{
    lemma_close_distinct(sv.segments, select(r.segments, Kind::Close));
}

/// Every turn of a tick's driver keeps one block per window: a block for a
/// window already shown takes that window's place.
pub proof fn lemma_turn_keeps_windows(t: TickV, cfg: TickConfig, sv: StateV, out: (i32, Seq<char>))
    requires
        windows_distinct(sv.segments),
    ensures
        windows_distinct(turn(t, cfg, sv, out).1.segments),
{
    let (t1, sv1, op) = step_spec(t, cfg, sv);
    let i = t.i as int;
    if t.stage == Stage::Delegate && i < t.delegates.len() {
        lemma_upsert_distinct(sv.segments, t.delegates[i]);
    }
    if t.stage == Stage::Settle {
        lemma_upsert_all_distinct(sv.segments, t.files);
        lemma_upsert_all_distinct(upsert_all(sv.segments, t.files), t.watches);
    }
    assert(windows_distinct(sv1.segments));
    let j = t1.i as int;
    match t1.stage {
        Stage::Ask => if j < t1.asks.len() {
            lemma_upsert_distinct(sv1.segments, t1.asks[j]);
        },
        Stage::Exec => if j < t1.execs.len() {
            lemma_upsert_distinct(sv1.segments, t1.execs[j]);
        },
        Stage::WriteRead => if j < t1.writes.len() {
            let b = t1.writes[j];
            lemma_move_distinct(sv1.segments, b.window);
            lemma_upsert_distinct(move_to_end_spec(sv1.segments, b.window), b);
        },
        Stage::EditRead => if j < t1.groups.len() && t1.groups[j].1.len() > 0 {
            let (path, bs) = t1.groups[j];
            lemma_move_distinct(sv1.segments, path);
            lemma_upsert_distinct(move_to_end_spec(sv1.segments, path), bs[0]);
        },
        Stage::Delegate => if j < t1.delegates.len() {
            lemma_upsert_distinct(sv1.segments, t1.delegates[j]);
        },
        _ => {},
    }
}

/// The tick after one turn for each of the outputs, taken in order (an
/// output is used only where the turn asks for something from outside).
pub open spec fn run_turns(t: TickV, cfg: TickConfig, sv: StateV, outs: Seq<(i32, Seq<char>)>) -> (
    TickV,
    StateV,
)
    decreases outs.len(),
{
    if outs.len() == 0 {
        (t, sv)
    } else {
        let (t1, sv1) = turn(t, cfg, sv, outs[0]);
        run_turns(t1, cfg, sv1, outs.drop_first())
    }
}

proof fn lemma_run_turns_push(
    t: TickV,
    cfg: TickConfig,
    sv: StateV,
    outs: Seq<(i32, Seq<char>)>,
    o: (i32, Seq<char>),
)
    ensures
        run_turns(t, cfg, sv, outs.push(o)) == turn(
            run_turns(t, cfg, sv, outs).0,
            cfg,
            run_turns(t, cfg, sv, outs).1,
            o,
        ),
    decreases outs.len(),
{
    let p = outs.push(o);
    if outs.len() > 0 {
        let (t1, sv1) = turn(t, cfg, sv, outs[0]);
        lemma_run_turns_push(t1, cfg, sv1, outs.drop_first(), o);
        assert(p.drop_first() =~= outs.drop_first().push(o));
        assert(p[0] == outs[0]);
        assert(run_turns(t, cfg, sv, p) == run_turns(t1, cfg, sv1, p.drop_first()));
        assert(run_turns(t, cfg, sv, outs) == run_turns(t1, cfg, sv1, outs.drop_first()));
    } else {
        assert(p.drop_first() =~= Seq::<(i32, Seq<char>)>::empty());
        assert(p[0] == o);
        let (t1, sv1) = turn(t, cfg, sv, o);
        assert(run_turns(t, cfg, sv, p) == run_turns(t1, cfg, sv1, p.drop_first()));
        assert(run_turns(t1, cfg, sv1, p.drop_first()) == (t1, sv1));
        assert(run_turns(t, cfg, sv, outs) == (t, sv));
    }
}

/// What the refresh asks for the segment: a watch runs its command, a file
/// is read.
pub open spec fn refresh_op(b: BlockV) -> OpV {
    if b.mode == ModeV::Watch {
        OpV::Run { window: b.window, command: b.content }
    } else if b.mode == ModeV::File {
        OpV::ReadFile { window: b.window }
    } else {
        OpV::Continue
    }
}

/// Whether the segment is refreshed at the end of a tick.
pub open spec fn refreshed(b: BlockV) -> bool {
    b.mode == ModeV::Watch || b.mode == ModeV::File
}

proof fn lemma_refresh_prefix(
    t: TickV,
    cfg: TickConfig,
    sv: StateV,
    outs: Seq<(i32, Seq<char>)>,
    m: int,
)
    requires
        t.stage == Stage::Refresh,
        t.i == 0,
        windows_distinct(sv.segments),
        outs.len() == sv.segments.len(),
        0 <= m <= outs.len(),
    ensures
        run_turns(t, cfg, sv, outs.take(m)).0 == (TickV { i: m as nat, ..t }),
        run_turns(t, cfg, sv, outs.take(m)).1.segments == sv.segments,
        forall|k: int|
            0 <= k < m && refreshed(#[trigger] sv.segments[k]) ==> run_turns(
                t,
                cfg,
                sv,
                outs.take(m),
            ).1.outputs.dom().contains(sv.segments[k].window) && run_turns(
                t,
                cfg,
                sv,
                outs.take(m),
            ).1.outputs[sv.segments[k].window] == outs[k],
    decreases m,
{
    let segs = sv.segments;
    if m == 0 {
        assert(outs.take(0) =~= Seq::<(i32, Seq<char>)>::empty());
        assert(TickV { i: 0, ..t } == t);
    } else {
        lemma_refresh_prefix(t, cfg, sv, outs, m - 1);
        assert(outs.take(m) =~= outs.take(m - 1).push(outs[m - 1]));
        lemma_run_turns_push(t, cfg, sv, outs.take(m - 1), outs[m - 1]);
        let (tp, svp) = run_turns(t, cfg, sv, outs.take(m - 1));
        let b = segs[m - 1];
        let (tn, svn) = run_turns(t, cfg, sv, outs.take(m));
        assert((tn, svn) == turn(tp, cfg, svp, outs[m - 1]));
        assert forall|k: int| 0 <= k < m && refreshed(#[trigger] segs[k]) implies svn.outputs.dom().contains(
            segs[k].window,
        ) && svn.outputs[segs[k].window] == outs[k] by {
            if k < m - 1 {
                assert(segs[k].window != segs[m - 1].window);
            }
        }
    }
}

/// At the end of a tick every watch and file window is refreshed: the
/// refresh takes the segments in order, runs each watch's command and reads
/// each file, once, keeps the segments as they are, and records what came
/// back as that window's output; then the tick is done.
pub proof fn lemma_refresh_all(t: TickV, cfg: TickConfig, sv: StateV, outs: Seq<(i32, Seq<char>)>)
    requires
        t.stage == Stage::Refresh,
        t.i == 0,
        windows_distinct(sv.segments),
        outs.len() == sv.segments.len(),
    ensures
        forall|k: int|
            0 <= k < outs.len() ==> #[trigger] step_spec(
                run_turns(t, cfg, sv, outs.take(k)).0,
                cfg,
                run_turns(t, cfg, sv, outs.take(k)).1,
            ).2 == refresh_op(sv.segments[k]),
        run_turns(t, cfg, sv, outs).1.segments == sv.segments,
        forall|k: int|
            0 <= k < outs.len() && refreshed(#[trigger] sv.segments[k]) ==> run_turns(
                t,
                cfg,
                sv,
                outs,
            ).1.outputs[sv.segments[k].window] == outs[k],
        step_spec(run_turns(t, cfg, sv, outs).0, cfg, run_turns(t, cfg, sv, outs).1).2 is Done,
{
    assert forall|k: int| 0 <= k < outs.len() implies #[trigger] step_spec(
        run_turns(t, cfg, sv, outs.take(k)).0,
        cfg,
        run_turns(t, cfg, sv, outs.take(k)).1,
    ).2 == refresh_op(sv.segments[k]) by {
        lemma_refresh_prefix(t, cfg, sv, outs, k);
    }
    lemma_refresh_prefix(t, cfg, sv, outs, outs.len() as int);
    assert(outs.take(outs.len() as int) =~= outs);
}

proof fn lemma_exec_prefix(t: TickV, cfg: TickConfig, sv: StateV, outs: Seq<(i32, Seq<char>)>, m: int)
    requires
        t.stage == Stage::Exec,
        t.i == 0,
        outs.len() == t.execs.len(),
        0 <= m <= outs.len(),
    ensures
        run_turns(t, cfg, sv, outs.take(m)).0.stage == Stage::Exec,
        run_turns(t, cfg, sv, outs.take(m)).0.i == m,
        run_turns(t, cfg, sv, outs.take(m)).0.execs == t.execs,
    decreases m,
{
    if m == 0 {
        assert(outs.take(0) =~= Seq::<(i32, Seq<char>)>::empty());
    } else {
        lemma_exec_prefix(t, cfg, sv, outs, m - 1);
        assert(outs.take(m) =~= outs.take(m - 1).push(outs[m - 1]));
        lemma_run_turns_push(t, cfg, sv, outs.take(m - 1), outs[m - 1]);
    }
}

/// Each exec block runs once: the exec stage runs the blocks' commands in
/// their windows one after the other, once each, and then moves on to the
/// writes without running anything more.
pub proof fn lemma_exec_each_once(t: TickV, cfg: TickConfig, sv: StateV, outs: Seq<(i32, Seq<char>)>)
    requires
        t.stage == Stage::Exec,
        t.i == 0,
        outs.len() == t.execs.len(),
    ensures
        forall|k: int|
            0 <= k < outs.len() ==> #[trigger] step_spec(
                run_turns(t, cfg, sv, outs.take(k)).0,
                cfg,
                run_turns(t, cfg, sv, outs.take(k)).1,
            ).2 == (OpV::Run { window: t.execs[k].window, command: t.execs[k].content }),
        step_spec(run_turns(t, cfg, sv, outs).0, cfg, run_turns(t, cfg, sv, outs).1).2 == OpV::Continue,
        step_spec(run_turns(t, cfg, sv, outs).0, cfg, run_turns(t, cfg, sv, outs).1).0.stage
            == Stage::WriteRun,
{
    assert forall|k: int| 0 <= k < outs.len() implies #[trigger] step_spec(
        run_turns(t, cfg, sv, outs.take(k)).0,
        cfg,
        run_turns(t, cfg, sv, outs.take(k)).1,
    ).2 == (OpV::Run { window: t.execs[k].window, command: t.execs[k].content }) by {
        lemma_exec_prefix(t, cfg, sv, outs, k);
    }
    lemma_exec_prefix(t, cfg, sv, outs, outs.len() as int);
    assert(outs.take(outs.len() as int) =~= outs);
}

/// Whether some segment for window `w` is refreshed at the end of a tick.
pub open spec fn shown_refreshed(segs: Seq<BlockV>, w: Seq<char>) -> bool {
    exists|p: int| 0 <= p < segs.len() && (#[trigger] segs[p]).window == w && refreshed(segs[p])
}

proof fn lemma_select_has(bs: Seq<BlockV>, kind: Kind, k: int, x: BlockV)
    requires
        0 <= k <= bs.len(),
        exists|j: int| 0 <= j < k && #[trigger] bs[j] == x,
        kind_of(x.mode) == kind,
    ensures
        select_upto(bs, kind, k).contains(x),
    decreases k,
{
    let p = select_upto(bs, kind, k - 1);
    if bs[k - 1] == x {
        assert(select_upto(bs, kind, k)[p.len() as int] == x);
    } else {
        lemma_select_has(bs, kind, k - 1, x);
        let i = choose|i: int| 0 <= i < p.len() && p[i] == x;
        if kind_of(bs[k - 1].mode) == kind {
            assert(select_upto(bs, kind, k)[i] == x);
        }
    }
}

proof fn lemma_select_refreshed(bs: Seq<BlockV>, kind: Kind, k: int)
    requires
        0 <= k <= bs.len(),
        kind == Kind::File || kind == Kind::Watch,
    ensures
        forall|j: int| 0 <= j < select_upto(bs, kind, k).len() ==> refreshed(#[trigger] select_upto(bs, kind, k)[j]),
    decreases k,
{
    if k > 0 {
        lemma_select_refreshed(bs, kind, k - 1);
        let p = select_upto(bs, kind, k - 1);
        let q = select_upto(bs, kind, k);
        assert forall|j: int| 0 <= j < q.len() implies refreshed(#[trigger] q[j]) by {
            if j < p.len() {
                assert(q[j] == p[j]);
            }
        }
    }
}

proof fn lemma_upsert_shows(segs: Seq<BlockV>, b: BlockV, w: Seq<char>)
    requires
        refreshed(b),
    ensures
        w == b.window ==> shown_refreshed(upsert_spec(segs, b), w),
        shown_refreshed(segs, w) ==> shown_refreshed(upsert_spec(segs, b), w),
{
    lemma_window_pos(segs, b.window);
    let u = upsert_spec(segs, b);
    match window_pos(segs, b.window) {
        Some(q) => {
            assert(u[q] == b);
            if shown_refreshed(segs, w) && w != b.window {
                let p = choose|p: int| 0 <= p < segs.len() && (#[trigger] segs[p]).window == w && refreshed(segs[p]);
                assert(p != q);
                assert(u[p] == segs[p]);
            }
        },
        None => {
            assert(u[segs.len() as int] == b);
            if shown_refreshed(segs, w) {
                let p = choose|p: int| 0 <= p < segs.len() && (#[trigger] segs[p]).window == w && refreshed(segs[p]);
                assert(u[p] == segs[p]);
            }
        },
    }
}

proof fn lemma_upsert_all_shows(segs: Seq<BlockV>, bs: Seq<BlockV>, w: Seq<char>)
    requires
        forall|j: int| 0 <= j < bs.len() ==> refreshed(#[trigger] bs[j]),
    ensures
        (exists|j: int| 0 <= j < bs.len() && (#[trigger] bs[j]).window == w) || shown_refreshed(segs, w)
            ==> shown_refreshed(upsert_all(segs, bs), w),
    decreases bs.len(),
{
    if bs.len() > 0 {
        let p = bs.drop_last();
        assert forall|j: int| 0 <= j < p.len() implies refreshed(#[trigger] p[j]) by {
            assert(p[j] == bs[j]);
        }
        lemma_upsert_all_shows(segs, p, w);
        lemma_upsert_shows(upsert_all(segs, p), bs.last(), w);
        if exists|j: int| 0 <= j < bs.len() && (#[trigger] bs[j]).window == w {
            let j = choose|j: int| 0 <= j < bs.len() && (#[trigger] bs[j]).window == w;
            if j < p.len() {
                assert(p[j].window == w);
            }
        }
    }
}

/// What holds all along a tick begun on a response: the file and watch
/// blocks are those of the response; once settled, each of their windows
/// shows a refreshed segment; the refresh records an output for each
/// refreshed segment it has passed.
pub open spec fn tick_inv(r: ResponseV, t: TickV, sv: StateV) -> bool {
    &&& t.files == select(r.segments, Kind::File)
    &&& t.watches == select(r.segments, Kind::Watch)
    &&& (t.stage == Stage::Refresh || t.stage == Stage::Finished) ==> forall|x: BlockV|
        #[trigger] r.segments.contains(x) && refreshed(x) ==> shown_refreshed(sv.segments, x.window)
    &&& t.stage == Stage::Refresh ==> forall|k: int|
        0 <= k < t.i && k < sv.segments.len() && refreshed(#[trigger] sv.segments[k])
            ==> sv.outputs.dom().contains(sv.segments[k].window)
    &&& t.stage == Stage::Finished ==> forall|k: int|
        0 <= k < sv.segments.len() && refreshed(#[trigger] sv.segments[k])
            ==> sv.outputs.dom().contains(sv.segments[k].window)
}

proof fn lemma_turn_inv(r: ResponseV, t: TickV, cfg: TickConfig, sv: StateV, out: (i32, Seq<char>))
    requires
        tick_inv(r, t, sv),
    ensures
        tick_inv(r, turn(t, cfg, sv, out).0, turn(t, cfg, sv, out).1),
{
    let (t1, sv1) = turn(t, cfg, sv, out);
    if t.stage == Stage::Settle {
        let f = select(r.segments, Kind::File);
        let wt = select(r.segments, Kind::Watch);
        lemma_select_refreshed(r.segments, Kind::File, r.segments.len() as int);
        lemma_select_refreshed(r.segments, Kind::Watch, r.segments.len() as int);
        let s1 = upsert_all(sv.segments, f);
        assert forall|x: BlockV| #[trigger] r.segments.contains(x) && refreshed(x) implies shown_refreshed(
            sv1.segments,
            x.window,
        ) by {
            let j = choose|j: int| 0 <= j < r.segments.len() && r.segments[j] == x;
            assert(exists|jj: int| 0 <= jj < r.segments.len() && #[trigger] r.segments[jj] == x);
            if x.mode == ModeV::File {
                lemma_select_has(r.segments, Kind::File, r.segments.len() as int, x);
                let i = choose|i: int| 0 <= i < f.len() && f[i] == x;
                assert(f[i].window == x.window);
                lemma_upsert_all_shows(sv.segments, f, x.window);
                lemma_upsert_all_shows(s1, wt, x.window);
            } else {
                lemma_select_has(r.segments, Kind::Watch, r.segments.len() as int, x);
                let i = choose|i: int| 0 <= i < wt.len() && wt[i] == x;
                assert(wt[i].window == x.window);
                lemma_upsert_all_shows(s1, wt, x.window);
            }
        }
    }
}

proof fn lemma_run_inv(r: ResponseV, t: TickV, cfg: TickConfig, sv: StateV, outs: Seq<(i32, Seq<char>)>)
    requires
        tick_inv(r, t, sv),
    ensures
        tick_inv(r, run_turns(t, cfg, sv, outs).0, run_turns(t, cfg, sv, outs).1),
    decreases outs.len(),
{
    if outs.len() > 0 {
        lemma_turn_inv(r, t, cfg, sv, outs[0]);
        let (t1, sv1) = turn(t, cfg, sv, outs[0]);
        lemma_run_inv(r, t1, cfg, sv1, outs.drop_first());
    }
}

/// A tick reads back every file and runs every watch of its response: once
/// the tick is finished, whatever came back along the way, each file or
/// watch block of the response has a segment for its window that is
/// refreshed, and that window has a recorded output.
pub proof fn lemma_tick_shows_response_windows(
    sv0: StateV,
    r: ResponseV,
    cfg: TickConfig,
    outs: Seq<(i32, Seq<char>)>,
    b: BlockV,
)
    requires
        r.segments.contains(b),
        b.mode == ModeV::File || b.mode == ModeV::Watch,
        run_turns(tick_for(r, Stage::Ask), cfg, begin_state(sv0, r), outs).0.stage == Stage::Finished,
    ensures
        shown_refreshed(run_turns(tick_for(r, Stage::Ask), cfg, begin_state(sv0, r), outs).1.segments, b.window),
        run_turns(tick_for(r, Stage::Ask), cfg, begin_state(sv0, r), outs).1.outputs.dom().contains(b.window),
{
    let t0 = tick_for(r, Stage::Ask);
    let sv1 = begin_state(sv0, r);
    assert(tick_inv(r, t0, sv1));
    lemma_run_inv(r, t0, cfg, sv1, outs);
    let (tn, svn) = run_turns(t0, cfg, sv1, outs);
    assert(refreshed(b));
    assert(shown_refreshed(svn.segments, b.window));
    let p = choose|p: int| 0 <= p < svn.segments.len() && (#[trigger] svn.segments[p]).window == b.window
        && refreshed(svn.segments[p]);
    assert(svn.outputs.dom().contains(svn.segments[p].window));
}

} // verus!
