//! Tracking terminal windows and noticing when their command finished.

use crate::backend::{Terminal, WindowId};
use crate::text::chars_eq;
use crate::text::chars_of;
use vstd::prelude::*;

verus! {

/// A window being watched: its id, title and command, and whether its
/// command is still taken to be running.
pub struct TrackedWindow {
    pub id: WindowId,
    pub title: String,
    pub command: String,
    pub was_active: bool,
}

/// A watched window as plain values.
pub struct WinV {
    pub id: Seq<char>,
    pub title: Seq<char>,
    pub command: Seq<char>,
    pub active: bool,
}

impl View for TrackedWindow {
    type V = WinV;

    open spec fn view(&self) -> WinV {
        WinV { id: self.id.0@, title: self.title@, command: self.command@, active: self.was_active }
    }
}

/// A listed terminal as plain values.
pub struct TermV {
    pub id: Seq<char>,
    pub title: Seq<char>,
    pub pid: u32,
    pub at_prompt: bool,
    pub exit_status: Option<i32>,
}

impl View for Terminal {
    type V = TermV;

    open spec fn view(&self) -> TermV {
        TermV {
            id: self.id.0@,
            title: self.title@,
            pid: self.pid,
            at_prompt: self.is_at_prompt,
            exit_status: self.last_cmd_exit_status,
        }
    }
}

pub open spec fn terms_view(v: Seq<Terminal>) -> Seq<TermV> {
    v.map_values(|t: Terminal| t@)
}

/// Whether no id occurs twice.
pub open spec fn distinct_ids(e: Seq<WinV>) -> bool {
    forall|i: int, j: int| 0 <= i < j < e.len() ==> e[i].id != e[j].id
}

/// The position of the window with this id.
pub open spec fn index_of_id(e: Seq<WinV>, id: Seq<char>) -> Option<int>
    decreases e.len(),
{
    if e.len() == 0 {
        None
    } else if e.last().id == id {
        Some(e.len() - 1)
    } else {
        index_of_id(e.drop_last(), id)
    }
}

/// The entries with a window stored under `id`, replacing the one there or
/// added at the end.
pub open spec fn put(e: Seq<WinV>, w: WinV) -> Seq<WinV> {
    match index_of_id(e, w.id) {
        Some(i) => e.update(i, w),
        None => e.push(w),
    }
}

/// The last listed window with this id (later listings win).
pub open spec fn last_listed(ws: Seq<TermV>, id: Seq<char>) -> Option<TermV>
    decreases ws.len(),
{
    if ws.len() == 0 {
        None
    } else if ws.last().id == id {
        Some(ws.last())
    } else {
        last_listed(ws.drop_last(), id)
    }
}

/// Whether a watched window's command is seen to have finished: it was
/// running, and its window is listed at the prompt.
pub open spec fn exits(ws: Seq<TermV>, w: WinV) -> bool {
    w.active && match last_listed(ws, w.id) {
        Some(t) => t.at_prompt,
        None => false,
    }
}

/// The windows whose command is seen to finish, among the first `k`
/// watched ones, in tracking order.
pub open spec fn exited_upto(e: Seq<WinV>, ws: Seq<TermV>, k: int) -> Seq<TermV>
    decreases k,
{
    if k <= 0 || k > e.len() {
        seq![]
    } else if exits(ws, e[k - 1]) {
        exited_upto(e, ws, k - 1).push(last_listed(ws, e[k - 1].id)->0)
    } else {
        exited_upto(e, ws, k - 1)
    }
}

/// The watched windows after a poll: each one seen to finish is no longer
/// running.
pub open spec fn after_poll(e: Seq<WinV>, ws: Seq<TermV>) -> Seq<WinV> {
    Seq::new(e.len(), |i: int| WinV { active: e[i].active && !exits(ws, e[i]), ..e[i] })
}

/// The entries that have a command, as (id, title, command).
pub open spec fn entries_upto(e: Seq<WinV>, k: int) -> Seq<(Seq<char>, Seq<char>, Seq<char>)>
    decreases k,
{
    if k <= 0 || k > e.len() {
        seq![]
    } else if e[k - 1].command.len() > 0 {
        entries_upto(e, k - 1).push((e[k - 1].id, e[k - 1].title, e[k - 1].command))
    } else {
        entries_upto(e, k - 1)
    }
}

/// The entries whose title differs from `title`, in order.
pub open spec fn without_title(e: Seq<WinV>, title: Seq<char>, k: int) -> Seq<WinV>
    decreases k,
{
    if k <= 0 || k > e.len() {
        seq![]
    } else if e[k - 1].title == title {
        without_title(e, title, k - 1)
    } else {
        without_title(e, title, k - 1).push(e[k - 1])
    }
}

pub open spec fn wins_view(v: Seq<TrackedWindow>) -> Seq<WinV> {
    v.map_values(|t: TrackedWindow| t@)
}

/// The windows being watched, one entry per id.
pub struct Watcher {
    watched: Vec<TrackedWindow>,
}

impl View for Watcher {
    type V = Seq<WinV>;

    closed spec fn view(&self) -> Seq<WinV> {
        wins_view(self.watched@)
    }
}

proof fn lemma_index_of_id(e: Seq<WinV>, id: Seq<char>)
    ensures
        match index_of_id(e, id) {
            Some(i) => 0 <= i < e.len() && e[i].id == id && forall|j: int|
                i < j < e.len() ==> e[j].id != id,
            None => forall|j: int| 0 <= j < e.len() ==> e[j].id != id,
        },
    decreases e.len(),
{
    if e.len() > 0 && e.last().id != id {
        lemma_index_of_id(e.drop_last(), id);
        match index_of_id(e.drop_last(), id) {
            Some(i) => {
                assert forall|j: int| i < j < e.len() implies e[j].id != id by {
                    if j < e.len() - 1 {
                        assert(e[j] == e.drop_last()[j]);
                    }
                }
            },
            None => {
                assert forall|j: int| 0 <= j < e.len() implies e[j].id != id by {
                    if j < e.len() - 1 {
                        assert(e[j] == e.drop_last()[j]);
                    }
                }
            },
        }
    }
}

proof fn lemma_last_listed(ws: Seq<TermV>, id: Seq<char>)
    ensures
        match last_listed(ws, id) {
            Some(t) => t.id == id,
            None => true,
        },
    decreases ws.len(),
{
    if ws.len() > 0 && ws.last().id != id {
        lemma_last_listed(ws.drop_last(), id);
    }
}

impl Watcher {
    pub fn new() -> (w: Watcher)
        ensures
            w@ == Seq::<WinV>::empty(),
            w.wf(),
    {
        let w = Watcher { watched: Vec::new() };
        assert(w@ =~= Seq::<WinV>::empty());
        w
    }

    pub closed spec fn wf(&self) -> bool {
        distinct_ids(self@)
    }

    pub fn is_empty(&self) -> (b: bool)
        ensures
            b == (self@.len() == 0),
    {
        self.watched.len() == 0
    }

    fn find_id(&self, id: &WindowId) -> (r: Option<usize>)
        ensures
            match r {
                Some(i) => index_of_id(self@, id.0@) == Some(i as int),
                None => index_of_id(self@, id.0@) is None,
            },
    {
        proof {
            lemma_index_of_id(self@, id.0@);
        }
        let k = chars_of(id.0.as_str());
        let mut i = self.watched.len();
        while i > 0
            invariant
                i <= self.watched@.len(),
                k@ == id.0@,
                forall|j: int| i <= j < self.watched@.len() ==> self@[j].id != id.0@,
            decreases i,
        {
            let c = chars_of(self.watched[i - 1].id.0.as_str());
            if chars_eq(c.as_slice(), k.as_slice()) {
                proof {
                    assert(self@[i - 1].id == id.0@);
                    lemma_index_of_id(self@, id.0@);
                }
                return Some(i - 1);
            }
            assert(self@[i - 1].id == self.watched@[i - 1].id.0@);
            i = i - 1;
        }
        proof {
            lemma_index_of_id(self@, id.0@);
        }
        None
    }

    fn put_window(&mut self, w: TrackedWindow)
        requires
            old(self).wf(),
        ensures
            final(self)@ == put(old(self)@, w@),
            final(self).wf(),
    {
        let ghost e = self@;
        proof {
            lemma_index_of_id(e, w@.id);
        }
        match self.find_id(&w.id) {
            Some(i) => {
                self.watched.set(i, w);
                assert(self@ =~= e.update(i as int, w@));
            },
            None => {
                self.watched.push(w);
                assert(self@ =~= e.push(w@));
            },
        }
        assert(distinct_ids(self@)) by {
            assert forall|a: int, b: int| 0 <= a < b < self@.len() implies self@[a].id
                != self@[b].id by {
                if a < e.len() && b < e.len() {
                    match index_of_id(e, w@.id) {
                        Some(i) => {
                            if a != i && b != i {
                                assert(self@[a] == e[a] && self@[b] == e[b]);
                            } else if a == i {
                                assert(self@[b] == e[b]);
                            } else {
                                assert(self@[a] == e[a]);
                            }
                        },
                        None => {
                            assert(self@[a] == e[a] && self@[b] == e[b]);
                        },
                    }
                }
            }
        }
    }

    /// Starts watching a window (replacing what was watched under its id);
    /// its command is taken to be running.
    pub fn track(&mut self, id: WindowId, title: String, command: String)
        requires
            old(self).wf(),
        ensures
            final(self).wf(),
            final(self)@ == put(
                old(self)@,
                WinV { id: id.0@, title: title@, command: command@, active: true },
            ),
    {
        self.put_window(TrackedWindow { id, title, command, was_active: true });
    }

    /// The windows that have a command, as (id, title, command), in
    /// tracking order.
    pub fn watch_entries(&self) -> (r: Vec<(WindowId, String, String)>)
        ensures
            r@.map_values(|t: (WindowId, String, String)| (t.0.0@, t.1@, t.2@)) == entries_upto(
                self@,
                self@.len() as int,
            ),
    {
        let mut r: Vec<(WindowId, String, String)> = Vec::new();
        let mut i: usize = 0;
        while i < self.watched.len()
            invariant
                0 <= i <= self.watched@.len(),
                r@.map_values(|t: (WindowId, String, String)| (t.0.0@, t.1@, t.2@))
                    == entries_upto(self@, i as int),
            decreases self.watched@.len() - i,
        {
            let t = &self.watched[i];
            assert(self@[i as int] == t@);
            let ghost pre = r@.map_values(|t: (WindowId, String, String)| (t.0.0@, t.1@, t.2@));
            if t.command.as_str().unicode_len() > 0 {
                r.push((t.id.duplicate(), t.title.clone(), t.command.clone()));
                assert(r@.map_values(|t: (WindowId, String, String)| (t.0.0@, t.1@, t.2@))
                    =~= pre.push((t.id.0@, t.title@, t.command@)));
            }
            i = i + 1;
        }
        r
    }

    /// Moves the window watched under `old_id` to `new_id`, running again;
    /// nothing happens when `old_id` is not watched.
    pub fn update_id(&mut self, old_id: &WindowId, new_id: WindowId)
        requires
            old(self).wf(),
        ensures
            final(self).wf(),
            match index_of_id(old(self)@, old_id.0@) {
                Some(i) => final(self)@ == put(
                    old(self)@.remove(i),
                    WinV { id: new_id.0@, active: true, ..old(self)@[i] },
                ),
                None => final(self)@ == old(self)@,
            },
    {
        match self.find_id(old_id) {
            Some(i) => {
                proof {
                    lemma_index_of_id(self@, old_id.0@);
                }
                let ghost e = self@;
                let tw = self.watched.remove(i);
                assert(self@ =~= e.remove(i as int));
                assert(distinct_ids(self@)) by {
                    assert forall|a: int, b: int| 0 <= a < b < self@.len() implies self@[a].id
                        != self@[b].id by {
                        let oa = if a < i { a } else { a + 1 };
                        let ob = if b < i { b } else { b + 1 };
                        assert(self@[a] == e[oa]);
                        assert(self@[b] == e[ob]);
                    }
                }
                let w = TrackedWindow {
                    id: new_id,
                    title: tw.title,
                    command: tw.command,
                    was_active: true,
                };
                self.put_window(w);
            },
            None => {},
        }
    }

    /// Stops watching every window with this title.
    pub fn remove_by_title(&mut self, title: &str)
        requires
            old(self).wf(),
        ensures
            final(self).wf(),
            final(self)@ == without_title(old(self)@, title@, old(self)@.len() as int),
    {
        let t = chars_of(title);
        let ghost e = self@;
        let mut kept: Vec<TrackedWindow> = Vec::new();
        let mut i: usize = 0;
        while i < self.watched.len()
            invariant
                0 <= i <= self.watched@.len() == e.len(),
                e == self@,
                wins_view(kept@) == without_title(e, title@, i as int),
                t@ == title@,
            decreases e.len() - i,
        {
            let w = &self.watched[i];
            assert(e[i as int] == w@);
            let c = chars_of(w.title.as_str());
            let same = chars_eq(c.as_slice(), t.as_slice());
            let ghost pre = wins_view(kept@);
            if !same {
                kept.push(w.dup_window());
                assert(wins_view(kept@) =~= pre.push(e[i as int]));
            }
            i = i + 1;
        }
        self.watched = kept;
        proof {
            lemma_without_title_distinct(e, title@, e.len() as int);
        }
    }

    /// Takes in the backend's window list: each watched window whose
    /// command was running and whose window is listed at the prompt is
    /// reported (as listed; the last listing of an id wins) and no longer
    /// taken to be running.
    pub fn poll_exited_from(&mut self, windows: &[Terminal]) -> (r: Vec<Terminal>)
        requires
            old(self).wf(),
        ensures
            final(self).wf(),
            final(self)@ == after_poll(old(self)@, terms_view(windows@)),
            terms_view(r@) == exited_upto(old(self)@, terms_view(windows@), old(self)@.len() as int),
    {
        let ghost e = self@;
        let ghost ws = terms_view(windows@);
        let mut out: Vec<Terminal> = Vec::new();
        let mut i: usize = 0;
        while i < self.watched.len()
            invariant
                0 <= i <= self.watched@.len() == e.len(),
                ws == terms_view(windows@),
                forall|j: int| 0 <= j < i ==> self@[j] == after_poll(e, ws)[j],
                forall|j: int| i <= j < e.len() ==> self@[j] == e[j],
                terms_view(out@) == exited_upto(e, ws, i as int),
            decreases e.len() - i,
        {
            let ghost w = e[i as int];
            assert(self@[i as int] == self.watched@[i as int]@);
            match last_listed_in(windows, &self.watched[i].id) {
                Some(k) => {
                    if windows[k].is_at_prompt && self.watched[i].was_active {
                        let ghost pre = terms_view(out@);
                        out.push(windows[k].duplicate());
                        assert(terms_view(out@) =~= pre.push(last_listed(ws, w.id)->0));
                        let ghost before = self.watched@;
                        let mut tw = self.watched.remove(i);
                        tw.was_active = false;
                        self.watched.insert(i, tw);
                        assert forall|j: int| 0 <= j < self.watched@.len() && j != i implies self.watched@[j] == before[j] by {}
                    }
                },
                None => {},
            }
            assert(self@[i as int] == after_poll(e, ws)[i as int]);
            i = i + 1;
        }
        assert(self@ =~= after_poll(e, ws));
        out
    }
}

impl TrackedWindow {
    fn dup_window(&self) -> (r: TrackedWindow)
        ensures
            r@ == self@,
    {
        TrackedWindow {
            id: self.id.duplicate(),
            title: self.title.clone(),
            command: self.command.clone(),
            was_active: self.was_active,
        }
    }
}

/// The position of the last listed window with this id.
fn last_listed_in(windows: &[Terminal], id: &WindowId) -> (r: Option<usize>)
    ensures
        match r {
            Some(k) => k < windows@.len() && last_listed(terms_view(windows@), id.0@) == Some(
                windows@[k as int]@,
            ),
            None => last_listed(terms_view(windows@), id.0@) is None,
        },
{
    let ghost ws = terms_view(windows@);
    let key = chars_of(id.0.as_str());
    let mut i = windows.len();
    assert(ws.take(i as int) =~= ws);
    while i > 0
        invariant
            i <= windows@.len(),
            ws == terms_view(windows@),
            key@ == id.0@,
            last_listed(ws, id.0@) == last_listed(ws.take(i as int), id.0@),
        decreases i,
    {
        let c = chars_of(windows[i - 1].id.0.as_str());
        assert(ws.take(i as int).last() == windows@[i - 1]@);
        if chars_eq(c.as_slice(), key.as_slice()) {
            return Some(i - 1);
        }
        assert(ws.take(i as int).drop_last() =~= ws.take(i - 1));
        i = i - 1;
    }
    assert(ws.take(0) =~= Seq::<TermV>::empty());
    None
}

proof fn lemma_without_title_distinct(e: Seq<WinV>, title: Seq<char>, k: int)
    requires
        distinct_ids(e),
        0 <= k <= e.len(),
    ensures
        distinct_ids(without_title(e, title, k)),
        forall|j: int|
            0 <= j < without_title(e, title, k).len() ==> exists|m: int|
                0 <= m < k && #[trigger] without_title(e, title, k)[j] == e[m],
        forall|j: int, m: int|
            0 <= j < without_title(e, title, k).len() && k <= m < e.len() ==> #[trigger] without_title(e, title, k)[j].id != #[trigger] e[m].id,
    decreases k,
{
    if k > 0 {
        lemma_without_title_distinct(e, title, k - 1);
        let p = without_title(e, title, k - 1);
        if e[k - 1].title != title {
            let q = p.push(e[k - 1]);
            assert forall|j: int| 0 <= j < q.len() implies exists|m: int|
                0 <= m < k && #[trigger] q[j] == e[m] by {
                if j < p.len() {
                    let m = choose|m: int| 0 <= m < k - 1 && p[j] == e[m];
                    assert(q[j] == e[m]);
                } else {
                    assert(q[j] == e[k - 1]);
                }
            }
            assert forall|a: int, b: int| 0 <= a < b < q.len() implies q[a].id != q[b].id by {
                if b == p.len() {
                    assert(q[a] == p[a]);
                    assert(p[a].id != e[k - 1].id);
                } else {
                    assert(q[a] == p[a] && q[b] == p[b]);
                }
            }
            assert forall|j: int, m: int| 0 <= j < q.len() && k <= m < e.len() implies #[trigger] q[j].id != #[trigger] e[m].id by {
                if j < p.len() {
                    assert(q[j] == p[j]);
                } else {
                    assert(q[j] == e[k - 1]);
                }
            }
        }
    }
}

/// Polling again with the same window list reports nothing: a finished
/// window is reported once.
pub proof fn lemma_poll_reports_once(e: Seq<WinV>, ws: Seq<TermV>)
    ensures
        exited_upto(after_poll(e, ws), ws, e.len() as int) == Seq::<TermV>::empty(),
{
    let a = after_poll(e, ws);
    assert forall|k: int| 0 <= k <= e.len() implies #[trigger] exited_upto(a, ws, k) == Seq::<TermV>::empty() by {
        lemma_exited_none(a, ws, k);
    }
}

proof fn lemma_exited_none(a: Seq<WinV>, ws: Seq<TermV>, k: int)
    requires
        forall|i: int| 0 <= i < a.len() ==> !exits(ws, #[trigger] a[i]),
    ensures
        exited_upto(a, ws, k) == Seq::<TermV>::empty(),
    decreases k,
{
    if k > 0 && k <= a.len() {
        lemma_exited_none(a, ws, k - 1);
    }
}

/// A watched window as a watch entry: its id, title and command.
pub open spec fn entry_of(w: WinV) -> (Seq<char>, Seq<char>, Seq<char>) {
    (w.id, w.title, w.command)
}

proof fn lemma_entries_has(e: Seq<WinV>, k: int, x: (Seq<char>, Seq<char>, Seq<char>))
    requires
        0 <= k <= e.len(),
    ensures
        entries_upto(e, k).contains(x) <==> exists|j: int|
            0 <= j < k && e[j].command.len() > 0 && #[trigger] entry_of(e[j]) == x,
    decreases k,
{
    if k > 0 {
        lemma_entries_has(e, k - 1, x);
        let p = entries_upto(e, k - 1);
        let q = entries_upto(e, k);
        if e[k - 1].command.len() > 0 {
            assert(q == p.push(entry_of(e[k - 1])));
            if q.contains(x) {
                let i = choose|i: int| 0 <= i < q.len() && q[i] == x;
                if i < p.len() {
                    assert(p[i] == x);
                } else {
                    assert(entry_of(e[k - 1]) == x);
                }
            }
            if exists|j: int| 0 <= j < k && e[j].command.len() > 0 && #[trigger] entry_of(e[j]) == x {
                let j = choose|j: int| 0 <= j < k && e[j].command.len() > 0 && #[trigger] entry_of(e[j]) == x;
                if j == k - 1 {
                    assert(q[p.len() as int] == x);
                } else {
                    assert(entry_of(e[j]) == x);
                    let i = choose|i: int| 0 <= i < p.len() && p[i] == x;
                    assert(q[i] == x);
                }
            }
        } else {
            if exists|j: int| 0 <= j < k && e[j].command.len() > 0 && #[trigger] entry_of(e[j]) == x {
                let j = choose|j: int| 0 <= j < k && e[j].command.len() > 0 && #[trigger] entry_of(e[j]) == x;
                assert(j != k - 1);
                assert(entry_of(e[j]) == x);
            }
        }
    }
}

proof fn lemma_without_has(e: Seq<WinV>, title: Seq<char>, k: int, w: WinV)
    requires
        0 <= k <= e.len(),
    ensures
        without_title(e, title, k).contains(w) <==> exists|j: int|
            0 <= j < k && #[trigger] e[j] == w && w.title != title,
    decreases k,
{
    if k > 0 {
        lemma_without_has(e, title, k - 1, w);
        let p = without_title(e, title, k - 1);
        let q = without_title(e, title, k);
        if e[k - 1].title != title {
            assert(q == p.push(e[k - 1]));
            if q.contains(w) {
                let i = choose|i: int| 0 <= i < q.len() && q[i] == w;
                if i < p.len() {
                    assert(p[i] == w);
                } else {
                    assert(e[k - 1] == w);
                }
            }
            if exists|j: int| 0 <= j < k && #[trigger] e[j] == w && w.title != title {
                let j = choose|j: int| 0 <= j < k && #[trigger] e[j] == w && w.title != title;
                if j == k - 1 {
                    assert(q[p.len() as int] == w);
                } else {
                    assert(e[j] == w);
                    let i = choose|i: int| 0 <= i < p.len() && p[i] == w;
                    assert(q[i] == w);
                }
            }
        } else {
            if exists|j: int| 0 <= j < k && #[trigger] e[j] == w && w.title != title {
                let j = choose|j: int| 0 <= j < k && #[trigger] e[j] == w && w.title != title;
                assert(j != k - 1);
                assert(e[j] == w);
            }
        }
    }
}

/// Removing the windows of a title untracks exactly those: afterwards the
/// watch entries are the entries from before whose title differs.
pub proof fn lemma_remove_by_title_entries(
    e: Seq<WinV>,
    title: Seq<char>,
    x: (Seq<char>, Seq<char>, Seq<char>),
)
    ensures
        ({
            let r = without_title(e, title, e.len() as int);
            entries_upto(r, r.len() as int).contains(x) <==> entries_upto(e, e.len() as int).contains(x)
                && x.1 != title
        }),
{
    let r = without_title(e, title, e.len() as int);
    lemma_without_len(e, title, e.len() as int);
    lemma_entries_has(r, r.len() as int, x);
    lemma_entries_has(e, e.len() as int, x);
    if entries_upto(r, r.len() as int).contains(x) {
        let j = choose|j: int|
            0 <= j < r.len() && r[j].command.len() > 0 && #[trigger] entry_of(r[j]) == x;
        assert(r.contains(r[j]));
        lemma_without_has(e, title, e.len() as int, r[j]);
        let i = choose|i: int| 0 <= i < e.len() && #[trigger] e[i] == r[j] && r[j].title != title;
        assert(entry_of(e[i]) == x);
    }
    if entries_upto(e, e.len() as int).contains(x) && x.1 != title {
        let i = choose|i: int|
            0 <= i < e.len() && e[i].command.len() > 0 && #[trigger] entry_of(e[i]) == x;
        lemma_without_has(e, title, e.len() as int, e[i]);
        assert(e[i].title != title);
        let j = choose|j: int| 0 <= j < r.len() && r[j] == e[i];
        assert(entry_of(r[j]) == x);
    }
}

proof fn lemma_without_len(e: Seq<WinV>, title: Seq<char>, k: int)
    requires
        0 <= k <= e.len(),
    ensures
        without_title(e, title, k).len() <= k,
    decreases k,
{
    if k > 0 {
        lemma_without_len(e, title, k - 1);
    }
}

} // verus!
