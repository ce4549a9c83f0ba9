//! The state the agent sees on each tick: its blocks and their
//! latest outputs.

use crate::backend::CmdOutput;
use crate::text::chars_eq;
use crate::text::chars_of;
use crate::types::ParsedBlock;
use vstd::prelude::*;

verus! {

/// Command outputs keyed by window title, in the order the titles were
/// first inserted; no title occurs twice.
#[derive(Debug, Clone, PartialEq, Default)]
pub struct OutputMap {
    entries: Vec<(String, CmdOutput)>,
}

/// The titles of the entries, in order.
pub open spec fn entry_keys(e: Seq<(String, CmdOutput)>) -> Seq<Seq<char>> {
    e.map_values(|p: (String, CmdOutput)| p.0@)
}

impl View for OutputMap {
    type V = Seq<(Seq<char>, (i32, Seq<char>))>;

    closed spec fn view(&self) -> Seq<(Seq<char>, (i32, Seq<char>))> {
        self.entries@.map_values(|p: (String, CmdOutput)| (p.0@, p.1@))
    }
}

impl OutputMap {
    /// The titles, in insertion order.
    pub closed spec fn keys(&self) -> Seq<Seq<char>> {
        entry_keys(self.entries@)
    }

    /// The outputs by title.
    pub closed spec fn map(&self) -> Map<Seq<char>, (i32, Seq<char>)> {
        Map::new(
            |k: Seq<char>| self.keys().contains(k),
            |k: Seq<char>|
                {
                    let i = choose|i: int| 0 <= i < self.entries@.len() && self.entries@[i].0@ == k;
                    self.entries@[i].1@
                },
        )
    }

    /// The output stored at position `i` of the insertion order.
    pub closed spec fn value_at(&self, i: int) -> (i32, Seq<char>) {
        self.entries@[i].1@
    }

    pub closed spec fn wf(&self) -> bool {
        forall|i: int, j: int|
            0 <= i < j < self.entries@.len() ==> self.entries@[i].0@ != self.entries@[j].0@
    }

    pub proof fn lemma_map(&self, i: int)
        requires
            self.wf(),
            0 <= i < self.keys().len(),
        ensures
            self.map().dom().contains(self.keys()[i]),
            self.map()[self.keys()[i]] == self.value_at(i),
            self.keys().len() == self.map().dom().len() || true,
    {
        let k = self.keys()[i];
        assert(self.entries@[i].0@ == k);
        assert(self.keys().contains(k));
        let j = choose|j: int| 0 <= j < self.entries@.len() && self.entries@[j].0@ == k;
        if j != i {
            assert(self.entries@[j].0@ == self.entries@[i].0@);
        }
    }

    pub fn new() -> (m: OutputMap)
        ensures
            m.wf(),
            m.keys() == Seq::<Seq<char>>::empty(),
            m.map() == Map::<Seq<char>, (i32, Seq<char>)>::empty(),
    {
        let m = OutputMap { entries: Vec::new() };
        assert(m.keys() =~= Seq::<Seq<char>>::empty());
        assert(m.map() =~= Map::<Seq<char>, (i32, Seq<char>)>::empty());
        m
    }

    pub fn len(&self) -> (n: usize)
        ensures
            n == self.keys().len(),
    {
        self.entries.len()
    }

    pub fn is_empty(&self) -> (b: bool)
        ensures
            b == (self.keys().len() == 0),
    {
        self.entries.len() == 0
    }

    fn index_of(&self, key: &str) -> (r: Option<usize>)
        ensures
            match r {
                Some(i) => i < self.keys().len() && self.keys()[i as int] == key@,
                None => !self.keys().contains(key@),
            },
    {
        let k = chars_of(key);
        let mut i: usize = 0;
        while i < self.entries.len()
            invariant
                0 <= i <= self.entries@.len(),
                k@ == key@,
                forall|j: int| 0 <= j < i ==> self.entries@[j].0@ != key@,
            decreases self.entries@.len() - i,
        {
            let kv = chars_of(self.entries[i].0.as_str());
            if chars_eq(kv.as_slice(), k.as_slice()) {
                return Some(i);
            }
            i = i + 1;
        }
        proof {
            if self.keys().contains(key@) {
                let j = choose|j: int| 0 <= j < self.keys().len() && self.keys()[j] == key@;
                assert(self.entries@[j].0@ == key@);
            }
        }
        None
    }

    /// Whether an output is stored for the title.
    pub fn contains_key(&self, key: &str) -> (b: bool)
        requires
            self.wf(),
        ensures
            b == self.map().dom().contains(key@),
    {
        self.index_of(key).is_some()
    }

    /// The output stored for the title.
    pub fn get(&self, key: &str) -> (r: Option<&CmdOutput>)
        requires
            self.wf(),
        ensures
            match r {
                Some(o) => self.map().dom().contains(key@) && self.map()[key@] == o@,
                None => !self.map().dom().contains(key@),
            },
    {
        match self.index_of(key) {
            Some(i) => {
                proof {
                    self.lemma_map(i as int);
                }
                Some(&self.entries[i].1)
            },
            None => None,
        }
    }

    /// Stores the output for the title, replacing an earlier one in place or
    /// appending a new title at the end.
    pub fn insert(&mut self, key: String, value: CmdOutput)
        requires
            old(self).wf(),
        ensures
            final(self).wf(),
            final(self).map() == old(self).map().insert(key@, value@),
            old(self).keys().contains(key@) ==> final(self).keys() == old(self).keys(),
            !old(self).keys().contains(key@) ==> final(self).keys() == old(self).keys().push(
                key@,
            ),
    {
        let ghost kv = key@;
        let ghost vv = value@;
        match self.index_of(key.as_str()) {
            Some(i) => {
                let ghost before = self.entries@;
                self.entries.set(i, (key, value));
                assert(self.keys() =~= old(self).keys());
                assert forall|a: int, b: int|
                    0 <= a < b < self.entries@.len() implies self.entries@[a].0@
                    != self.entries@[b].0@ by {
                    assert(self.entries@[a].0@ == self.keys()[a]);
                    assert(self.entries@[b].0@ == self.keys()[b]);
                    assert(old(self).entries@[a].0@ == old(self).keys()[a]);
                    assert(old(self).entries@[b].0@ == old(self).keys()[b]);
                }
                assert(self.map() =~= old(self).map().insert(kv, vv)) by {
                    assert forall|k: Seq<char>| #[trigger]
                        self.map().dom().contains(k) implies self.map()[k] == old(self).map().insert(kv, vv)[k] by {
                        let j = choose|j: int| 0 <= j < self.keys().len() && self.keys()[j] == k;
                        self.lemma_map(j);
                        old(self).lemma_map(j);
                    }
                    assert forall|k: Seq<char>|
                        old(self).map().insert(kv, vv).dom().contains(k) implies #[trigger]
                        self.map().dom().contains(k) by {}
                }
            },
            None => {
                self.entries.push((key, value));
                assert(self.keys() =~= old(self).keys().push(kv));
                assert forall|a: int, b: int|
                    0 <= a < b < self.entries@.len() implies self.entries@[a].0@
                    != self.entries@[b].0@ by {
                    if b == self.entries@.len() - 1 {
                        assert(old(self).keys()[a] == self.entries@[a].0@);
                    }
                }
                assert(self.map() =~= old(self).map().insert(kv, vv)) by {
                    assert forall|k: Seq<char>| #[trigger]
                        self.map().dom().contains(k) implies self.map()[k] == old(self).map().insert(kv, vv)[k] by {
                        let j = choose|j: int| 0 <= j < self.keys().len() && self.keys()[j] == k;
                        self.lemma_map(j);
                        if j < old(self).keys().len() {
                            old(self).lemma_map(j);
                        }
                    }
                    assert forall|k: Seq<char>|
                        old(self).map().insert(kv, vv).dom().contains(k) implies #[trigger]
                        self.map().dom().contains(k) by {
                        if k != kv {
                            let j = choose|j: int|
                                0 <= j < old(self).keys().len() && old(self).keys()[j] == k;
                            assert(self.keys()[j] == k);
                        } else {
                            assert(self.keys()[self.keys().len() - 1] == k);
                        }
                    }
                }
            },
        }
    }

    /// Removes the title's output, if any; the other titles keep their order.
    pub fn remove(&mut self, key: &str)
        requires
            old(self).wf(),
        ensures
            final(self).wf(),
            final(self).map() == old(self).map().remove(key@),
            !old(self).keys().contains(key@) ==> final(self).keys() == old(self).keys(),
            old(self).keys().contains(key@) ==> exists|i: int|
                0 <= i < old(self).keys().len() && old(self).keys()[i] == key@ && final(self).keys() == old(self).keys().remove(i),
    {
        match self.index_of(key) {
            None => {
                assert(self.map() =~= old(self).map().remove(key@));
            },
            Some(i) => {
                self.entries.remove(i);
                assert(self.keys() =~= old(self).keys().remove(i as int));
                assert forall|a: int, b: int|
                    0 <= a < b < self.entries@.len() implies self.entries@[a].0@
                    != self.entries@[b].0@ by {
                    let oa = if a < i { a } else { a + 1 };
                    let ob = if b < i { b } else { b + 1 };
                    assert(self.entries@[a] == old(self).entries@[oa]);
                    assert(self.entries@[b] == old(self).entries@[ob]);
                }
                assert(self.map() =~= old(self).map().remove(key@)) by {
                    assert forall|k: Seq<char>| #[trigger]
                        self.map().dom().contains(k) implies old(self).map().remove(
                        key@,
                    ).dom().contains(k) && self.map()[k] == old(self).map().remove(key@)[k] by {
                        let j = choose|j: int| 0 <= j < self.keys().len() && self.keys()[j] == k;
                        self.lemma_map(j);
                        let oj = if j < i { j } else { j + 1 };
                        assert(self.entries@[j] == old(self).entries@[oj]);
                        old(self).lemma_map(oj);
                        if k == key@ {
                            assert(old(self).entries@[i as int].0@ == key@);
                            assert(old(self).entries@[oj].0@ == key@);
                        }
                    }
                    assert forall|k: Seq<char>|
                        old(self).map().remove(key@).dom().contains(k) implies #[trigger]
                        self.map().dom().contains(k) by {
                        let j = choose|j: int|
                            0 <= j < old(self).keys().len() && old(self).keys()[j] == k;
                        assert(j != i);
                        let nj = if j < i { j } else { j - 1 };
                        assert(self.keys()[nj] == k);
                    }
                }
            },
        }
    }
}

impl OutputMap {
    /// The title at position `i` of the insertion order.
    pub fn key_at(&self, i: usize) -> (k: &String)
        requires
            i < self.keys().len(),
        ensures
            k@ == self.keys()[i as int],
    {
        &self.entries[i].0
    }

    /// The output at position `i` of the insertion order.
    pub fn value_at_index(&self, i: usize) -> (v: &CmdOutput)
        requires
            i < self.keys().len(),
        ensures
            v@ == self.value_at(i as int),
    {
        &self.entries[i].1
    }

    pub proof fn lemma_view(&self)
        ensures
            self@.len() == self.keys().len(),
            forall|i: int|
                0 <= i < self@.len() ==> #[trigger] self@[i] == (self.keys()[i], self.value_at(i)),
            self.wf() <==> forall|i: int, j: int|
                0 <= i < j < self@.len() ==> self@[i].0 != self@[j].0,
    {
        assert forall|i: int| 0 <= i < self@.len() implies #[trigger] self@[i] == (
            self.keys()[i],
            self.value_at(i),
        ) by {}
        if self.wf() {
            assert forall|i: int, j: int| 0 <= i < j < self@.len() implies self@[i].0
                != self@[j].0 by {
                assert(self@[i].0 == self.entries@[i].0@);
                assert(self@[j].0 == self.entries@[j].0@);
            }
        }
        if forall|i: int, j: int| 0 <= i < j < self@.len() ==> self@[i].0 != self@[j].0 {
            assert forall|i: int, j: int| 0 <= i < j < self.entries@.len() implies self.entries@[
                i].0@ != self.entries@[j].0@ by {
                assert(self@[i].0 == self.entries@[i].0@);
                assert(self@[j].0 == self.entries@[j].0@);
            }
        }
    }

    /// A copy of the map, with the same entries in the same order.
    pub fn duplicate(&self) -> (r: OutputMap)
        ensures
            r@ == self@,
            r.keys() == self.keys(),
            r.map() == self.map(),
            r.wf() == self.wf(),
    {
        let mut v: Vec<(String, CmdOutput)> = Vec::new();
        let mut i: usize = 0;
        while i < self.entries.len()
            invariant
                0 <= i <= self.entries@.len(),
                v@ == self.entries@.take(i as int),
            decreases self.entries@.len() - i,
        {
            let e = &self.entries[i];
            v.push((e.0.clone(), e.1.duplicate()));
            assert(v@ =~= self.entries@.take(i + 1));
            i = i + 1;
        }
        assert(v@ =~= self.entries@);
        let r = OutputMap { entries: v };
        assert(r@ =~= self@);
        assert(r.keys() =~= self.keys());
        assert(r.map() =~= self.map());
        r
    }
}

/// Everything the agent is shown on a tick.
#[derive(Debug, Clone, Default)]
pub struct State {
    pub system: String,
    pub instructions: String,
    pub segments: Vec<ParsedBlock>,
    pub outputs: OutputMap,
    pub tick_n: u64,
    pub task: String,
    pub is_completed: bool,
}

impl State {
    /// A state on tick `tick_n` with no task, not completed.
    pub fn build(
        system: String,
        instructions: String,
        segments: Vec<ParsedBlock>,
        outputs: OutputMap,
        tick_n: u64,
    ) -> (s: State)
        ensures
            s.system == system,
            s.instructions == instructions,
            s.segments == segments,
            s.outputs == outputs,
            s.tick_n == tick_n,
            s.task@ == Seq::<char>::empty(),
            !s.is_completed,
    {
        State {
            system,
            instructions,
            segments,
            outputs,
            tick_n,
            task: String::new(),
            is_completed: false,
        }
    }

    pub fn is_complete(&self) -> (b: bool)
        ensures
            b == self.is_completed,
    {
        self.is_completed
    }
}

} // verus!
