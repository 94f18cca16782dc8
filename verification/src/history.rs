use std::collections::{HashMap, VecDeque};
use std::hash::Hash;
use vstd::prelude::*;
use vstd::std_specs::hash::obeys_key_model;

verus! {

/// The done edits of a key, oldest first, and the undone edits, next redo first.
pub type Timeline<Log> = (Seq<Log>, Seq<Log>);

/// The done edits of `key`; none if the key was never used.
pub open spec fn done_of<Key, Log>(m: Map<Key, Timeline<Log>>, key: Key) -> Seq<Log> {
    if m.contains_key(key) {
        m[key].0
    } else {
        Seq::empty()
    }
}

/// `s` without its oldest entries, so that at most `max` remain.
pub open spec fn keep_last<Log>(s: Seq<Log>, max: nat) -> Seq<Log> {
    if s.len() > max {
        s.skip(s.len() - max)
    } else {
        s
    }
}

/// The timelines after recording `log` for `key`: the log is appended to the
/// done edits, the oldest are dropped beyond `max`, and the redo list is emptied.
pub open spec fn pushed<Key, Log>(m: Map<Key, Timeline<Log>>, max: nat, key: Key, log: Log) -> Map<Key, Timeline<Log>> {
    m.insert(key, (keep_last(done_of(m, key).push(log), max), Seq::empty()))
}

/// There is an edit of `key` to undo.
pub open spec fn can_undo<Key, Log>(m: Map<Key, Timeline<Log>>, key: Key) -> bool {
    m.contains_key(key) && m[key].0.len() > 0
}

/// There is an edit of `key` to redo.
pub open spec fn can_redo<Key, Log>(m: Map<Key, Timeline<Log>>, key: Key) -> bool {
    m.contains_key(key) && m[key].1.len() > 0
}

/// The timelines after undoing the last edit of `key`: it moves to the front of the redo list.
pub open spec fn undone<Key, Log>(m: Map<Key, Timeline<Log>>, key: Key) -> Map<Key, Timeline<Log>> {
    m.insert(key, (m[key].0.drop_last(), seq![m[key].0.last()] + m[key].1))
}

/// The timelines after redoing the next edit of `key`: it moves back to the end of the done edits.
pub open spec fn redone<Key, Log>(m: Map<Key, Timeline<Log>>, key: Key) -> Map<Key, Timeline<Log>> {
    m.insert(key, (m[key].0.push(m[key].1[0]), m[key].1.drop_first()))
}

/// For every key, the done and the undone edits together number at most `max`.
pub open spec fn bounded<Key, Log>(m: Map<Key, Timeline<Log>>, max: nat) -> bool {
    forall|k: Key| #[trigger] m.contains_key(k) ==> m[k].0.len() + m[k].1.len() <= max
}

/// Undoing an edit and then redoing it gives back the timelines as they were.
pub proof fn lemma_redo_after_undo<Key, Log>(m: Map<Key, Timeline<Log>>, key: Key)
    requires
        can_undo(m, key),
    ensures
        can_redo(undone(m, key), key),
        redone(undone(m, key), key) == m,
{
    let t = m[key];
    let u = undone(m, key)[key];
    assert(u.1[0] == t.0.last());
    assert(u.0.push(u.1[0]) =~= t.0);
    assert(u.1.drop_first() =~= t.1);
    assert(redone(undone(m, key), key) =~= m);
}

/// Redoing an edit and then undoing it gives back the timelines as they were.
pub proof fn lemma_undo_after_redo<Key, Log>(m: Map<Key, Timeline<Log>>, key: Key)
    requires
        can_redo(m, key),
    ensures
        can_undo(redone(m, key), key),
        undone(redone(m, key), key) == m,
{
    let t = m[key];
    let r = redone(m, key)[key];
    assert(r.0.drop_last() =~= t.0);
    assert(seq![r.0.last()] + r.1 =~= t.1);
    assert(undone(redone(m, key), key) =~= m);
}

/// After an edit is recorded for a key, nothing of that key can be redone,
/// the next undo of that key gives back that edit unless no edit is kept at
/// all, and the other keys are untouched.
pub proof fn lemma_push_then_undo<Key, Log>(m: Map<Key, Timeline<Log>>, max: nat, key: Key, log: Log)
    ensures
        !can_redo(pushed(m, max, key, log), key),
        max > 0 ==> can_undo(pushed(m, max, key, log), key) && pushed(m, max, key, log)[key].0.last()
            == log,
        max == 0 ==> !can_undo(pushed(m, max, key, log), key),
        forall|k: Key| k != key ==> #[trigger] pushed(m, max, key, log).contains_key(k) == m.contains_key(k)
            && pushed(m, max, key, log)[k] == m[k],
{
    let s = done_of(m, key).push(log);
    if s.len() > max && max > 0 {
        assert(keep_last(s, max).last() == s.last());
    }
}

/// Recording, undoing and redoing keep every key within `max` edits,
/// done and undone together.
pub proof fn lemma_bounded<Key, Log>(m: Map<Key, Timeline<Log>>, max: nat, key: Key, log: Log)
    requires
        bounded(m, max),
    ensures
        bounded(pushed(m, max, key, log), max),
        can_undo(m, key) ==> bounded(undone(m, key), max),
        can_redo(m, key) ==> bounded(redone(m, key), max),
{
}

/// Undo and redo histories, kept per key.
///
/// Recording a new edit empties the redo list of its key; at most
/// `max_history` done edits are kept per key.
pub struct HistoryStore<Key, Log> {
    max_history: usize,
    slot_of: HashMap<Key, usize>,
    slots: Vec<(VecDeque<Log>, VecDeque<Log>)>,
}

impl<Key, Log> View for HistoryStore<Key, Log> {
    type V = Map<Key, Timeline<Log>>;

    /// The timelines of the keys that were used.
    closed spec fn view(&self) -> Map<Key, Timeline<Log>> {
        Map::new(
            |k: Key| self.slot_of@.contains_key(k),
            |k: Key| (self.slots@[self.slot_of@[k] as int].0@, self.slots@[self.slot_of@[k] as int].1@),
        )
    }
}

impl<Key: Hash + Eq, Log> HistoryStore<Key, Log> {
    /// Each key has its own slot.
    pub closed spec fn wf(&self) -> bool {
        &&& forall|k: Key| #[trigger] self.slot_of@.contains_key(k) ==> self.slot_of@[k] < self.slots@.len()
        &&& forall|k1: Key, k2: Key|
            #[trigger] self.slot_of@.contains_key(k1) && #[trigger] self.slot_of@.contains_key(k2) && k1 != k2
                ==> self.slot_of@[k1] != self.slot_of@[k2]
        &&& bounded(self@, self.max_history as nat)
    }

    /// A store never holds more than `max_history` edits per key, done and
    /// undone together.
    pub proof fn lemma_store_bounded(&self)
        requires
            self.wf(),
        ensures
            bounded(self@, self.max_history()),
    {
    }

    /// How many done edits are kept per key.
    pub closed spec fn max_history(&self) -> nat {
        self.max_history as nat
    }

    /// An empty store.
    pub fn new(max_history: usize) -> (r: HistoryStore<Key, Log>)
        ensures
            r.wf(),
            r@ == Map::<Key, Timeline<Log>>::empty(),
            r.max_history() == max_history,
    {
        let r = HistoryStore { max_history, slot_of: HashMap::new(), slots: Vec::new() };
        assert(r@ =~= Map::<Key, Timeline<Log>>::empty());
        r
    }

    /// Records `log` as the newest edit of `key` and forgets what could be redone for it.
    pub fn push_history(&mut self, key: Key, log: Log)
        requires
            old(self).wf(),
            obeys_key_model::<Key>(),
        ensures
            final(self).wf(),
            final(self).max_history() == old(self).max_history(),
            final(self)@ == pushed(old(self)@, old(self).max_history(), key, log),
    {
        let ghost m0 = self@;
        let i: usize = match self.slot_of.get(&key) {
            Some(i) => *i,
            None => {
                self.slots.push((VecDeque::new(), VecDeque::new()));
                let i = self.slots.len() - 1;
                self.slot_of.insert(key, i);
                i
            },
        };
        let ghost slots1 = self.slots@;
        let ghost slot_of1 = self.slot_of@;
        assert(slot_of1.contains_key(key) && slot_of1[key] == i);
        assert(slots1[i as int].0@ == done_of(m0, key));
        assert forall|k: Key| #[trigger] slot_of1.contains_key(k) && k != key implies m0.contains_key(k)
            && slots1[slot_of1[k] as int].0@ == m0[k].0 && slots1[slot_of1[k] as int].1@ == m0[k].1 by {
        }
        assert forall|k: Key| #[trigger] m0.contains_key(k) implies slot_of1.contains_key(k) by {}
        self.slots[i].0.push_back(log);
        let remove_len = self.slots[i].0.len().saturating_sub(self.max_history);
        let kept = self.slots[i].0.split_off(remove_len);
        self.slots[i].0 = kept;
        self.slots[i].1.clear();
        proof {
            assert(self.slot_of@ == slot_of1);
            assert(self.slots@.len() == slots1.len());
            assert(forall|j: int| 0 <= j < slots1.len() && j != i ==> self.slots@[j] == slots1[j]);
            assert(self.slots@[i as int].0@ =~= keep_last(done_of(m0, key).push(log), self.max_history as nat));
            assert(self.slots@[i as int].1@ =~= Seq::<Log>::empty());
            assert forall|k: Key| #[trigger] self@.contains_key(k) implies self@[k] == pushed(m0, self.max_history as nat, key, log)[k] by {
                if k != key {
                    assert(self.slot_of@[k] != i);
                }
            }
            assert(self@ =~= pushed(m0, self.max_history as nat, key, log));
            lemma_bounded(m0, self.max_history as nat, key, log);
            assert(self.wf());
        }
    }

    /// Undoes the newest edit of `key`: it moves to the front of the redo
    /// list, and a reference to it is returned. Nothing changes if there is
    /// no edit of `key` to undo.
    pub fn pop_undo(&mut self, key: &Key) -> (r: Option<&Log>)
        requires
            old(self).wf(),
            obeys_key_model::<Key>(),
        ensures
            final(self).wf(),
            final(self).max_history() == old(self).max_history(),
            can_undo(old(self)@, *key) ==> (r matches Some(v) && *v == old(self)@[*key].0.last()
                && final(self)@ == undone(old(self)@, *key)),
            !can_undo(old(self)@, *key) ==> r is None && final(self)@ == old(self)@,
    {
        let ghost m0 = self@;
        let i: usize = match self.slot_of.get(key) {
            Some(i) => *i,
            None => return None,
        };
        let ghost slots1 = self.slots@;
        assert(self.slot_of@.contains_key(*key) && self.slot_of@[*key] == i);
        let log = match self.slots[i].0.pop_back() {
            Some(log) => log,
            None => {
                assert(forall|j: int| 0 <= j < slots1.len() && j != i ==> self.slots@[j] == slots1[j]);
                assert forall|k: Key| #[trigger] self@.contains_key(k) implies self@[k] == m0[k] by {
                    if k != *key {
                        assert(self.slot_of@[k] != i);
                    }
                }
                assert(self@ =~= m0);
                return None;
            },
        };
        self.slots[i].1.push_front(log);
        proof {
            assert(forall|j: int| 0 <= j < slots1.len() && j != i ==> self.slots@[j] == slots1[j]);
            assert(self.slots@[i as int].0@ =~= m0[*key].0.drop_last());
            assert(self.slots@[i as int].1@ =~= seq![m0[*key].0.last()] + m0[*key].1);
            assert forall|k: Key| #[trigger] self@.contains_key(k) implies self@[k] == undone(m0, *key)[k] by {
                if k != *key {
                    assert(self.slot_of@[k] != i);
                }
            }
            assert(self@ =~= undone(m0, *key));
            lemma_bounded(m0, self.max_history as nat, *key, m0[*key].0.last());
        }
        Some(&self.slots[i].1[0])
    }

    /// Redoes the next undone edit of `key`: it moves back to the end of the
    /// done edits, and a reference to it is returned. Nothing changes if there
    /// is no edit of `key` to redo.
    pub fn pop_redo(&mut self, key: &Key) -> (r: Option<&Log>)
        requires
            old(self).wf(),
            obeys_key_model::<Key>(),
        ensures
            final(self).wf(),
            final(self).max_history() == old(self).max_history(),
            can_redo(old(self)@, *key) ==> (r matches Some(v) && *v == old(self)@[*key].1[0]
                && final(self)@ == redone(old(self)@, *key)),
            !can_redo(old(self)@, *key) ==> r is None && final(self)@ == old(self)@,
    {
        let ghost m0 = self@;
        let i: usize = match self.slot_of.get(key) {
            Some(i) => *i,
            None => return None,
        };
        let ghost slots1 = self.slots@;
        assert(self.slot_of@.contains_key(*key) && self.slot_of@[*key] == i);
        let log = match self.slots[i].1.pop_front() {
            Some(log) => log,
            None => {
                assert(forall|j: int| 0 <= j < slots1.len() && j != i ==> self.slots@[j] == slots1[j]);
                assert forall|k: Key| #[trigger] self@.contains_key(k) implies self@[k] == m0[k] by {
                    if k != *key {
                        assert(self.slot_of@[k] != i);
                    }
                }
                assert(self@ =~= m0);
                return None;
            },
        };
        self.slots[i].0.push_back(log);
        proof {
            assert(forall|j: int| 0 <= j < slots1.len() && j != i ==> self.slots@[j] == slots1[j]);
            assert(self.slots@[i as int].0@ =~= m0[*key].0.push(m0[*key].1[0]));
            assert(self.slots@[i as int].1@ =~= m0[*key].1.drop_first());
            assert forall|k: Key| #[trigger] self@.contains_key(k) implies self@[k] == redone(m0, *key)[k] by {
                if k != *key {
                    assert(self.slot_of@[k] != i);
                }
            }
            assert(self@ =~= redone(m0, *key));
            lemma_bounded(m0, self.max_history as nat, *key, m0[*key].1[0]);
        }
        let n = self.slots[i].0.len();
        Some(&self.slots[i].0[n - 1])
    }
}

} // verus!
