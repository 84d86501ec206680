//! Repeating cycles of jobs that run together: what they are recognised by and
//! what one cycle does to each job.

use vstd::prelude::*;

use crate::interference::InterferenceModel;
use crate::lists::same_list;

verus! {

/// What a cycle is recognised by in one job.
pub struct CycleEntry {
    pub job: i32,
    /// How many iterations the job is ahead of the one that is furthest behind.
    pub lead: i128,
    pub allocated: Vec<i32>,
    pub ps_allocated: Vec<i32>,
    /// The bandwidth asked inside each server, in millionths.
    pub intra: Vec<(i32, i64)>,
}

/// What a cycle is recognised by.
pub struct CycleKey {
    pub epoch: u64,
    pub model: InterferenceModel,
    /// The least common multiple of the iteration times in ticks, where it fits.
    pub base_lcm: Option<i64>,
    pub entries: Vec<CycleEntry>,
}

/// How far a job has come, or how far it comes in a cycle.
#[derive(Clone, Copy)]
pub struct Progress<N> {
    pub job: i32,
    pub iterations: i64,
    pub training: N,
    pub compute: N,
    pub comms: N,
}

/// How far the jobs had come at a tick.
pub struct CycleSnapshot<N> {
    pub tick: i64,
    pub progress: Vec<Progress<N>>,
}

/// How long a cycle is, and how far the jobs come in it.
pub struct CycleProfile<N> {
    pub period_ticks: i64,
    pub deltas: Vec<Progress<N>>,
}

/// How often cycles were seen and skipped.
#[derive(Debug, Clone, Copy, PartialEq, Eq, Structural)]
pub struct CycleStats {
    pub observed_sync: u64,
    pub cycle_detected: u64,
    pub jump_applied: u64,
    pub jump_periods: u64,
    pub jumped_ticks: u64,
}

/// A `CycleEntry`.
#[verifier::ext_equal]
pub struct EntryModel {
    pub job: i32,
    pub lead: int,
    pub allocated: Seq<i32>,
    pub ps_allocated: Seq<i32>,
    pub intra: Seq<(i32, i64)>,
}

/// A `CycleKey`.
#[verifier::ext_equal]
pub struct KeyModel {
    pub epoch: u64,
    pub model: InterferenceModel,
    pub base_lcm: Option<i64>,
    pub entries: Seq<EntryModel>,
}

/// A `CycleSnapshot`.
#[verifier::ext_equal]
pub struct SnapshotModel<N> {
    pub tick: i64,
    pub progress: Seq<Progress<N>>,
}

/// A `CycleProfile`.
#[verifier::ext_equal]
pub struct ProfileModel<N> {
    pub period_ticks: i64,
    pub deltas: Seq<Progress<N>>,
}

impl View for CycleEntry {
    type V = EntryModel;

    open spec fn view(&self) -> EntryModel {
        EntryModel {
            job: self.job,
            lead: self.lead as int,
            allocated: self.allocated@,
            ps_allocated: self.ps_allocated@,
            intra: self.intra@,
        }
    }
}

impl View for CycleKey {
    type V = KeyModel;

    open spec fn view(&self) -> KeyModel {
        KeyModel {
            epoch: self.epoch,
            model: self.model,
            base_lcm: self.base_lcm,
            entries: Seq::new(self.entries@.len(), |i: int| self.entries@[i]@),
        }
    }
}

impl<N> View for CycleSnapshot<N> {
    type V = SnapshotModel<N>;

    open spec fn view(&self) -> SnapshotModel<N> {
        SnapshotModel { tick: self.tick, progress: self.progress@ }
    }
}

impl<N> View for CycleProfile<N> {
    type V = ProfileModel<N>;

    open spec fn view(&self) -> ProfileModel<N> {
        ProfileModel { period_ticks: self.period_ticks, deltas: self.deltas@ }
    }
}

/// The table that a list of entries stands for.
pub open spec fn cycle_table<V: View>(entries: Seq<(CycleKey, V)>) -> Map<KeyModel, V::V>
    decreases entries.len(),
{
    if entries.len() == 0 {
        Map::empty()
    } else {
        cycle_table(entries.drop_last()).insert(entries.last().0@, entries.last().1@)
    }
}

fn same_signature(a: &Vec<(i32, i64)>, b: &Vec<(i32, i64)>) -> (result: bool)
    ensures
        result == (a@ == b@),
{
    if a.len() != b.len() {
        return false;
    }
    let mut i: usize = 0;
    while i < a.len()
        invariant
            i <= a@.len() == b@.len(),
            forall|j: int| 0 <= j < i ==> a@[j] == b@[j],
        decreases a@.len() - i,
    {
        if a[i].0 != b[i].0 || a[i].1 != b[i].1 {
            return false;
        }
        i += 1;
    }
    assert(a@ =~= b@);
    true
}

impl CycleEntry {
    fn same(&self, other: &CycleEntry) -> (result: bool)
        ensures
            result == (self@ == other@),
    {
        self.job == other.job && self.lead == other.lead && same_list(
            &self.allocated,
            &other.allocated,
        ) && same_list(&self.ps_allocated, &other.ps_allocated) && same_signature(
            &self.intra,
            &other.intra,
        )
    }
}

fn same_base(a: Option<i64>, b: Option<i64>) -> (result: bool)
    ensures
        result == (a == b),
{
    match (a, b) {
        (Some(a), Some(b)) => a == b,
        (None, None) => true,
        _ => false,
    }
}

impl CycleKey {
    /// Whether two keys are the same.
    pub fn same(&self, other: &CycleKey) -> (result: bool)
        ensures
            result == (self@ == other@),
    {
        assert(self@.entries.len() == self.entries@.len());
        assert(other@.entries.len() == other.entries@.len());
        if self.epoch != other.epoch || self.model != other.model || !same_base(
            self.base_lcm,
            other.base_lcm,
        ) || self.entries.len() != other.entries.len() {
            return false;
        }
        let mut i: usize = 0;
        while i < self.entries.len()
            invariant
                i <= self.entries@.len() == other.entries@.len(),
                forall|j: int| 0 <= j < i ==> self@.entries[j] == other@.entries[j],
            decreases self.entries@.len() - i,
        {
            if !self.entries[i].same(&other.entries[i]) {
                assert(self@.entries[i as int] != other@.entries[i as int]);
                return false;
            }
            i += 1;
        }
        assert(self@.entries =~= other@.entries);
        true
    }
}

/// Where a key stands in a list of entries; its last place where it has several.
pub fn find_cycle<V: View>(entries: &Vec<(CycleKey, V)>, key: &CycleKey) -> (result: Option<usize>)
    ensures
        match result {
            Some(i) => {
                &&& i < entries@.len()
                &&& entries@[i as int].0@ == key@
                &&& cycle_table(entries@).contains_key(key@)
                &&& cycle_table(entries@)[key@] == entries@[i as int].1@
                &&& forall|j: int| i < j < entries@.len() ==> (#[trigger] entries@[j]).0@ != key@
            },
            None => {
                &&& !cycle_table(entries@).contains_key(key@)
                &&& forall|j: int| 0 <= j < entries@.len() ==> (#[trigger] entries@[j]).0@ != key@
            },
        },
{
    let mut found: Option<usize> = None;
    let mut i: usize = 0;
    assert(entries@.take(0) =~= Seq::empty());
    while i < entries.len()
        invariant
            i <= entries@.len(),
            match found {
                Some(k) => {
                    let table = cycle_table(entries@.take(i as int));
                    &&& k < i
                    &&& entries@[k as int].0@ == key@
                    &&& table.contains_key(key@)
                    &&& table[key@] == entries@[k as int].1@
                    &&& forall|j: int| k < j < i ==> (#[trigger] entries@[j]).0@ != key@
                },
                None => {
                    &&& !cycle_table(entries@.take(i as int)).contains_key(key@)
                    &&& forall|j: int| 0 <= j < i ==> (#[trigger] entries@[j]).0@ != key@
                },
            },
        decreases entries@.len() - i,
    {
        proof {
            assert(entries@.take(i + 1).drop_last() =~= entries@.take(i as int));
        }
        if entries[i].0.same(key) {
            found = Some(i);
        }
        i += 1;
    }
    assert(entries@.take(i as int) =~= entries@);
    found
}

/// Setting the value at the last place of a key sets it in the table.
proof fn lemma_replace<V: View>(entries: Seq<(CycleKey, V)>, i: int, entry: (CycleKey, V))
    requires
        0 <= i < entries.len(),
        entries[i].0@ == entry.0@,
        forall|j: int| i < j < entries.len() ==> (#[trigger] entries[j]).0@ != entry.0@,
    ensures
        cycle_table(entries.update(i, entry)) == cycle_table(entries).insert(entry.0@, entry.1@),
    decreases entries.len(),
{
    let rest = entries.drop_last();
    let table = cycle_table(rest);
    if i == entries.len() - 1 {
        assert(entries.update(i, entry).drop_last() =~= rest);
        assert(table.insert(entry.0@, entry.1@) =~= cycle_table(entries).insert(
            entry.0@,
            entry.1@,
        ));
    } else {
        assert(entries.update(i, entry).drop_last() =~= rest.update(i, entry));
        assert(entries.update(i, entry).last() == entries.last());
        assert forall|j: int| i < j < rest.len() implies (#[trigger] rest[j]).0@ != entry.0@ by {
            assert(entries[j].0@ != entry.0@);
        }
        lemma_replace(rest, i, entry);
        assert(entries[entries.len() - 1].0@ != entry.0@);
        assert(cycle_table(entries.update(i, entry)) =~= cycle_table(entries).insert(
            entry.0@,
            entry.1@,
        ));
    }
}

/// Enters a value under a key.
pub fn put_cycle<V: View>(entries: &mut Vec<(CycleKey, V)>, key: CycleKey, value: V)
    ensures
        cycle_table(final(entries)@) == cycle_table(old(entries)@).insert(key@, value@),
{
    match find_cycle(entries, &key) {
        Some(i) => {
            proof {
                lemma_replace(entries@, i as int, (key, value));
            }
            entries.set(i, (key, value));
        },
        None => {
            let ghost before = entries@;
            entries.push((key, value));
            assert(entries@.drop_last() =~= before);
        },
    }
}

} // verus!
