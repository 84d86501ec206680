//! Measured times of jobs that share servers.

use vstd::prelude::*;

use crate::gpu_job::{GpuJob, JobModel};
use crate::placement::wide;
use crate::scalar::Scalar;

verus! {

/// What a table of jobs that run together is looked up by: the model and the
/// GPUs of a job, and those of the job beside it.
pub type PairKey = (Seq<char>, i32, Seq<char>, i32);

/// The iteration time (compute, networking) of a job that runs alone.
pub struct SoloEntry<N> {
    pub model: String,
    pub gpus: i32,
    pub times: (N, N),
}

/// What was measured of a job beside another.
pub struct PairEntry<V> {
    pub model: String,
    pub gpus: i32,
    pub co_model: String,
    pub co_gpus: i32,
    pub value: V,
}

/// Profile lookup tables for the `corun-profile` interference model.
///
/// All tables are keyed off the *target* job (the job whose value is computed).
/// Where a key occurs twice, the later entry holds.
pub struct CorunProfile<N> {
    /// Solo (no colocation) iteration time: (compute, networking).
    pub solo: Vec<SoloEntry<N>>,
    /// Colocated iteration time: (compute, networking) of the target job when run
    /// alongside that one colocated job.
    pub colocate: Vec<PairEntry<(N, N)>>,
    /// Colocated loading time. Consumed once per job, when it is placed.
    pub colocate_loading: Vec<PairEntry<N>>,
}

/// The table that a list of solo entries stands for.
pub open spec fn solo_table<N>(entries: Seq<SoloEntry<N>>) -> Map<(Seq<char>, i32), (N, N)>
    decreases entries.len(),
{
    if entries.len() == 0 {
        Map::empty()
    } else {
        solo_table(entries.drop_last()).insert(
            (entries.last().model@, entries.last().gpus),
            entries.last().times,
        )
    }
}

impl<V> PairEntry<V> {
    /// What the entry is looked up by.
    pub open spec fn key(self) -> PairKey {
        (self.model@, self.gpus, self.co_model@, self.co_gpus)
    }
}

/// The table that a list of entries stands for.
pub open spec fn pair_table<V>(entries: Seq<PairEntry<V>>) -> Map<PairKey, V>
    decreases entries.len(),
{
    if entries.len() == 0 {
        Map::empty()
    } else {
        pair_table(entries.drop_last()).insert(entries.last().key(), entries.last().value)
    }
}

/// The tables of a profile.
#[verifier::ext_equal]
pub struct CorunModel<N> {
    pub solo: Map<(Seq<char>, i32), (N, N)>,
    pub colocate: Map<PairKey, (N, N)>,
    pub colocate_loading: Map<PairKey, N>,
}

impl<N> View for CorunProfile<N> {
    type V = CorunModel<N>;

    open spec fn view(&self) -> CorunModel<N> {
        CorunModel {
            solo: solo_table(self.solo@),
            colocate: pair_table(self.colocate@),
            colocate_loading: pair_table(self.colocate_loading@),
        }
    }
}

/// Whether `found` is the largest number of GPUs, up to `co_gpus`, that a table has
/// for the two models.
pub open spec fn is_closest<V>(
    table: Map<PairKey, V>,
    model: Seq<char>,
    gpus: int,
    co_model: Seq<char>,
    co_gpus: int,
    found: i32,
) -> bool {
    &&& i32::MIN <= gpus <= i32::MAX
    &&& found <= co_gpus
    &&& table.contains_key((model, gpus as i32, co_model, found))
    &&& forall|other: i32|
        other <= co_gpus && #[trigger] table.contains_key((model, gpus as i32, co_model, other))
            ==> other <= found
}

/// What a table says of a job beside another: the entry with exactly the GPUs of
/// the other, or else the one with the most GPUs below that; nothing where there
/// is none.
pub open spec fn closest<V>(
    table: Map<PairKey, V>,
    model: Seq<char>,
    gpus: int,
    co_model: Seq<char>,
    co_gpus: int,
) -> Option<V> {
    if exists|found: i32| is_closest(table, model, gpus, co_model, co_gpus, found) {
        let found = choose|found: i32| is_closest(table, model, gpus, co_model, co_gpus, found);
        Some(table[(model, gpus as i32, co_model, found)])
    } else {
        None
    }
}

/// Looks a job beside another up in a table.
pub fn pair_lookup<V: Copy>(
    entries: &Vec<PairEntry<V>>,
    model: &String,
    gpus: i64,
    co_model: &String,
    co_gpus: i64,
) -> (result: Option<V>)
    ensures
        result == closest(pair_table(entries@), model@, gpus as int, co_model@, co_gpus as int),
{
    let mut best: Option<(i32, V)> = None;
    let mut i: usize = 0;
    assert(entries@.take(0) =~= Seq::empty());
    while i < entries.len()
        invariant
            i <= entries@.len(),
            match best {
                Some((found, value)) => {
                    let table = pair_table(entries@.take(i as int));
                    &&& is_closest(table, model@, gpus as int, co_model@, co_gpus as int, found)
                    &&& table[(model@, gpus as i32, co_model@, found)] == value
                },
                None => {
                    forall|other: i32|
                        i32::MIN <= gpus <= i32::MAX && other <= co_gpus
                            ==> !(#[trigger] pair_table(entries@.take(i as int)).contains_key(
                            (model@, gpus as i32, co_model@, other),
                        ))
                },
            },
        decreases entries@.len() - i,
    {
        let entry = &entries[i];
        proof {
            let before = pair_table(entries@.take(i as int));
            let after = pair_table(entries@.take(i + 1));
            assert(entries@.take(i + 1).drop_last() =~= entries@.take(i as int));
            assert(after == before.insert(entry.key(), entry.value));
            assert forall|other: i32| #[trigger] after.contains_key(
                (model@, gpus as i32, co_model@, other),
            ) implies before.contains_key((model@, gpus as i32, co_model@, other)) || entry.key()
                == (model@, gpus as i32, co_model@, other) by {}
        }
        if entry.model == *model && entry.gpus as i64 == gpus && entry.co_model == *co_model
            && entry.co_gpus as i64 <= co_gpus {
            let better: bool = match best {
                Some((found, _)) => found <= entry.co_gpus,
                None => true,
            };
            if better {
                best = Some((entry.co_gpus, entry.value));
            }
        }
        i += 1;
    }
    assert(entries@.take(i as int) =~= entries@);
    match best {
        Some((found, value)) => {
            proof {
                let table = pair_table(entries@);
                let chosen = choose|other: i32|
                    is_closest(table, model@, gpus as int, co_model@, co_gpus as int, other);
                assert(is_closest(table, model@, gpus as int, co_model@, co_gpus as int, found));
                assert(chosen == found);
            }
            Some(value)
        },
        None => None,
    }
}

/// Looks the iteration time of a job that runs alone up.
pub fn solo_lookup<N: Copy>(entries: &Vec<SoloEntry<N>>, model: &String, gpus: i64) -> (result:
    Option<(N, N)>)
    ensures
        match result {
            Some(times) => {
                &&& i32::MIN <= gpus <= i32::MAX
                &&& solo_table(entries@).contains_key((model@, gpus as i32))
                &&& times == solo_table(entries@)[(model@, gpus as i32)]
            },
            None => !(i32::MIN <= gpus <= i32::MAX) || !solo_table(entries@).contains_key(
                (model@, gpus as i32),
            ),
        },
{
    let mut best: Option<(N, N)> = None;
    let mut i: usize = 0;
    assert(entries@.take(0) =~= Seq::empty());
    while i < entries.len()
        invariant
            i <= entries@.len(),
            match best {
                Some(times) => {
                    let table = solo_table(entries@.take(i as int));
                    &&& i32::MIN <= gpus <= i32::MAX
                    &&& table.contains_key((model@, gpus as i32))
                    &&& times == table[(model@, gpus as i32)]
                },
                None => !(i32::MIN <= gpus <= i32::MAX) || !solo_table(
                    entries@.take(i as int),
                ).contains_key((model@, gpus as i32)),
            },
        decreases entries@.len() - i,
    {
        let entry = &entries[i];
        proof {
            assert(entries@.take(i + 1).drop_last() =~= entries@.take(i as int));
        }
        if entry.model == *model && entry.gpus as i64 == gpus {
            best = Some(entry.times);
        }
        i += 1;
    }
    assert(entries@.take(i as int) =~= entries@);
    best
}

impl<N: Scalar> JobModel<N> {
    /// The GPUs of all workers of the job.
    pub open spec fn total_gpus(self) -> int {
        self.gpu_workers * self.gpu_per_worker
    }
}

impl<N: Scalar> CorunModel<N> {
    /// The iteration time of a job that runs alone, where it is known.
    pub open spec fn solo_times(self, job: JobModel<N>) -> Option<(N, N)> {
        if i32::MIN <= job.total_gpus() <= i32::MAX && self.solo.contains_key(
            (job.model, job.total_gpus() as i32),
        ) {
            Some(self.solo[(job.model, job.total_gpus() as i32)])
        } else {
            None
        }
    }

    /// The iteration time of a job that runs alone; its own where none is known.
    pub open spec fn alone(self, job: JobModel<N>) -> (N, N) {
        match self.solo_times(job) {
            Some(times) => times,
            None => (job.iteration_computing_time, job.iteration_networking_time),
        }
    }

    /// The iteration time of a job beside another; that of the job alone where none is known.
    pub open spec fn beside(self, job: JobModel<N>, other: JobModel<N>) -> (N, N) {
        match closest(
            self.colocate,
            job.model,
            job.total_gpus(),
            other.model,
            other.total_gpus(),
        ) {
            Some(times) => times,
            None => self.alone(job),
        }
    }

    /// Whether the profile has the iteration time of a job beside another.
    pub open spec fn knows_times(self, job: JobModel<N>, other: JobModel<N>) -> bool {
        closest(
            self.colocate,
            job.model,
            job.total_gpus(),
            other.model,
            other.total_gpus(),
        ) is Some
    }

    /// Whether the profile has the loading time of a job beside another.
    pub open spec fn knows_loading(self, job: JobModel<N>, other: JobModel<N>) -> bool {
        closest(
            self.colocate_loading,
            job.model,
            job.total_gpus(),
            other.model,
            other.total_gpus(),
        ) is Some
    }

    /// The loading time of a job beside another; that of the job alone where none is known.
    pub open spec fn loading_beside(self, job: JobModel<N>, other: JobModel<N>) -> N {
        match closest(
            self.colocate_loading,
            job.model,
            job.total_gpus(),
            other.model,
            other.total_gpus(),
        ) {
            Some(time) => time,
            None => job.loading_time,
        }
    }
}

/// The GPUs of all workers of a job. They are what the tables are looked up by.
fn total_gpus_for<N: Scalar>(job: &GpuJob<N>) -> (result: i64)
    ensures
        result == job@.total_gpus(),
{
    wide(job.gpu_workers, job.gpu_per_worker) as i64
}

impl<N: Scalar> CorunProfile<N> {
    /// The iteration time of a job that runs alone; its own where none is known.
    pub fn times_alone(&self, job: &GpuJob<N>) -> (result: (N, N))
        ensures
            result == self@.alone(job@),
    {
        match solo_lookup(&self.solo, &job.model, total_gpus_for(job)) {
            Some(times) => times,
            None => (job.iteration_computing_time, job.iteration_networking_time),
        }
    }

    /// Whether the profile has the iteration time of a job beside another.
    pub fn has_times(&self, job: &GpuJob<N>, other: &GpuJob<N>) -> (result: bool)
        ensures
            result == self@.knows_times(job@, other@),
    {
        pair_lookup(
            &self.colocate,
            &job.model,
            total_gpus_for(job),
            &other.model,
            total_gpus_for(other),
        ).is_some()
    }

    /// Whether the profile has the loading time of a job beside another.
    pub fn has_loading(&self, job: &GpuJob<N>, other: &GpuJob<N>) -> (result: bool)
        ensures
            result == self@.knows_loading(job@, other@),
    {
        pair_lookup(
            &self.colocate_loading,
            &job.model,
            total_gpus_for(job),
            &other.model,
            total_gpus_for(other),
        ).is_some()
    }

    /// The iteration time of a job beside another.
    pub fn times_beside(&self, job: &GpuJob<N>, other: &GpuJob<N>) -> (result: (N, N))
        ensures
            result == self@.beside(job@, other@),
    {
        match pair_lookup(
            &self.colocate,
            &job.model,
            total_gpus_for(job),
            &other.model,
            total_gpus_for(other),
        ) {
            Some(times) => times,
            None => self.times_alone(job),
        }
    }

    /// The loading time of a job beside another.
    pub fn loading_time_beside(&self, job: &GpuJob<N>, other: &GpuJob<N>) -> (result: N)
        ensures
            result == self@.loading_beside(job@, other@),
    {
        match pair_lookup(
            &self.colocate_loading,
            &job.model,
            total_gpus_for(job),
            &other.model,
            total_gpus_for(other),
        ) {
            Some(time) => time,
            None => job.loading_time,
        }
    }
}

impl<N> CorunProfile<N> {
    /// A profile without entries.
    pub fn new() -> (result: Self)
        ensures
            result@ == (CorunModel::<N> {
                solo: Map::empty(),
                colocate: Map::empty(),
                colocate_loading: Map::empty(),
            }),
    {
        CorunProfile { solo: Vec::new(), colocate: Vec::new(), colocate_loading: Vec::new() }
    }
}

impl<N> Default for CorunProfile<N> {
    /// A profile without entries.
    fn default() -> (result: Self)
        ensures
            result@ == (CorunModel::<N> {
                solo: Map::empty(),
                colocate: Map::empty(),
                colocate_loading: Map::empty(),
            }),
    {
        CorunProfile::new()
    }
}

/// Where the solo entry for the same job stands that another replaces, if it replaces one.
pub fn replaced_solo<N>(entries: &Vec<SoloEntry<N>>, place: usize) -> (result: Option<usize>)
    requires
        place < entries@.len(),
    ensures
        match result {
            Some(earlier) => {
                &&& earlier < place
                &&& entries@[earlier as int].model@ == entries@[place as int].model@
                &&& entries@[earlier as int].gpus == entries@[place as int].gpus
                &&& forall|i: int|
                    earlier < i < place ==> (#[trigger] entries@[i]).model@
                        != entries@[place as int].model@ || entries@[i].gpus
                        != entries@[place as int].gpus
            },
            None => forall|i: int|
                0 <= i < place ==> (#[trigger] entries@[i]).model@
                    != entries@[place as int].model@ || entries@[i].gpus
                    != entries@[place as int].gpus,
        },
{
    let mut i: usize = place;
    while i > 0
        invariant
            i <= place < entries@.len(),
            forall|k: int|
                i <= k < place ==> (#[trigger] entries@[k]).model@ != entries@[place as int].model@
                    || entries@[k].gpus != entries@[place as int].gpus,
        decreases i,
    {
        i -= 1;
        if entries[i].model == entries[place].model && entries[i].gpus == entries[place].gpus {
            return Some(i);
        }
    }
    None
}

/// Where the entry for the same two jobs stands that another replaces, if it replaces one.
pub fn replaced_pair<V>(entries: &Vec<PairEntry<V>>, place: usize) -> (result: Option<usize>)
    requires
        place < entries@.len(),
    ensures
        match result {
            Some(earlier) => {
                &&& earlier < place
                &&& entries@[earlier as int].key() == entries@[place as int].key()
                &&& forall|i: int|
                    earlier < i < place ==> (#[trigger] entries@[i]).key()
                        != entries@[place as int].key()
            },
            None => forall|i: int|
                0 <= i < place ==> (#[trigger] entries@[i]).key() != entries@[place as int].key(),
        },
{
    let mut i: usize = place;
    while i > 0
        invariant
            i <= place < entries@.len(),
            forall|k: int|
                i <= k < place ==> (#[trigger] entries@[k]).key() != entries@[place as int].key(),
        decreases i,
    {
        i -= 1;
        if entries[i].model == entries[place].model && entries[i].gpus == entries[place].gpus
            && entries[i].co_model == entries[place].co_model && entries[i].co_gpus
            == entries[place].co_gpus {
            return Some(i);
        }
    }
    None
}

/// A table is looked up by the models of two jobs and the GPUs of the first one as they are: where
/// it has an entry for just as many GPUs of the other one, that is what it says. Else it is
/// the entry with the most GPUs below that, and it says nothing where there is none.
pub proof fn lookups_take_the_closest_entry<V>(
    table: Map<PairKey, V>,
    model: Seq<char>,
    gpus: i32,
    co_model: Seq<char>,
    co_gpus: i32,
    found: i32,
)
    ensures
        table.contains_key((model, gpus, co_model, co_gpus)) ==> closest(
            table,
            model,
            gpus as int,
            co_model,
            co_gpus as int,
        ) == Some(table[(model, gpus, co_model, co_gpus)]),
        found <= co_gpus && table.contains_key((model, gpus, co_model, found)) && (forall|other: i32|
            found < other <= co_gpus ==> !(#[trigger] table.contains_key(
                (model, gpus, co_model, other),
            ))) ==> closest(table, model, gpus as int, co_model, co_gpus as int) == Some(
            table[(model, gpus, co_model, found)],
        ),
        (forall|other: i32|
            other <= co_gpus ==> !(#[trigger] table.contains_key((model, gpus, co_model, other))))
            ==> closest(table, model, gpus as int, co_model, co_gpus as int) is None,
{
    if exists|at: i32| is_closest(table, model, gpus as int, co_model, co_gpus as int, at) {
        let at = choose|at: i32|
            is_closest(table, model, gpus as int, co_model, co_gpus as int, at);
        assert(table.contains_key((model, gpus, co_model, at)));
        if table.contains_key((model, gpus, co_model, co_gpus)) {
            assert(co_gpus <= at);
        }
        if found <= co_gpus && table.contains_key((model, gpus, co_model, found)) {
            assert(found <= at);
        }
    } else {
        assert(!is_closest(table, model, gpus as int, co_model, co_gpus as int, co_gpus));
        assert(!is_closest(table, model, gpus as int, co_model, co_gpus as int, found));
    }
}

/// A profile is looked up by the models of the jobs and the GPUs of all their workers: the tables
/// of pairs by those of both jobs, the table of solo times by those of the job. What no table
/// has is that of the job alone.
pub proof fn profiles_are_looked_up_by_models_and_gpus<N: Scalar>(
    profile: CorunModel<N>,
    job: JobModel<N>,
    other: JobModel<N>,
    gpus: i32,
    co_gpus: i32,
)
    requires
        gpus == job.gpu_workers * job.gpu_per_worker,
        co_gpus == other.gpu_workers * other.gpu_per_worker,
    ensures
        ({
            let key = (job.model, gpus, other.model, co_gpus);
            &&& profile.colocate.contains_key(key) ==> profile.beside(job, other)
                == profile.colocate[key]
            &&& (forall|at: i32|
                at <= co_gpus ==> !(#[trigger] profile.colocate.contains_key(
                    (job.model, gpus, other.model, at),
                ))) ==> profile.beside(job, other) == profile.alone(job)
            &&& profile.colocate_loading.contains_key(key) ==> profile.loading_beside(job, other)
                == profile.colocate_loading[key]
            &&& (forall|at: i32|
                at <= co_gpus ==> !(#[trigger] profile.colocate_loading.contains_key(
                    (job.model, gpus, other.model, at),
                ))) ==> profile.loading_beside(job, other) == job.loading_time
            &&& profile.solo.contains_key((job.model, gpus)) ==> profile.alone(job)
                == profile.solo[(job.model, gpus)]
            &&& !profile.solo.contains_key((job.model, gpus)) ==> profile.alone(job) == (
                job.iteration_computing_time,
                job.iteration_networking_time,
            )
        }),
{
    lookups_take_the_closest_entry(
        profile.colocate,
        job.model,
        gpus,
        other.model,
        co_gpus,
        co_gpus,
    );
    lookups_take_the_closest_entry(
        profile.colocate_loading,
        job.model,
        gpus,
        other.model,
        co_gpus,
        co_gpus,
    );
}

/// Where a table has no entry for just as many GPUs of the other job, the one with the most GPUs
/// below that counts.
pub proof fn fewer_neighbouring_gpus_stand_in<N: Scalar>(
    profile: CorunModel<N>,
    job: JobModel<N>,
    other: JobModel<N>,
    gpus: i32,
    co_gpus: i32,
    found: i32,
)
    requires
        gpus == job.gpu_workers * job.gpu_per_worker,
        co_gpus == other.gpu_workers * other.gpu_per_worker,
        found <= co_gpus,
    ensures
        profile.colocate.contains_key((job.model, gpus, other.model, found)) && (forall|at: i32|
            found < at <= co_gpus ==> !(#[trigger] profile.colocate.contains_key(
                (job.model, gpus, other.model, at),
            ))) ==> profile.beside(job, other) == profile.colocate[(
            job.model,
            gpus,
            other.model,
            found,
        )],
        profile.colocate_loading.contains_key((job.model, gpus, other.model, found)) && (forall|
            at: i32,
        |
            found < at <= co_gpus ==> !(#[trigger] profile.colocate_loading.contains_key(
                (job.model, gpus, other.model, at),
            ))) ==> profile.loading_beside(job, other) == profile.colocate_loading[(
            job.model,
            gpus,
            other.model,
            found,
        )],
{
    lookups_take_the_closest_entry(
        profile.colocate,
        job.model,
        gpus,
        other.model,
        co_gpus,
        found,
    );
    lookups_take_the_closest_entry(
        profile.colocate_loading,
        job.model,
        gpus,
        other.model,
        co_gpus,
        found,
    );
}

/// Where a table has a key twice, the later entry holds; and every entry is looked up by its
/// own key.
pub proof fn later_entries_hold<V>(entries: Seq<PairEntry<V>>, k: int)
    requires
        0 <= k < entries.len(),
        forall|i: int| k < i < entries.len() ==> (#[trigger] entries[i]).key() != entries[k].key(),
    ensures
        ({
            let entry = entries[k];
            let key = (entry.model@, entry.gpus, entry.co_model@, entry.co_gpus);
            &&& pair_table(entries).contains_key(key)
            &&& pair_table(entries)[key] == entry.value
        }),
    decreases entries.len(),
{
    let last = entries.len() - 1;
    if k < last {
        assert(entries[last].key() != entries[k].key());
        assert forall|i: int| k < i < entries.drop_last().len() implies (
        #[trigger] entries.drop_last()[i]).key() != entries.drop_last()[k].key() by {
            assert(entries[i].key() != entries[k].key());
        }
        later_entries_hold(entries.drop_last(), k);
    }
}

/// The later solo entry of a model and a number of GPUs holds.
pub proof fn later_solo_entries_hold<N: Scalar>(entries: Seq<SoloEntry<N>>, k: int)
    requires
        0 <= k < entries.len(),
        forall|i: int|
            k < i < entries.len() ==> (#[trigger] entries[i]).model@ != entries[k].model@
                || entries[i].gpus != entries[k].gpus,
    ensures
        solo_table(entries).contains_key((entries[k].model@, entries[k].gpus)),
        solo_table(entries)[(entries[k].model@, entries[k].gpus)] == entries[k].times,
    decreases entries.len(),
{
    let last = entries.len() - 1;
    if k < last {
        assert(entries[last].model@ != entries[k].model@ || entries[last].gpus != entries[k].gpus);
        assert forall|i: int| k < i < entries.drop_last().len() implies (
        #[trigger] entries.drop_last()[i]).model@ != entries.drop_last()[k].model@
            || entries.drop_last()[i].gpus != entries.drop_last()[k].gpus by {
            assert(entries[i].model@ != entries[k].model@ || entries[i].gpus != entries[k].gpus);
        }
        later_solo_entries_hold(entries.drop_last(), k);
    }
}

} // verus!
