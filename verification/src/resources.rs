//! The placement of jobs on the servers, and the release of what they took.

use vstd::prelude::*;

use crate::completion::renewal_keeps_places;
use crate::gpu_cluster::{
    arena, Allocation, AllocationModel, ClusterModel, GPUCluster, System,
};
use crate::gpu_job::{GpuJob, JobModel, Phase};
use crate::jump::wrapped;
use crate::lists::{copy_list, count_in, is_in, lists_view, occurrences};
use crate::placement::{
    plan_placement, plannable, planned, plans_are_complete, Demand, PlacementMethod, Plan,
};
use crate::scalar::{less, zero, Scalar};
use crate::timer::{EventType, Timer};

verus! {

/// A list without the first occurrence of a value.
pub open spec fn without_first(list: Seq<i32>, value: i32) -> Seq<i32>
    decreases list.len(),
{
    if list.len() == 0 {
        list
    } else if list.first() == value {
        list.drop_first()
    } else {
        seq![list.first()] + without_first(list.drop_first(), value)
    }
}

/// The GPUs of a job: as many on the server of each worker as a worker has.
pub open spec fn gpu_list(allocated: Seq<i32>, gpu_per_worker: i32) -> Seq<(i32, i32)>
    decreases allocated.len(),
{
    if allocated.len() == 0 {
        Seq::empty()
    } else {
        gpu_list(allocated.drop_last(), gpu_per_worker) + gpus_on(
            allocated.last(),
            gpu_per_worker as int,
        )
    }
}

/// The first GPUs of a server.
pub open spec fn gpus_on(server: i32, count: int) -> Seq<(i32, i32)> {
    Seq::new(
        if count > 0 {
            count as nat
        } else {
            0
        },
        |gpu: int| (server, gpu as i32),
    )
}

impl<N: Scalar> JobModel<N> {
    /// What the job asks of the servers.
    pub open spec fn asks(self) -> Demand {
        Demand {
            gpu_workers: self.gpu_workers,
            ps: self.ps,
            gpu_per_worker: self.gpu_per_worker,
            cpu_per_gpu_worker: self.cpu_per_gpu_worker,
            cpu_per_ps: self.cpu_per_ps,
        }
    }

    /// Whether the tensors of the job are so unequal that it should not be spread.
    pub open spec fn is_skewed(self) -> bool {
        less(N::integer(5), self.skewness)
    }

    /// The GPUs that the job takes of a server when it is placed on some servers.
    pub open spec fn gpus_taken(self, allocated: Seq<i32>, server: int) -> int {
        occurrences(allocated, server as i32) * self.gpu_per_worker
    }

    /// The CPU cores that the job takes of a server when it is placed on some servers.
    pub open spec fn cpus_taken(
        self,
        allocated: Seq<i32>,
        ps_allocated: Seq<i32>,
        server: int,
    ) -> int {
        occurrences(allocated, server as i32) * self.cpu_per_gpu_worker + occurrences(
            ps_allocated,
            server as i32,
        ) * self.cpu_per_ps
    }

    /// Whether the job has workers or parameter servers on a server.
    pub open spec fn uses(self, server: int) -> bool {
        self.allocated.contains(server as i32) || self.ps_allocated.contains(server as i32)
    }

    /// The job placed on some servers, about to load.
    pub open spec fn placed(
        self,
        allocated: Seq<i32>,
        ps_allocated: Seq<i32>,
        time: N,
        lists_gpus: bool,
    ) -> JobModel<N> {
        JobModel {
            allocated,
            ps_allocated,
            start_time: Some(time),
            wait_time: Some(time.difference(self.arrival_time)),
            training_time: None,
            consumed_compute_time: Some(zero()),
            consumed_comms_time: Some(zero()),
            completed_iterations: Some(zero()),
            last_change_time: Some(time),
            gpu_allocation: if lists_gpus {
                gpu_list(allocated, self.gpu_per_worker)
            } else {
                self.gpu_allocation
            },
            ..self
        }
    }

    /// The job at the start of its training.
    pub open spec fn started(self, time: N, iterates: bool) -> JobModel<N> {
        let job = JobModel {
            training_time: Some(self.loading_time),
            consumed_loading_time: Some(self.loading_time),
            consumed_compute_time: Some(zero()),
            consumed_comms_time: Some(zero()),
            last_change_time: Some(time),
            ..self
        };
        if iterates {
            JobModel {
                current_iteration: 0,
                current_phase: Phase::Compute,
                phase_start_time: Some(time),
                is_in_comm_phase: false,
                ..job
            }
        } else {
            job
        }
    }
}

/// Whether a number is one of 32 bits.
pub open spec fn fits(value: int) -> bool {
    i32::MIN <= value <= i32::MAX
}

impl<N: Scalar> ClusterModel<N> {
    /// The cluster after a change of which jobs run: what was stored of cycles no longer holds.
    pub open spec fn next_epoch(self) -> ClusterModel<N> {
        ClusterModel {
            placement_epoch: wrapped(self.placement_epoch, 1),
            cycle_observation_cache: Map::empty(),
            cycle_profiles: Map::empty(),
            ..self
        }
    }

    /// The placement that a method finds for a job.
    pub open spec fn plan(self, job: JobModel<N>, method: PlacementMethod) -> Option<
        (Seq<i32>, Seq<i32>),
    > {
        planned(method, self.gpus, self.cpu_cores, job.asks(), job.is_skewed())
    }

    /// Whether the free resources can still be counted when a job is placed on some servers.
    pub open spec fn can_take(
        self,
        job: JobModel<N>,
        allocated: Seq<i32>,
        ps_allocated: Seq<i32>,
    ) -> bool {
        forall|server: int|
            0 <= server < self.servers ==> fits(
                #[trigger] self.gpus[server] - job.gpus_taken(allocated, server),
            ) && fits(self.cpu_cores[server] - job.cpus_taken(allocated, ps_allocated, server))
    }

    /// The cluster with a job placed on some servers.
    pub open spec fn taken(
        self,
        job: JobModel<N>,
        id: i32,
        allocated: Seq<i32>,
        ps_allocated: Seq<i32>,
    ) -> ClusterModel<N> {
        ClusterModel {
            gpus: Seq::new(
                self.servers as nat,
                |server: int| (self.gpus[server] - job.gpus_taken(allocated, server)) as i32,
            ),
            cpu_cores: Seq::new(
                self.servers as nat,
                |server: int|
                    (self.cpu_cores[server] - job.cpus_taken(
                        allocated,
                        ps_allocated,
                        server,
                    )) as i32,
            ),
            active_jobs: Seq::new(
                self.servers as nat,
                |server: int|
                    if allocated.contains(server as i32) || ps_allocated.contains(server as i32) {
                        self.active_jobs[server].push(id)
                    } else {
                        self.active_jobs[server]
                    },
            ),
            ..self.next_epoch()
        }
    }

    /// The free GPUs of a server after a job is released: what it took is returned if it
    /// is active there, and there are no more than the server has.
    pub open spec fn gpus_after(self, job: JobModel<N>, id: i32, server: int) -> int {
        let returned = if self.active_jobs[server].contains(id) {
            self.gpus[server] + job.gpus_taken(job.allocated, server)
        } else {
            self.gpus[server] as int
        };
        if returned < self.gpus_per_server {
            returned
        } else {
            self.gpus_per_server as int
        }
    }

    /// The free CPU cores of a server after a job is released.
    pub open spec fn cpus_after(self, job: JobModel<N>, id: i32, server: int) -> int {
        let returned = if self.active_jobs[server].contains(id) {
            self.cpu_cores[server] + job.cpus_taken(job.allocated, job.ps_allocated, server)
        } else {
            self.cpu_cores[server] as int
        };
        if returned < self.cpu_cores_per_server {
            returned
        } else {
            self.cpu_cores_per_server as int
        }
    }

    /// Whether the free resources can still be counted when a job is released.
    pub open spec fn can_free(self, job: JobModel<N>, id: i32) -> bool {
        forall|server: int|
            0 <= server < self.servers && #[trigger] job.uses(server) ==> fits(
                self.gpus_after(job, id, server),
            ) && fits(self.cpus_after(job, id, server))
    }

    /// The cluster with a job released.
    pub open spec fn freed(self, job: JobModel<N>, id: i32) -> ClusterModel<N> {
        ClusterModel {
            gpus: Seq::new(
                self.servers as nat,
                |server: int|
                    if job.uses(server) {
                        self.gpus_after(job, id, server) as i32
                    } else {
                        self.gpus[server]
                    },
            ),
            cpu_cores: Seq::new(
                self.servers as nat,
                |server: int|
                    if job.uses(server) {
                        self.cpus_after(job, id, server) as i32
                    } else {
                        self.cpu_cores[server]
                    },
            ),
            active_jobs: Seq::new(
                self.servers as nat,
                |server: int|
                    if job.uses(server) {
                        without_first(self.active_jobs[server], id)
                    } else {
                        self.active_jobs[server]
                    },
            ),
            ..self.next_epoch()
        }
    }
}

impl<N: Scalar> System<N> {
    /// The state with a job placed on some servers, loading.
    pub open spec fn placed(
        self,
        id: i32,
        allocated: Seq<i32>,
        ps_allocated: Seq<i32>,
        time: N,
    ) -> System<N> {
        let model = self.cluster.interference_model;
        let job = self.jobs[id as int].placed(allocated, ps_allocated, time, model.looks_inside());
        let cluster = self.cluster.taken(self.jobs[id as int], id, allocated, ps_allocated);
        let loading = if model is CorunProfile {
            cluster.corun_loading(self.jobs.update(id as int, job), id as int)
        } else {
            job.loading_time
        };
        System {
            cluster: ClusterModel {
                allocations: self.cluster.allocations.push(
                    AllocationModel { job: id, allocated, ps_allocated, time },
                ),
                ..cluster
            }.logged(time),
            jobs: self.jobs.update(id as int, JobModel { loading_time: loading, ..job }),
            timer: self.timer.with_event(time.sum(loading), EventType::Start, id),
        }
    }

    /// The state with the bandwidth of the servers shared out.
    pub open spec fn shared_out(self) -> System<N> {
        System {
            cluster: self.cluster.with_bandwidth(self.jobs),
            jobs: self.cluster.jobs_with_bandwidth(self.jobs),
            timer: self.timer,
        }
    }

    /// The state with a job at the start of its training, which has no event yet.
    pub open spec fn trained(self, id: i32, time: N) -> System<N> {
        let cluster = self.cluster;
        let model = cluster.interference_model;
        let jobs = self.jobs.update(
            id as int,
            self.jobs[id as int].started(time, model.iterates()),
        );
        System {
            jobs: if model is CorunProfile {
                jobs.update(
                    id as int,
                    jobs[id as int].with_times(cluster.corun_times(jobs, id as int)),
                )
            } else {
                jobs
            },
            ..self
        }
    }

    /// The state with a job at the start of its training, the bandwidth shared out and
    /// the completion of the job entered as if there were no contention.
    pub open spec fn entered(self, id: i32, time: N) -> System<N> {
        let trained = self.trained(id, time);
        let job = trained.jobs[id as int];
        let iteration = crate::gpu_cluster::iteration_time(
            self.cluster.overlapping_ratio,
            job.iteration_computing_time,
            job.iteration_networking_time,
        );
        System {
            timer: self.timer.with_event(
                time.sum(job.iteration_number.product(iteration)),
                EventType::Complete,
                id,
            ),
            ..trained.shared_out()
        }
    }

    /// Whether a state follows from this one when a job starts to train: where
    /// iterations are split, its first compute phase starts, and else its completion is
    /// entered and all completion times are renewed.
    pub open spec fn starts_to(self, after: System<N>, id: i32, time: N) -> bool {
        if self.cluster.interference_model.iterates() {
            let trained = self.trained(id, time);
            after == (System {
                timer: self.timer.with_event(
                    time.sum(self.jobs[id as int].iteration_computing_time),
                    EventType::IterCompEnd,
                    id,
                ),
                ..trained
            })
        } else {
            self.entered(id, time).renews_to(after, time)
        }
    }

    /// The state with what a job took released, and the bandwidth shared out anew.
    pub open spec fn freed(self, id: i32) -> System<N> {
        let job = self.jobs[id as int];
        System {
            cluster: self.cluster.freed(job, id),
            jobs: self.jobs.update(
                id as int,
                JobModel { using_bandwidths: Map::empty(), ..job },
            ),
            timer: self.timer,
        }.shared_out()
    }

    /// Whether a state follows from this one when a job is released: what it took is
    /// returned, all completion times are renewed, and the utilization is logged.
    pub open spec fn releases_to(self, after: System<N>, id: i32, time: N) -> bool {
        exists|renewed: System<N>| #[trigger]
            self.freed(id).renews_to(renewed, time) && after == (System {
                cluster: renewed.cluster.logged(time),
                ..renewed
            })
    }
}

/// Where a value stands first, a list without its first occurrence lacks just that place.
pub(crate) proof fn lemma_without_first(list: Seq<i32>, value: i32, i: int)
    requires
        0 <= i < list.len(),
        list[i] == value,
        forall|j: int| 0 <= j < i ==> list[j] != value,
    ensures
        without_first(list, value) == list.remove(i),
    decreases list.len(),
{
    if i == 0 {
        assert(list.remove(0) =~= list.drop_first());
    } else {
        let rest = list.drop_first();
        lemma_without_first(rest, value, i - 1);
        assert(list[0] != value);
        assert(list.remove(i) =~= seq![list.first()] + rest.remove(i - 1));
    }
}

/// A list that does not hold a value has no occurrence to lose.
pub(crate) proof fn lemma_without_absent(list: Seq<i32>, value: i32)
    requires
        !list.contains(value),
    ensures
        without_first(list, value) == list,
    decreases list.len(),
{
    if list.len() > 0 {
        let rest = list.drop_first();
        assert(list[0] != value);
        assert(!rest.contains(value)) by {
            if rest.contains(value) {
                let i = choose|i: int| 0 <= i < rest.len() && rest[i] == value;
                assert(list[i + 1] == value);
            }
        }
        lemma_without_absent(rest, value);
        assert(seq![list.first()] + rest =~= list);
    }
}

/// Removes the first occurrence of a value. Returns whether there was one.
fn remove_first(list: &mut Vec<i32>, value: i32) -> (found: bool)
    ensures
        final(list)@ == without_first(old(list)@, value),
        found == old(list)@.contains(value),
{
    let mut i: usize = 0;
    while i < list.len()
        invariant
            i <= list@.len(),
            list@ == old(list)@,
            forall|j: int| 0 <= j < i ==> list@[j] != value,
        decreases list@.len() - i,
    {
        if list[i] == value {
            proof {
                lemma_without_first(list@, value, i as int);
            }
            list.remove(i);
            return true;
        }
        i += 1;
    }
    proof {
        lemma_without_absent(list@, value);
    }
    false
}

/// A number of equal amounts of 32 bits.
fn times_count(count: usize, amount: i32) -> (result: i128)
    ensures
        result == count * amount,
        -0x8000_0000_0000_0000_0000_0000 <= result <= 0x8000_0000_0000_0000_0000_0000,
{
    assert(-0x8000_0000_0000_0000_0000_0000 <= count * amount
        <= 0x8000_0000_0000_0000_0000_0000) by (nonlinear_arith)
        requires
            0 <= count <= 0xFFFF_FFFF_FFFF_FFFF,
            i32::MIN <= amount <= i32::MAX,
    ;
    (count as i128) * (amount as i128)
}

impl<N: Scalar> GpuJob<N> {
    /// What the job asks of the servers.
    pub fn request(&self) -> (result: Demand)
        ensures
            result == self@.asks(),
    {
        Demand {
            gpu_workers: self.gpu_workers,
            ps: self.ps,
            gpu_per_worker: self.gpu_per_worker,
            cpu_per_gpu_worker: self.cpu_per_gpu_worker,
            cpu_per_ps: self.cpu_per_ps,
        }
    }

    /// The GPUs of a job that is placed on some servers.
    fn list_gpus(allocated: &Vec<i32>, gpu_per_worker: i32) -> (result: Vec<(i32, i32)>)
        ensures
            result@ == gpu_list(allocated@, gpu_per_worker),
    {
        let mut result: Vec<(i32, i32)> = Vec::new();
        let mut i: usize = 0;
        assert(allocated@.take(0) =~= Seq::<i32>::empty());
        while i < allocated.len()
            invariant
                i <= allocated@.len(),
                result@ == gpu_list(allocated@.take(i as int), gpu_per_worker),
            decreases allocated@.len() - i,
        {
            let server: i32 = allocated[i];
            let ghost before = result@;
            let mut gpu: i32 = 0;
            assert(before + gpus_on(server, 0) =~= before);
            while gpu < gpu_per_worker
                invariant
                    0 <= gpu,
                    gpu <= gpu_per_worker || gpu_per_worker <= 0 && gpu == 0,
                    result@ == before + gpus_on(server, gpu as int),
                decreases gpu_per_worker - gpu,
            {
                result.push((server, gpu));
                gpu += 1;
                assert(result@ =~= before + gpus_on(server, gpu as int));
            }
            proof {
                assert(gpus_on(server, gpu as int) =~= gpus_on(server, gpu_per_worker as int));
                assert(allocated@.take(i + 1).drop_last() =~= allocated@.take(i as int));
                assert(allocated@.take(i + 1).last() == server);
            }
            i += 1;
        }
        assert(allocated@.take(i as int) =~= allocated@);
        result
    }

    /// Places the job on some servers.
    fn place(&mut self, allocated: Vec<i32>, ps_allocated: Vec<i32>, current_time: N, lists_gpus: bool)
        ensures
            final(self)@ == old(self)@.placed(
                allocated@,
                ps_allocated@,
                current_time,
                lists_gpus,
            ),
    {
        if lists_gpus {
            self.gpu_allocation = Self::list_gpus(&allocated, self.gpu_per_worker);
        }
        self.allocated = allocated;
        self.ps_allocated = ps_allocated;
        self.start_time = Some(current_time);
        self.wait_time = Some(current_time.minus(self.arrival_time));
        self.training_time = None;
        self.consumed_compute_time = Some(N::of_int(0));
        self.consumed_comms_time = Some(N::of_int(0));
        self.completed_iterations = Some(N::of_int(0));
        self.last_change_time = Some(current_time);
    }

    /// Starts the training of the job.
    fn start(&mut self, current_time: N, iterates: bool)
        ensures
            final(self)@ == old(self)@.started(current_time, iterates),
    {
        self.training_time = Some(self.loading_time);
        self.consumed_loading_time = Some(self.loading_time);
        self.consumed_compute_time = Some(N::of_int(0));
        self.consumed_comms_time = Some(N::of_int(0));
        self.last_change_time = Some(current_time);
        if iterates {
            self.current_iteration = 0;
            self.current_phase = Phase::Compute;
            self.phase_start_time = Some(current_time);
            self.is_in_comm_phase = false;
        }
    }

    fn set_loading_time(&mut self, loading_time: N)
        ensures
            final(self)@ == (JobModel { loading_time, ..old(self)@ }),
    {
        self.loading_time = loading_time;
    }

    fn clear_bandwidths(&mut self)
        ensures
            final(self)@ == (JobModel { using_bandwidths: Map::empty(), ..old(self)@ }),
    {
        self.using_bandwidths = std::collections::HashMap::new();
    }
}

impl<N: Scalar> GPUCluster<N> {
    fn invalidate_cycle_state(&mut self)
        ensures
            final(self)@ == (ClusterModel {
                cycle_observation_cache: Map::empty(),
                cycle_profiles: Map::empty(),
                ..old(self)@
            }),
    {
        self.cycle_observation_cache = Vec::new();
        self.cycle_profiles = Vec::new();
    }

    fn bump_placement_epoch(&mut self)
        ensures
            final(self)@ == old(self)@.next_epoch(),
    {
        self.placement_epoch = self.placement_epoch.wrapping_add(1);
        self.invalidate_cycle_state();
    }

    /// The free GPUs and CPU cores of a server when a job is placed on some servers.
    fn left_after(&self, job: &GpuJob<N>, plan: &Plan, server: usize) -> (result: (i128, i128))
        requires
            self@.is_sized(),
            server < self.servers,
        ensures
            result.0 == self@.gpus[server as int] - job@.gpus_taken(
                plan.allocated@,
                server as int,
            ),
            result.1 == self@.cpu_cores[server as int] - job@.cpus_taken(
                plan.allocated@,
                plan.ps_allocated@,
                server as int,
            ),
    {
        let workers: usize = count_in(&plan.allocated, server as i32);
        let ps: usize = count_in(&plan.ps_allocated, server as i32);
        let gpus: i128 = self.gpus[server] as i128 - times_count(workers, job.gpu_per_worker);
        let cpus: i128 = self.cpu_cores[server] as i128 - times_count(
            workers,
            job.cpu_per_gpu_worker,
        ) - times_count(ps, job.cpu_per_ps);
        (gpus, cpus)
    }

    /// Whether the free resources can still be counted when a job is placed on some servers.
    fn counts_after(&self, job: &GpuJob<N>, plan: &Plan) -> (result: bool)
        requires
            self@.is_sized(),
        ensures
            result == self@.can_take(job@, plan.allocated@, plan.ps_allocated@),
    {
        let n: usize = self.servers as usize;
        let mut s: usize = 0;
        while s < n
            invariant
                s <= n,
                n == self.servers,
                self@.is_sized(),
                forall|server: int|
                    0 <= server < s ==> fits(
                        #[trigger] self@.gpus[server] - job@.gpus_taken(plan.allocated@, server),
                    ) && fits(
                        self@.cpu_cores[server] - job@.cpus_taken(
                            plan.allocated@,
                            plan.ps_allocated@,
                            server,
                        ),
                    ),
            decreases n - s,
        {
            let (gpus, cpus) = self.left_after(job, plan, s);
            assert(self@.gpus[s as int] - job@.gpus_taken(plan.allocated@, s as int) == gpus);
            if gpus < i32::MIN as i128 || gpus > i32::MAX as i128 || cpus < i32::MIN as i128 || cpus
                > i32::MAX as i128 {
                return false;
            }
            s += 1;
        }
        true
    }

    /// Takes what a job needs on some servers.
    fn take(&mut self, job: &GpuJob<N>, job_idx: i32, plan: &Plan)
        requires
            old(self)@.is_sized(),
            old(self)@.can_take(job@, plan.allocated@, plan.ps_allocated@),
        ensures
            final(self)@ == old(self)@.taken(
                job@,
                job_idx,
                plan.allocated@,
                plan.ps_allocated@,
            ),
    {
        let ghost model = self@;
        let ghost wanted = model.taken(job@, job_idx, plan.allocated@, plan.ps_allocated@);
        let n: usize = self.servers as usize;
        let mut s: usize = 0;
        while s < n
            invariant
                s <= n,
                n == model.servers,
                model.is_sized(),
                model.can_take(job@, plan.allocated@, plan.ps_allocated@),
                wanted == model.taken(job@, job_idx, plan.allocated@, plan.ps_allocated@),
                self@ == (ClusterModel {
                    gpus: self@.gpus,
                    cpu_cores: self@.cpu_cores,
                    active_jobs: self@.active_jobs,
                    ..model
                }),
                self@.is_sized(),
                forall|i: int|
                    0 <= i < n ==> #[trigger] self@.gpus[i] == if i < s {
                        wanted.gpus[i]
                    } else {
                        model.gpus[i]
                    },
                forall|i: int|
                    0 <= i < n ==> #[trigger] self@.cpu_cores[i] == if i < s {
                        wanted.cpu_cores[i]
                    } else {
                        model.cpu_cores[i]
                    },
                forall|i: int|
                    0 <= i < n ==> #[trigger] self@.active_jobs[i] == if i < s {
                        wanted.active_jobs[i]
                    } else {
                        model.active_jobs[i]
                    },
            decreases n - s,
        {
            let (gpus, cpus) = self.left_after(job, plan, s);
            proof {
                assert(self@.gpus[s as int] == model.gpus[s as int]);
                assert(fits(
                    model.gpus[s as int] - job@.gpus_taken(plan.allocated@, s as int),
                ));
                assert(self@.active_jobs[s as int] == model.active_jobs[s as int]);
                assert(self@.active_jobs[s as int] == self.active_jobs@[s as int]@);
            }
            self.gpus.set(s, gpus as i32);
            self.cpu_cores.set(s, cpus as i32);
            let ghost lists = self.active_jobs@;
            if is_in(&plan.allocated, s as i32) || is_in(&plan.ps_allocated, s as i32) {
                self.active_jobs[s].push(job_idx);
            }
            assert(self@.active_jobs =~= lists_view(lists).update(
                s as int,
                wanted.active_jobs[s as int],
            ));
            s += 1;
        }
        self.bump_placement_epoch();
        proof {
            assert(self@.gpus =~= wanted.gpus);
            assert(self@.cpu_cores =~= wanted.cpu_cores);
            assert(self@.active_jobs =~= wanted.active_jobs);
        }
    }
}

/// A cluster knows its jobs after one of them is placed.
proof fn lemma_taken_knows<N: Scalar>(
    cluster: ClusterModel<N>,
    job: JobModel<N>,
    id: i32,
    allocated: Seq<i32>,
    ps_allocated: Seq<i32>,
    jobs: nat,
)
    requires
        cluster.is_sized(),
        cluster.knows_jobs(jobs),
        0 <= id < jobs,
    ensures
        cluster.taken(job, id, allocated, ps_allocated).is_sized(),
        cluster.taken(job, id, allocated, ps_allocated).knows_jobs(jobs),
{
    let after = cluster.taken(job, id, allocated, ps_allocated);
    assert forall|server: int, k: int|
        0 <= server < after.active_jobs.len() && 0 <= k < after.active_jobs[server].len() implies 0
        <= #[trigger] after.active_jobs[server][k] < jobs by {
        if k < cluster.active_jobs[server].len() {
            assert(after.active_jobs[server][k] == cluster.active_jobs[server][k]);
        }
    }
}

impl<N: Scalar> GPUCluster<N> {
    /// Places a job on some servers.
    fn place_job(
        &mut self,
        job_idx: i32,
        plan: Plan,
        current_time: N,
        jobs: &mut Vec<GpuJob<N>>,
        timer: &mut Timer<N>,
    )
        requires
            old(self)@.is_sized(),
            old(self)@.knows_jobs(old(jobs)@.len()),
            0 <= job_idx < old(jobs)@.len(),
            old(timer).wf(),
            !old(timer)@.events.contains_key(job_idx),
            forall|server: i32| #[trigger]
                plan.allocated@.contains(server) ==> 0 <= server < old(self).servers,
            forall|server: i32| #[trigger]
                plan.ps_allocated@.contains(server) ==> 0 <= server < old(self).servers,
            old(self)@.can_take(
                old(jobs)@[job_idx as int]@,
                plan.allocated@,
                plan.ps_allocated@,
            ),
        ensures
            final(timer).wf(),
            (System { cluster: final(self)@, jobs: arena(final(jobs)@), timer: final(timer)@ }) == (
            System {
                cluster: old(self)@,
                jobs: arena(old(jobs)@),
                timer: old(timer)@,
            }).placed(job_idx, plan.allocated@, plan.ps_allocated@, current_time),
    {
        let ghost before = System { cluster: self@, jobs: arena(jobs@), timer: timer@ };
        let ghost old_jobs = jobs@;
        let ghost id = job_idx as int;
        let ghost wanted = before.placed(
            job_idx,
            plan.allocated@,
            plan.ps_allocated@,
            current_time,
        );
        proof {
            assert(arena(jobs@)[id] == jobs@[id]@);
            lemma_taken_knows(
                self@,
                jobs@[id]@,
                job_idx,
                plan.allocated@,
                plan.ps_allocated@,
                jobs@.len(),
            );
        }
        self.take(&jobs[job_idx as usize], job_idx, &plan);
        let ghost cluster = self@;
        let allocated: Vec<i32> = copy_list(&plan.allocated);
        let ps_allocated: Vec<i32> = copy_list(&plan.ps_allocated);
        let lists_gpus: bool = self.interference_model.is_intra_model();
        jobs[job_idx as usize].place(allocated, ps_allocated, current_time, lists_gpus);
        let ghost job = jobs@[id]@;
        assert(arena(jobs@) =~= arena(old_jobs).update(id, job));
        // The loading time follows from the jobs that are on the servers at this
        // moment, and stays as it is from here on.
        if self.interference_model.is_corun_profile() {
            assert(jobs@[id]@.is_placed_within(self.servers as int));
            let snapshot: N = self.corun_loading_time_snapshot(job_idx, jobs);
            jobs[job_idx as usize].set_loading_time(snapshot);
        }
        assert(arena(jobs@) =~= wanted.jobs);
        let loading_time: N = jobs[job_idx as usize].loading_time;
        timer.add_event(current_time.plus(loading_time), EventType::Start, job_idx);
        let ghost lines = self.allocations@;
        let Plan { allocated, ps_allocated } = plan;
        self.allocations.push(
            Allocation { job: job_idx, allocated, ps_allocated, time: current_time },
        );
        assert(self@.allocations =~= before.cluster.allocations.push(
            AllocationModel {
                job: job_idx,
                allocated: plan.allocated@,
                ps_allocated: plan.ps_allocated@,
                time: current_time,
            },
        ));
        self.log_gpu_util_snapshot(current_time);
    }

    /// Places a job by a method, where the method finds a placement. Returns whether
    /// it did, or nothing where the free resources could no longer be counted.
    pub fn try_allocate_resources(
        &mut self,
        job_idx: i32,
        placement_method: PlacementMethod,
        current_time: N,
        jobs: &mut Vec<GpuJob<N>>,
        timer: &mut Timer<N>,
    ) -> (result: Option<bool>)
        requires
            old(self)@.is_sized(),
            old(self)@.knows_jobs(old(jobs)@.len()),
            0 <= job_idx < old(jobs)@.len(),
            old(timer).wf(),
            !old(timer)@.events.contains_key(job_idx),
            plannable(
                placement_method,
                old(self)@.gpus,
                old(self)@.cpu_cores,
                old(jobs)@[job_idx as int]@.asks(),
            ),
        ensures
            final(timer).wf(),
            ({
                let before = System {
                    cluster: old(self)@,
                    jobs: arena(old(jobs)@),
                    timer: old(timer)@,
                };
                let after = System {
                    cluster: final(self)@,
                    jobs: arena(final(jobs)@),
                    timer: final(timer)@,
                };
                let job = before.jobs[job_idx as int];
                match before.cluster.plan(job, placement_method) {
                    Some((allocated, ps_allocated)) => if before.cluster.can_take(
                        job,
                        allocated,
                        ps_allocated,
                    ) {
                        &&& result == Some(true)
                        &&& after == before.placed(job_idx, allocated, ps_allocated, current_time)
                    } else {
                        result is None && after == before
                    },
                    None => result == Some(false) && after == before,
                }
            }),
    {
        proof {
            assert(arena(jobs@)[job_idx as int] == jobs@[job_idx as int]@);
            plans_are_complete(
                placement_method,
                self@.gpus,
                self@.cpu_cores,
                jobs@[job_idx as int]@.asks(),
                jobs@[job_idx as int]@.is_skewed(),
            );
        }
        let job = &jobs[job_idx as usize];
        let skewed: bool = N::of_int(5).is_less(job.skewness);
        match plan_placement(
            placement_method,
            &self.gpus,
            &self.cpu_cores,
            job.request(),
            skewed,
        ) {
            Some(plan) => {
                if self.counts_after(job, &plan) {
                    self.place_job(job_idx, plan, current_time, jobs, timer);
                    Some(true)
                } else {
                    None
                }
            },
            None => Some(false),
        }
    }

    /// Places a job by a method, where the method finds a placement. Returns whether
    /// it did.
    pub fn allocate_resources(
        &mut self,
        job_idx: i32,
        placement_method: PlacementMethod,
        current_time: N,
        jobs: &mut Vec<GpuJob<N>>,
        timer: &mut Timer<N>,
    ) -> (result: bool)
        requires
            old(self)@.is_sized(),
            old(self)@.knows_jobs(old(jobs)@.len()),
            0 <= job_idx < old(jobs)@.len(),
            old(timer).wf(),
            !old(timer)@.events.contains_key(job_idx),
            plannable(
                placement_method,
                old(self)@.gpus,
                old(self)@.cpu_cores,
                old(jobs)@[job_idx as int]@.asks(),
            ),
            old(self)@.plan(old(jobs)@[job_idx as int]@, placement_method) matches Some(
                (allocated, ps_allocated),
            ) ==> old(self)@.can_take(old(jobs)@[job_idx as int]@, allocated, ps_allocated),
        ensures
            final(timer).wf(),
            ({
                let before = System {
                    cluster: old(self)@,
                    jobs: arena(old(jobs)@),
                    timer: old(timer)@,
                };
                let after = System {
                    cluster: final(self)@,
                    jobs: arena(final(jobs)@),
                    timer: final(timer)@,
                };
                match before.cluster.plan(before.jobs[job_idx as int], placement_method) {
                    Some((allocated, ps_allocated)) => {
                        &&& result
                        &&& after == before.placed(job_idx, allocated, ps_allocated, current_time)
                    },
                    None => !result && after == before,
                }
            }),
    {
        assert(arena(jobs@)[job_idx as int] == jobs@[job_idx as int]@);
        match self.try_allocate_resources(job_idx, placement_method, current_time, jobs, timer) {
            Some(placed) => placed,
            None => false,
        }
    }
}

/// Sharing the bandwidth out keeps what fits together so.
pub(crate) proof fn lemma_shared_out_sound<N: Scalar>(state: System<N>, exempt: int)
    requires
        state.is_sound_but(exempt),
    ensures
        state.shared_out().is_sound_but(exempt),
{
    let after = state.shared_out();
    assert forall|job: int| 0 <= job < after.jobs.len() implies {
        &&& (#[trigger] after.jobs[job]).is_consistent()
        &&& after.jobs[job].is_placed_within(after.cluster.servers as int)
    } by {
        assert(state.jobs[job].is_consistent());
        assert(state.jobs[job].is_placed_within(state.cluster.servers as int));
    }
    assert forall|job: int|
        0 <= job < after.jobs.len() && job != exempt && #[trigger] after.cluster.active(job)
            && after.jobs[job].training_time is Some implies after.timer.events.contains_key(
        job as i32,
    ) by {
        lemma_same_active(state.cluster, after.cluster, job);
    }
    if after.cluster.interference_model is CorunProfile {
        assert forall|job: int| 0 <= job < after.jobs.len() implies
            after.cluster.corun_profile.solo_times(#[trigger] after.jobs[job]) is Some by {
            assert(state.cluster.corun_profile.solo_times(state.jobs[job]) is Some);
        }
    }
    assert(after.cluster.knows_jobs(after.jobs.len())) by {
        assert forall|server: int, k: int|
            0 <= server < after.cluster.active_jobs.len() && 0 <= k
                < after.cluster.active_jobs[server].len() implies 0
            <= #[trigger] after.cluster.active_jobs[server][k] < after.jobs.len() by {
            assert(0 <= state.cluster.active_jobs[server][k] < state.jobs.len());
        }
    }
}

/// Which jobs are active depends only on the servers' lists.
pub(crate) proof fn lemma_same_active<N: Scalar>(a: ClusterModel<N>, b: ClusterModel<N>, job: int)
    requires
        a.active_jobs == b.active_jobs,
    ensures
        a.active(job) == b.active(job),
{
    if a.active(job) {
        let server = choose|server: int| a.runs(server, job);
        assert(b.runs(server, job));
    }
    if b.active(job) {
        let server = choose|server: int| b.runs(server, job);
        assert(a.runs(server, job));
    }
}

/// A state in which one job lacks an event is sound once it has one.
pub(crate) proof fn lemma_event_completes<N: Scalar>(
    state: System<N>,
    id: i32,
    time: N,
    event_type: EventType,
)
    requires
        state.is_sound_but(id as int),
        0 <= id < state.jobs.len(),
    ensures
        (System { timer: state.timer.with_event(time, event_type, id), ..state }).is_sound(),
{
    let after = System { timer: state.timer.with_event(time, event_type, id), ..state };
    assert forall|job: int|
        0 <= job < after.jobs.len() && #[trigger] after.cluster.active(job)
            && after.jobs[job].training_time is Some implies after.timer.events.contains_key(
        job as i32,
    ) by {
        if job != id {
            assert(state.cluster.active(job));
        }
    }
    assert forall|job: i32| #[trigger] after.timer.events.contains_key(job) implies 0 <= job
        < after.jobs.len() by {
        if job != id {
            assert(state.timer.events.contains_key(job));
        }
    }
}

/// Another state of one job, in the same places and consistent, keeps what fits
/// together so.
pub(crate) proof fn lemma_job_replaced<N: Scalar>(state: System<N>, id: int, job: JobModel<N>, exempt: int)
    requires
        state.is_sound_but(exempt),
        0 <= id < state.jobs.len(),
        job.is_consistent(),
        job.is_placed_within(state.cluster.servers as int),
        job.model == state.jobs[id].model,
        job.gpu_workers == state.jobs[id].gpu_workers,
        job.gpu_per_worker == state.jobs[id].gpu_per_worker,
        id == exempt || job.training_time is None || state.jobs[id].training_time is Some,
    ensures
        (System { jobs: state.jobs.update(id, job), ..state }).is_sound_but(exempt),
{
    let after = System { jobs: state.jobs.update(id, job), ..state };
    assert forall|other: int| 0 <= other < after.jobs.len() implies {
        &&& (#[trigger] after.jobs[other]).is_consistent()
        &&& after.jobs[other].is_placed_within(after.cluster.servers as int)
    } by {
        assert(state.jobs[other].is_consistent());
        assert(state.jobs[other].is_placed_within(state.cluster.servers as int));
    }
    assert forall|other: int|
        0 <= other < after.jobs.len() && other != exempt && #[trigger] after.cluster.active(other)
            && after.jobs[other].training_time is Some implies after.timer.events.contains_key(
        other as i32,
    ) by {
        assert(state.cluster.active(other));
    }
    if after.cluster.interference_model is CorunProfile {
        assert forall|other: int| 0 <= other < after.jobs.len() implies
            after.cluster.corun_profile.solo_times(#[trigger] after.jobs[other]) is Some by {
            assert(state.cluster.corun_profile.solo_times(state.jobs[other]) is Some);
        }
    }
}

pub(crate) proof fn lemma_trained_sound<N: Scalar>(state: System<N>, id: i32, time: N)
    requires
        state.is_sound_but(id as int),
        0 <= id < state.jobs.len(),
    ensures
        state.trained(id, time).is_sound_but(id as int),
{
    let cluster = state.cluster;
    let model = cluster.interference_model;
    let old_job = state.jobs[id as int];
    let job = old_job.started(time, model.iterates());
    let jobs = state.jobs.update(id as int, job);
    assert(old_job.is_consistent());
    assert(old_job.is_placed_within(cluster.servers as int));
    lemma_job_replaced(state, id as int, job, id as int);
    if model is CorunProfile {
        let timed = job.with_times(cluster.corun_times(jobs, id as int));
        lemma_job_replaced(System { jobs, ..state }, id as int, timed, id as int);
        assert(state.trained(id, time) == System { jobs: jobs.update(id as int, timed), ..state });
    }
}

impl<N: Scalar> GPUCluster<N> {
    /// Starts the training of a job, which is through with loading.
    pub fn allocate_network(
        &mut self,
        job_idx: i32,
        current_time: N,
        jobs: &mut Vec<GpuJob<N>>,
        timer: &mut Timer<N>,
    )
        requires
            !old(self).interference_model.iterates() ==> (System {
                cluster: old(self)@,
                jobs: arena(old(jobs)@),
                timer: old(timer)@,
            }).is_sound_but(job_idx as int),
            0 <= job_idx < old(jobs)@.len(),
            old(timer).wf(),
            !old(timer)@.events.contains_key(job_idx),
        ensures
            final(timer).wf(),
            (System {
                cluster: old(self)@,
                jobs: arena(old(jobs)@),
                timer: old(timer)@,
            }).starts_to(
                System {
                    cluster: final(self)@,
                    jobs: arena(final(jobs)@),
                    timer: final(timer)@,
                },
                job_idx,
                current_time,
            ),
    {
        let ghost before = System { cluster: self@, jobs: arena(jobs@), timer: timer@ };
        let ghost old_jobs = jobs@;
        let ghost id = job_idx as int;
        let iterates: bool = self.interference_model.is_iter_model();
        proof {
            assert(arena(jobs@)[id] == jobs@[id]@);
            if !iterates {
                assert(before.jobs[id].is_placed_within(self.servers as int));
                lemma_trained_sound(before, job_idx, current_time);
            }
        }
        jobs[job_idx as usize].start(current_time, iterates);
        assert(arena(jobs@) =~= before.jobs.update(id, jobs@[id]@));
        if iterates {
            let comp_time: N = jobs[job_idx as usize].iteration_computing_time;
            timer.add_event(current_time.plus(comp_time), EventType::IterCompEnd, job_idx);
        } else {
            // The job trains from now on, so the times are looked up with it.
            if self.interference_model.is_corun_profile() {
                assert(before.cluster.corun_profile.solo_times(before.jobs[id]) is Some);
                let _changed: bool = self.refresh_corun_iter_times(job_idx, jobs);
            }
            let ghost trained = before.trained(job_idx, current_time);
            assert(arena(jobs@) =~= trained.jobs);
            proof {
                lemma_shared_out_sound(trained, id);
            }
            self.allocate_bandwidth(jobs);
            assert(arena(jobs@)[id] == jobs@[id]@);
            let job = &jobs[job_idx as usize];
            let initial: N = self.effective_iteration_time(job, job.iteration_networking_time);
            let end: N = current_time.plus(job.iteration_number.times(initial));
            proof {
                lemma_event_completes(trained.shared_out(), job_idx, end, EventType::Complete);
            }
            timer.add_event(end, EventType::Complete, job_idx);
            let ghost entered = before.entered(job_idx, current_time);
            assert(System { cluster: self@, jobs: arena(jobs@), timer: timer@ } == entered);
            self.update_completion_times(current_time, jobs, timer);
        }
    }
}

impl<N: Scalar> GPUCluster<N> {
    /// The free GPUs and CPU cores of a server when a job is released.
    fn free_after(&self, job: &GpuJob<N>, job_idx: i32, server: usize) -> (result: (i128, i128))
        requires
            self@.is_sized(),
            server < self.servers,
        ensures
            result.0 == self@.gpus_after(job@, job_idx, server as int),
            result.1 == self@.cpus_after(job@, job_idx, server as int),
    {
        let mut gpus: i128 = self.gpus[server] as i128;
        let mut cpus: i128 = self.cpu_cores[server] as i128;
        assert(self@.active_jobs[server as int] == self.active_jobs@[server as int]@);
        if is_in(&self.active_jobs[server], job_idx) {
            let workers: usize = count_in(&job.allocated, server as i32);
            let ps: usize = count_in(&job.ps_allocated, server as i32);
            gpus += times_count(workers, job.gpu_per_worker);
            cpus += times_count(workers, job.cpu_per_gpu_worker) + times_count(ps, job.cpu_per_ps);
        }
        if gpus >= self.gpus_per_server as i128 {
            gpus = self.gpus_per_server as i128;
        }
        if cpus >= self.cpu_cores_per_server as i128 {
            cpus = self.cpu_cores_per_server as i128;
        }
        (gpus, cpus)
    }

    /// Whether the free resources can still be counted when a job is released.
    pub fn counts_when_freed(&self, job: &GpuJob<N>, job_idx: i32) -> (result: bool)
        requires
            self@.is_sized(),
        ensures
            result == self@.can_free(job@, job_idx),
    {
        let n: usize = self.servers as usize;
        let mut s: usize = 0;
        while s < n
            invariant
                s <= n,
                n == self.servers,
                self@.is_sized(),
                forall|server: int|
                    0 <= server < s && #[trigger] job@.uses(server) ==> fits(
                        self@.gpus_after(job@, job_idx, server),
                    ) && fits(self@.cpus_after(job@, job_idx, server)),
            decreases n - s,
        {
            if is_in(&job.allocated, s as i32) || is_in(&job.ps_allocated, s as i32) {
                assert(job@.uses(s as int));
                let (gpus, cpus) = self.free_after(job, job_idx, s);
                if gpus < i32::MIN as i128 || gpus > i32::MAX as i128 || cpus < i32::MIN as i128
                    || cpus > i32::MAX as i128 {
                    return false;
                }
            }
            s += 1;
        }
        true
    }

    /// Returns what a job took.
    fn free(&mut self, job: &GpuJob<N>, job_idx: i32)
        requires
            old(self)@.is_sized(),
            old(self)@.can_free(job@, job_idx),
        ensures
            final(self)@ == old(self)@.freed(job@, job_idx),
    {
        let ghost model = self@;
        let ghost wanted = model.freed(job@, job_idx);
        let n: usize = self.servers as usize;
        let mut s: usize = 0;
        while s < n
            invariant
                s <= n,
                n == model.servers,
                model.is_sized(),
                model.can_free(job@, job_idx),
                wanted == model.freed(job@, job_idx),
                self@ == (ClusterModel {
                    gpus: self@.gpus,
                    cpu_cores: self@.cpu_cores,
                    active_jobs: self@.active_jobs,
                    ..model
                }),
                self@.is_sized(),
                forall|i: int|
                    0 <= i < n ==> #[trigger] self@.gpus[i] == if i < s {
                        wanted.gpus[i]
                    } else {
                        model.gpus[i]
                    },
                forall|i: int|
                    0 <= i < n ==> #[trigger] self@.cpu_cores[i] == if i < s {
                        wanted.cpu_cores[i]
                    } else {
                        model.cpu_cores[i]
                    },
                forall|i: int|
                    0 <= i < n ==> #[trigger] self@.active_jobs[i] == if i < s {
                        wanted.active_jobs[i]
                    } else {
                        model.active_jobs[i]
                    },
            decreases n - s,
        {
            proof {
                assert(self@.gpus[s as int] == model.gpus[s as int]);
                assert(self@.cpu_cores[s as int] == model.cpu_cores[s as int]);
                assert(self@.active_jobs[s as int] == model.active_jobs[s as int]);
                assert(self@.active_jobs[s as int] == self.active_jobs@[s as int]@);
            }
            let ghost lists = self.active_jobs@;
            if is_in(&job.allocated, s as i32) || is_in(&job.ps_allocated, s as i32) {
                assert(job@.uses(s as int));
                let (gpus, cpus) = self.free_after(job, job_idx, s);
                self.gpus.set(s, gpus as i32);
                self.cpu_cores.set(s, cpus as i32);
                let _found: bool = remove_first(&mut self.active_jobs[s], job_idx);
            } else {
                assert(!job@.uses(s as int));
            }
            assert(self@.active_jobs =~= lists_view(lists).update(
                s as int,
                wanted.active_jobs[s as int],
            ));
            s += 1;
        }
        self.bump_placement_epoch();
        proof {
            assert(self@.gpus =~= wanted.gpus);
            assert(self@.cpu_cores =~= wanted.cpu_cores);
            assert(self@.active_jobs =~= wanted.active_jobs);
        }
    }

    /// Releases a job: returns what it took and renews all completion times.
    pub fn release_resources(
        &mut self,
        job_idx: i32,
        release_time: N,
        jobs: &mut Vec<GpuJob<N>>,
        timer: &mut Timer<N>,
    )
        requires
            old(self)@.is_sized(),
            old(self)@.knows_jobs(old(jobs)@.len()),
            0 <= job_idx < old(jobs)@.len(),
            old(self)@.can_free(old(jobs)@[job_idx as int]@, job_idx),
            (System {
                cluster: old(self)@,
                jobs: arena(old(jobs)@),
                timer: old(timer)@,
            }).freed(job_idx).is_sound(),
            old(timer).wf(),
        ensures
            final(timer).wf(),
            (System {
                cluster: old(self)@,
                jobs: arena(old(jobs)@),
                timer: old(timer)@,
            }).releases_to(
                System {
                    cluster: final(self)@,
                    jobs: arena(final(jobs)@),
                    timer: final(timer)@,
                },
                job_idx,
                release_time,
            ),
    {
        let ghost before = System { cluster: self@, jobs: arena(jobs@), timer: timer@ };
        let ghost id = job_idx as int;
        assert(arena(jobs@)[id] == jobs@[id]@);
        self.free(&jobs[job_idx as usize], job_idx);
        jobs[job_idx as usize].clear_bandwidths();
        assert(arena(jobs@) =~= before.jobs.update(id, jobs@[id]@));
        proof {
            lemma_freed_knows(before.cluster, before.jobs[id], job_idx, before.jobs.len());
        }
        self.allocate_bandwidth(jobs);
        let ghost freed = before.freed(job_idx);
        assert(System { cluster: self@, jobs: arena(jobs@), timer: timer@ } == freed);
        self.update_completion_times(release_time, jobs, timer);
        let ghost renewed = System { cluster: self@, jobs: arena(jobs@), timer: timer@ };
        proof {
            renewal_keeps_places(freed, renewed, release_time);
        }
        self.log_gpu_util_snapshot(release_time);
    }
}

/// A list without a value's first occurrence holds only what the list holds.
pub(crate) proof fn lemma_without_first_subset(list: Seq<i32>, value: i32)
    ensures
        forall|k: int|
            0 <= k < without_first(list, value).len() ==> list.contains(
                #[trigger] without_first(list, value)[k],
            ),
        list.no_duplicates() ==> !without_first(list, value).contains(value)
            && without_first(list, value).no_duplicates(),
        forall|x: i32| x != value && list.contains(x) ==> without_first(list, value).contains(x),
{
    let after = without_first(list, value);
    if list.contains(value) {
        let i = first_place(list, value);
        lemma_without_first(list, value, i);
        assert forall|k: int| 0 <= k < after.len() implies list.contains(#[trigger] after[k]) by {
            assert(after[k] == if k < i {
                list[k]
            } else {
                list[k + 1]
            });
        }
        if list.no_duplicates() {
            if after.contains(value) {
                let k = choose|k: int| 0 <= k < after.len() && after[k] == value;
                assert(list[if k < i {
                    k
                } else {
                    k + 1
                }] == list[i]);
            }
            assert forall|a: int, b: int|
                0 <= a < after.len() && 0 <= b < after.len() && a != b implies after[a]
                != after[b] by {
                let x = if a < i {
                    a
                } else {
                    a + 1
                };
                let y = if b < i {
                    b
                } else {
                    b + 1
                };
                assert(after[a] == list[x] && after[b] == list[y]);
                assert(x != y);
            }
        }
        assert forall|x: i32| x != value && list.contains(x) implies after.contains(x) by {
            let k = choose|k: int| 0 <= k < list.len() && list[k] == x;
            if k < i {
                assert(after[k] == x);
            } else {
                assert(after[k - 1] == x);
            }
        }
    } else {
        lemma_without_absent(list, value);
        assert forall|k: int| 0 <= k < after.len() implies list.contains(#[trigger] after[k]) by {
            assert(list[k] == after[k]);
        }
    }
}

/// The first place of a value that is in a list.
pub(crate) proof fn first_place(list: Seq<i32>, value: i32) -> (i: int)
    requires
        list.contains(value),
    ensures
        0 <= i < list.len(),
        list[i] == value,
        forall|j: int| 0 <= j < i ==> list[j] != value,
    decreases list.len(),
{
    let rest = list.drop_last();
    if rest.contains(value) {
        let i = first_place(rest, value);
        assert forall|j: int| 0 <= j < i implies list[j] != value by {
            assert(rest[j] != value);
        }
        i
    } else {
        let i = choose|i: int| 0 <= i < list.len() && list[i] == value;
        assert forall|j: int| 0 <= j < list.len() - 1 implies list[j] != value by {
            assert(rest[j] == list[j]);
        }
        i
    }
}

/// A cluster knows its jobs after one of them is released.
pub(crate) proof fn lemma_freed_knows<N: Scalar>(
    cluster: ClusterModel<N>,
    job: JobModel<N>,
    id: i32,
    jobs: nat,
)
    requires
        cluster.is_sized(),
        cluster.knows_jobs(jobs),
    ensures
        cluster.freed(job, id).is_sized(),
        cluster.freed(job, id).knows_jobs(jobs),
{
    let after = cluster.freed(job, id);
    assert forall|server: int, k: int|
        0 <= server < after.active_jobs.len() && 0 <= k < after.active_jobs[server].len() implies 0
        <= #[trigger] after.active_jobs[server][k] < jobs by {
        let list = cluster.active_jobs[server];
        let value = after.active_jobs[server][k];
        lemma_without_first_subset(list, id);
        assert(list.contains(value)) by {
            if !job.uses(server) {
                assert(list[k] == value);
            }
        }
        let m = choose|m: int| 0 <= m < list.len() && list[m] == value;
        assert(0 <= cluster.active_jobs[server][m] < jobs);
    }
}

/// A job has its first GPUs on the server of its first worker, then those on the server of its next
/// one, and so on; on each they are counted from zero.
pub proof fn gpus_are_listed_worker_by_worker(
    allocated: Seq<i32>,
    gpu_per_worker: i32,
    worker: int,
    gpu: int,
)
    requires
        0 <= worker < allocated.len(),
        0 <= gpu < gpu_per_worker,
    ensures
        gpu_list(allocated, gpu_per_worker).len() == allocated.len() * gpu_per_worker,
        0 <= worker * gpu_per_worker + gpu < allocated.len() * gpu_per_worker,
        gpu_list(allocated, gpu_per_worker)[worker * gpu_per_worker + gpu] == (
            allocated[worker],
            gpu as i32,
        ),
    decreases allocated.len(),
{
    let count = allocated.len();
    let rest = allocated.drop_last();
    let m = gpu_per_worker as int;
    assert(count * m == (count - 1) * m + m) by (nonlinear_arith);
    assert(0 <= worker * m <= (count - 1) * m) by (nonlinear_arith)
        requires
            0 <= worker <= count - 1,
            m > 0,
    ;
    if rest.len() == 0 {
        assert(gpu_list(rest, gpu_per_worker) =~= Seq::empty());
        assert(0 * m == 0) by (nonlinear_arith);
    } else {
        let earlier = if worker < rest.len() {
            worker
        } else {
            0
        };
        gpus_are_listed_worker_by_worker(rest, gpu_per_worker, earlier, gpu);
        assert(rest.len() == count - 1);
        if worker < rest.len() {
            assert(rest[worker] == allocated[worker]);
        }
    }
}

/// Placing and releasing a job each begin a new epoch, for which nothing is known of cycles; what is
/// asked of the cluster as a whole stays.
pub proof fn changed_places_begin_an_epoch<N: Scalar>(
    cluster: ClusterModel<N>,
    job: JobModel<N>,
    id: i32,
    allocated: Seq<i32>,
    ps_allocated: Seq<i32>,
    after: ClusterModel<N>,
)
    requires
        cluster.placement_epoch < u64::MAX,
        after == cluster.taken(job, id, allocated, ps_allocated) || after == cluster.freed(job, id),
    ensures
        after.placement_epoch == cluster.placement_epoch + 1,
        after.cycle_observation_cache.dom().is_empty(),
        after.cycle_profiles.dom().is_empty(),
        after.cycle_stats == cluster.cycle_stats,
        after.servers == cluster.servers,
        after.gpus_per_server == cluster.gpus_per_server,
        after.cpu_cores_per_server == cluster.cpu_cores_per_server,
        after.bandwidths == cluster.bandwidths,
        after.intra_bandwidths == cluster.intra_bandwidths,
        after.interference_model == cluster.interference_model,
        after.corun_profile == cluster.corun_profile,
        after.allocations == cluster.allocations,
{
    assert(after.cycle_observation_cache.dom() =~= Set::empty());
    assert(after.cycle_profiles.dom() =~= Set::empty());
}

} // verus!
