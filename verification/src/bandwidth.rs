//! The sharing of the servers' network bandwidth among the jobs.

use vstd::prelude::*;

use crate::gpu_cluster::{arena, ClusterModel, GPUCluster};
use crate::gpu_job::{GpuJob, JobModel};
use crate::rounding::{
    lemma_compared, lemma_difference_near, lemma_integer_value, lemma_product_near,
    lemma_quotient_near, lemma_sum_near, lemma_sum_order, lemma_sum_scaled, lemma_sum_shifted,
    near, real_sum, rounds, stands_for,
};
use crate::scalar::{is_no_more, less, no_more, one, zero, Scalar};

verus! {

broadcast use vstd::std_specs::hash::group_hash_axioms;

/// The amounts of some jobs added up, in their order.
pub open spec fn added<N: Scalar>(ids: Seq<i32>, amount: spec_fn(i32) -> N) -> N
    decreases ids.len(),
{
    if ids.len() == 0 {
        zero()
    } else {
        added(ids.drop_last(), amount).sum(amount(ids.last()))
    }
}

/// A sum depends only on the amounts.
pub(crate) proof fn lemma_added<N: Scalar>(
    ids: Seq<i32>,
    a: spec_fn(i32) -> N,
    b: spec_fn(i32) -> N,
)
    requires
        forall|i: int| 0 <= i < ids.len() ==> a(#[trigger] ids[i]) == b(ids[i]),
    ensures
        added(ids, a) == added(ids, b),
    decreases ids.len(),
{
    if ids.len() > 0 {
        let rest = ids.drop_last();
        assert forall|i: int| 0 <= i < rest.len() implies a(#[trigger] rest[i]) == b(rest[i]) by {
            assert(rest[i] == ids[i]);
        }
        lemma_added(rest, a, b);
        assert(ids[ids.len() - 1] == ids.last());
    }
}

impl<N: Scalar> ClusterModel<N> {
    /// Whether every active job is one of the given number of jobs.
    pub open spec fn knows_jobs(self, jobs: nat) -> bool {
        forall|server: int, k: int|
            0 <= server < self.active_jobs.len() && 0 <= k < self.active_jobs[server].len() ==> 0
                <= #[trigger] self.active_jobs[server][k] < jobs
    }

    /// The bandwidth that a job asks of a server at present. A job that is not
    /// training asks for none. Where iterations are split, a job that computes
    /// asks for none either, or for the part that its communication has in an
    /// iteration.
    pub open spec fn demand_now(self, job: JobModel<N>, server: i32) -> N {
        if job.training_time is None {
            zero()
        } else if self.interference_model.iterates() && !job.is_in_comm_phase {
            if self.phase_overlap_weighted {
                let iteration = job.iteration_computing_time.sum(job.iteration_networking_time);
                let part = if less(zero(), iteration) {
                    job.iteration_networking_time.quotient(iteration)
                } else {
                    zero()
                };
                self.capped_demand(job, server).product(part)
            } else {
                zero()
            }
        } else {
            self.capped_demand(job, server)
        }
    }

    /// The bandwidth that all jobs on a server ask of it at present.
    pub open spec fn total_demand(self, jobs: Seq<JobModel<N>>, server: int) -> N {
        added(
            self.active_jobs[server],
            |job: i32| self.demand_now(jobs[job as int], server as i32),
        )
    }

    /// The bandwidth that a server can give out: all of it, or the part that
    /// head-of-line blocking leaves.
    pub open spec fn network_capacity(self) -> N {
        match self.hol_efficiency {
            Some(efficiency) if efficiency.finite() && no_more(zero(), efficiency) && no_more(
                efficiency,
                one(),
            ) => self.bandwidth_per_server.product(efficiency),
            _ => self.bandwidth_per_server,
        }
    }

    /// Whether the jobs on a server ask for any bandwidth.
    pub open spec fn served(self, jobs: Seq<JobModel<N>>, server: int) -> bool {
        !no_more(self.total_demand(jobs, server), zero())
    }

    /// The bandwidth that a job gets of a server: what it asks for, or its share of
    /// the capacity where the jobs together ask for more than that.
    pub open spec fn share(self, jobs: Seq<JobModel<N>>, server: int, job: int) -> N {
        let asked = self.demand_now(jobs[job], server as i32);
        let all = self.total_demand(jobs, server);
        if less(self.network_capacity(), all) {
            asked.product(self.network_capacity().quotient(all))
        } else {
            asked
        }
    }

    /// The bandwidths that a job uses once the first servers have been shared out. Where
    /// the jobs on a server ask for none, what a job used of it stays as it was.
    pub open spec fn shared_out(self, jobs: Seq<JobModel<N>>, job: int, servers: int) -> Map<
        i32,
        N,
    > {
        let before = jobs[job].using_bandwidths;
        Map::new(
            |server: i32|
                before.contains_key(server) || 0 <= server < servers && self.runs(
                    server as int,
                    job,
                ),
            |server: i32|
                if 0 <= server < servers && self.runs(server as int, job) && self.served(
                    jobs,
                    server as int,
                ) {
                    self.share(jobs, server as int, job)
                } else if before.contains_key(server) {
                    before[server]
                } else {
                    zero()
                },
        )
    }

    /// The bandwidth that is left on a server.
    pub open spec fn left_on(self, jobs: Seq<JobModel<N>>, server: int) -> N {
        self.bandwidth_per_server.difference(
            if self.served(jobs, server) {
                added(
                    self.active_jobs[server],
                    |job: i32| self.share(jobs, server, job as int),
                )
            } else {
                zero()
            },
        )
    }

    /// The cluster with its bandwidth shared out.
    pub open spec fn with_bandwidth(self, jobs: Seq<JobModel<N>>) -> ClusterModel<N> {
        ClusterModel {
            bandwidths: Seq::new(self.servers as nat, |server: int| self.left_on(jobs, server)),
            ..self
        }
    }

    /// The jobs with the bandwidth shared out.
    pub open spec fn jobs_with_bandwidth(self, jobs: Seq<JobModel<N>>) -> Seq<JobModel<N>> {
        Seq::new(
            jobs.len(),
            |job: int|
                JobModel {
                    using_bandwidths: self.shared_out(jobs, job, self.servers as int),
                    ..jobs[job]
                },
        )
    }
}

impl<N: Scalar> GpuJob<N> {
    /// Notes the bandwidth that the job uses on a server, or that it uses the
    /// server at all.
    fn use_bandwidth(&mut self, server: i32, used: Option<N>)
        ensures
            final(self)@ == (JobModel {
                using_bandwidths: match used {
                    Some(used) => old(self)@.using_bandwidths.insert(server, used),
                    None => if old(self)@.using_bandwidths.contains_key(server) {
                        old(self)@.using_bandwidths
                    } else {
                        old(self)@.using_bandwidths.insert(server, zero())
                    },
                },
                ..old(self)@
            }),
    {
        match used {
            Some(used) => {
                self.using_bandwidths.insert(server, used);
            },
            None => {
                if !self.using_bandwidths.contains_key(&server) {
                    self.using_bandwidths.insert(server, N::of_int(0));
                }
            },
        }
    }
}

impl<N: Scalar> GPUCluster<N> {
    /// The bandwidth that a job asks of a server at present.
    fn current_demand(&self, job: &GpuJob<N>, server: i32) -> (result: N)
        ensures
            result == self@.demand_now(job@, server),
    {
        if job.training_time.is_none() {
            return N::of_int(0);
        }
        if self.interference_model.is_iter_model() && !job.is_in_comm_phase {
            if !self.phase_overlap_weighted {
                return N::of_int(0);
            }
            // With staggered iteration boundaries the job spends this part of
            // its time in the communication phase.
            let t_comm: N = job.iteration_networking_time;
            let t_iter: N = job.iteration_computing_time.plus(t_comm);
            let part: N = if N::of_int(0).is_less(t_iter) {
                t_comm.over(t_iter)
            } else {
                N::of_int(0)
            };
            return self.required_bandwidth_capped(job, server).times(part);
        }
        self.required_bandwidth_capped(job, server)
    }

    /// The bandwidth that a server can give out.
    fn effective_capacity(&self) -> (result: N)
        ensures
            result == self@.network_capacity(),
    {
        match self.hol_efficiency {
            Some(efficiency) => {
                if efficiency.is_finite() && is_no_more(N::of_int(0), efficiency) && is_no_more(
                    efficiency,
                    N::of_int(1),
                ) {
                    self.bandwidth_per_server.times(efficiency)
                } else {
                    self.bandwidth_per_server
                }
            },
            None => self.bandwidth_per_server,
        }
    }

    /// The bandwidth that all jobs on a server ask of it at present.
    fn total_required(&self, server: usize, jobs: &Vec<GpuJob<N>>) -> (result: N)
        requires
            self@.is_sized(),
            self@.knows_jobs(jobs@.len()),
            server < self@.servers,
        ensures
            result == self@.total_demand(arena(jobs@), server as int),
    {
        let ghost model = self@;
        let ghost ids = model.active_jobs[server as int];
        let ghost amount = |job: i32| model.demand_now(arena(jobs@)[job as int], server as i32);
        let mut result: N = N::of_int(0);
        let mut k: usize = 0;
        assert(ids.take(0) =~= Seq::<i32>::empty());
        while k < self.active_jobs[server].len()
            invariant
                k <= ids.len(),
                server < self.active_jobs@.len(),
                server <= i32::MAX,
                ids == self.active_jobs@[server as int]@,
                model == self@,
                model.knows_jobs(jobs@.len()),
                ids == model.active_jobs[server as int],
                amount == (|job: i32|
                    model.demand_now(arena(jobs@)[job as int], server as i32)),
                result == added(ids.take(k as int), amount),
            decreases ids.len() - k,
        {
            let job_id: i32 = self.active_jobs[server][k];
            proof {
                assert(model.active_jobs[server as int][k as int] == job_id);
                assert(ids.take(k + 1).drop_last() =~= ids.take(k as int));
            }
            result = result.plus(self.current_demand(&jobs[job_id as usize], server as i32));
            k += 1;
        }
        assert(ids.take(k as int) =~= ids);
        result
    }

    /// Shares the bandwidth of every server out among the jobs that are active on it.
    pub fn allocate_bandwidth(&mut self, jobs: &mut Vec<GpuJob<N>>)
        requires
            old(self)@.is_sized(),
            old(self)@.knows_jobs(old(jobs)@.len()),
        ensures
            final(self)@ == old(self)@.with_bandwidth(arena(old(jobs)@)),
            arena(final(jobs)@) == old(self)@.jobs_with_bandwidth(arena(old(jobs)@)),
    {
        let ghost model = self@;
        let ghost before = arena(jobs@);
        let n: usize = self.servers as usize;
        let capacity: N = self.effective_capacity();
        let mut s: usize = 0;
        proof {
            assert forall|i: int| 0 <= i < before.len() implies (#[trigger] jobs@[i])@ == (
            JobModel { using_bandwidths: model.shared_out(before, i, 0), ..before[i] }) by {
                assert(jobs@[i]@ == before[i]);
                assert(model.shared_out(before, i, 0) =~= before[i].using_bandwidths);
            }
        }
        while s < n
            invariant
                s <= n,
                n == model.servers,
                model.is_sized(),
                model.knows_jobs(before.len()),
                capacity == model.network_capacity(),
                jobs@.len() == before.len(),
                self@ == (ClusterModel { bandwidths: self@.bandwidths, ..model }),
                self@.bandwidths.len() == n,
                forall|i: int|
                    0 <= i < s ==> #[trigger] self@.bandwidths[i] == model.left_on(before, i),
                forall|i: int|
                    0 <= i < before.len() ==> (#[trigger] jobs@[i])@ == (JobModel {
                        using_bandwidths: model.shared_out(before, i, s as int),
                        ..before[i]
                    }),
            decreases n - s,
        {
            let server: i32 = s as i32;
            let total_required: N = self.total_required(s, jobs);
            proof {
                let now = arena(jobs@);
                let ids = model.active_jobs[s as int];
                assert(self@.active_jobs == model.active_jobs);
                assert forall|i: int| 0 <= i < ids.len() implies (|job: i32|
                    self@.demand_now(now[job as int], s as i32))(#[trigger] ids[i]) == (|job: i32|
                    model.demand_now(before[job as int], s as i32))(ids[i]) by {
                    assert(now[ids[i] as int] == jobs@[ids[i] as int]@);
                }
                lemma_added(
                    ids,
                    |job: i32| self@.demand_now(now[job as int], s as i32),
                    |job: i32| model.demand_now(before[job as int], s as i32),
                );
                assert(total_required == model.total_demand(before, s as int));
            }
            let served: bool = !is_no_more(total_required, N::of_int(0));
            let crowded: bool = capacity.is_less(total_required);
            let ratio: N = capacity.over(total_required);
            let mut total_used: N = N::of_int(0);
            let mut k: usize = 0;
            let ghost ids = model.active_jobs[s as int];
            let ghost amount = |job: i32| model.share(before, s as int, job as int);
            proof {
                assert(ids.take(0) =~= Seq::<i32>::empty());
            }
            while k < self.active_jobs[s].len()
                invariant
                    k <= ids.len(),
                    s < n,
                    n == model.servers,
                    server == s,
                    model.is_sized(),
                    model.knows_jobs(before.len()),
                    ids == model.active_jobs[s as int],
                    amount == (|job: i32| model.share(before, s as int, job as int)),
                    capacity == model.network_capacity(),
                    total_required == model.total_demand(before, s as int),
                    served == model.served(before, s as int),
                    crowded == less(capacity, total_required),
                    ratio == capacity.quotient(total_required),
                    jobs@.len() == before.len(),
                    self@ == (ClusterModel { bandwidths: self@.bandwidths, ..model }),
                    self.active_jobs@.len() == n,
                    self.active_jobs@[s as int]@ == ids,
                    self@.bandwidths.len() == n,
                    forall|i: int|
                        0 <= i < s ==> #[trigger] self@.bandwidths[i] == model.left_on(before, i),
                    forall|i: int|
                        0 <= i < before.len() ==> (#[trigger] jobs@[i])@ == (JobModel {
                            using_bandwidths: if ids.take(k as int).contains(i as i32) && i
                                <= i32::MAX {
                                model.shared_out(before, i, s + 1)
                            } else {
                                model.shared_out(before, i, s as int)
                            },
                            ..before[i]
                        }),
                    served ==> total_used == added(ids.take(k as int), amount),
                    !served ==> total_used == zero::<N>(),
                decreases ids.len() - k,
            {
                let job_id: i32 = self.active_jobs[s][k];
                let ghost old_jobs = jobs@;
                proof {
                    assert(model.active_jobs[s as int][k as int] == job_id);
                    assert(ids.take(k + 1).drop_last() =~= ids.take(k as int));
                    assert(ids.take(k + 1).last() == job_id);
                }
                let used: Option<N> = if served {
                    let asked: N = self.current_demand(&jobs[job_id as usize], server);
                    assert(asked == model.demand_now(before[job_id as int], server));
                    let share: N = if crowded {
                        asked.times(ratio)
                    } else {
                        asked
                    };
                    total_used = total_used.plus(share);
                    Some(share)
                } else {
                    None
                };
                jobs[job_id as usize].use_bandwidth(server, used);
                proof {
                    lemma_shared_step(model, before, job_id as int, s as int, used);
                    assert forall|i: int| 0 <= i < before.len() implies (#[trigger] jobs@[i])@ == (
                    JobModel {
                        using_bandwidths: if ids.take(k + 1).contains(i as i32) && i <= i32::MAX {
                            model.shared_out(before, i, s + 1)
                        } else {
                            model.shared_out(before, i, s as int)
                        },
                        ..before[i]
                    }) by {
                        let now = ids.take(k + 1);
                        let then = ids.take(k as int);
                        if i == job_id {
                            assert(now[k as int] == job_id);
                            assert(old_jobs[i]@.using_bandwidths == model.shared_out(
                                before,
                                i,
                                s as int,
                            ) || old_jobs[i]@.using_bandwidths == model.shared_out(
                                before,
                                i,
                                s + 1,
                            ));
                        } else {
                            assert(jobs@[i] == old_jobs[i]);
                            if i <= i32::MAX {
                                if now.contains(i as i32) {
                                    let m = choose|m: int|
                                        0 <= m < now.len() && now[m] == i as i32;
                                    assert(m != k);
                                    assert(then[m] == i as i32);
                                }
                                if then.contains(i as i32) {
                                    let m = choose|m: int|
                                        0 <= m < then.len() && then[m] == i as i32;
                                    assert(now[m] == i as i32);
                                }
                            }
                        }
                    }
                }
                k += 1;
            }
            let left: N = self.bandwidth_per_server.minus(total_used);
            proof {
                assert(ids.take(k as int) =~= ids);
                assert forall|i: int| 0 <= i < before.len() implies (#[trigger] jobs@[i])@ == (
                JobModel {
                    using_bandwidths: model.shared_out(before, i, s + 1),
                    ..before[i]
                }) by {
                    if !(ids.contains(i as i32) && i <= i32::MAX) {
                        assert(!model.runs(s as int, i));
                        assert(model.shared_out(before, i, s + 1) =~= model.shared_out(
                            before,
                            i,
                            s as int,
                        ));
                    }
                }
            }
            self.bandwidths.set(s, left);
            s += 1;
        }
        proof {
            assert(arena(jobs@) =~= model.jobs_with_bandwidth(before));
            assert(self@.bandwidths =~= model.with_bandwidth(before).bandwidths);
        }
    }
}

/// Sharing out one server more changes what a job that is active on it uses of it.
proof fn lemma_shared_step<N: Scalar>(
    model: ClusterModel<N>,
    jobs: Seq<JobModel<N>>,
    job: int,
    server: int,
    used: Option<N>,
)
    requires
        0 <= server <= i32::MAX,
        model.runs(server, job),
        used == if model.served(jobs, server) {
            Some(model.share(jobs, server, job))
        } else {
            None
        },
    ensures
        ({
            let start = model.shared_out(jobs, job, server);
            let end = model.shared_out(jobs, job, server + 1);
            match used {
                Some(used) => {
                    &&& start.insert(server as i32, used) == end
                    &&& end.insert(server as i32, used) == end
                },
                None => {
                    &&& end.contains_key(server as i32)
                    &&& !start.contains_key(server as i32) ==> start.insert(server as i32, zero())
                        == end
                    &&& start.contains_key(server as i32) ==> start == end
                },
            }
        }),
{
    let start = model.shared_out(jobs, job, server);
    let end = model.shared_out(jobs, job, server + 1);
    match used {
        Some(used) => {
            assert(start.insert(server as i32, used) =~= end);
            assert(end.insert(server as i32, used) =~= end);
        },
        None => {
            if start.contains_key(server as i32) {
                assert(start =~= end);
            } else {
                assert(start.insert(server as i32, zero()) =~= end);
            }
        },
    }
}

/// Sharing the bandwidth out again changes nothing.
pub proof fn sharing_again_changes_nothing<N: Scalar>(
    cluster: ClusterModel<N>,
    jobs: Seq<JobModel<N>>,
)
    requires
        cluster.is_sized(),
        cluster.knows_jobs(jobs.len()),
    ensures
        ({
            let shared = cluster.with_bandwidth(jobs);
            let served = cluster.jobs_with_bandwidth(jobs);
            &&& shared.with_bandwidth(served) == shared
            &&& shared.jobs_with_bandwidth(served) == served
        }),
{
    let shared = cluster.with_bandwidth(jobs);
    let served = cluster.jobs_with_bandwidth(jobs);
    assert forall|server: int| 0 <= server < cluster.servers implies {
        &&& #[trigger] cluster.total_demand(jobs, server) == shared.total_demand(served, server)
        &&& cluster.left_on(jobs, server) == shared.left_on(served, server)
    } by {
        let ids = cluster.active_jobs[server];
        assert forall|k: int| 0 <= k < ids.len() implies (|job: i32|
            cluster.demand_now(jobs[job as int], server as i32))(#[trigger] ids[k]) == (|job: i32|
            shared.demand_now(served[job as int], server as i32))(ids[k]) by {
            assert(0 <= cluster.active_jobs[server][k] < jobs.len());
        }
        lemma_added(
            ids,
            |job: i32| cluster.demand_now(jobs[job as int], server as i32),
            |job: i32| shared.demand_now(served[job as int], server as i32),
        );
        assert forall|k: int| 0 <= k < ids.len() implies (|job: i32|
            cluster.share(jobs, server, job as int))(#[trigger] ids[k]) == (|job: i32|
            shared.share(served, server, job as int))(ids[k]) by {
            assert(0 <= cluster.active_jobs[server][k] < jobs.len());
        }
        lemma_added(
            ids,
            |job: i32| cluster.share(jobs, server, job as int),
            |job: i32| shared.share(served, server, job as int),
        );
    }
    assert(shared.with_bandwidth(served).bandwidths =~= shared.bandwidths);
    assert forall|job: int| 0 <= job < jobs.len() implies shared.shared_out(
        served,
        job,
        cluster.servers as int,
    ) == cluster.shared_out(jobs, job, cluster.servers as int) by {
        let once = cluster.shared_out(jobs, job, cluster.servers as int);
        let twice = shared.shared_out(served, job, cluster.servers as int);
        assert forall|server: i32| 0 <= server < cluster.servers implies #[trigger] cluster.served(
            jobs,
            server as int,
        ) == shared.served(served, server as int) && cluster.share(jobs, server as int, job)
            == shared.share(served, server as int, job) by {
            assert(cluster.total_demand(jobs, server as int) == shared.total_demand(
                served,
                server as int,
            ));
        }
        assert forall|server: int| cluster.runs(server, job) == shared.runs(server, job) by {}
        assert(twice.dom() =~= once.dom());
        assert(twice =~= once);
    }
    assert(shared.jobs_with_bandwidth(served) =~= served);
}

/// A sum of amounts that are not negative is near the exact one, with numbers that round.
proof fn lemma_added_near<N: Scalar>(
    ids: Seq<i32>,
    amount: spec_fn(i32) -> N,
    value: spec_fn(N) -> real,
    bound: real,
    error: real,
)
    requires
        rounds(value, bound, error),
        forall|i: int|
            0 <= i < ids.len() ==> amount(#[trigger] ids[i]).finite() && value(amount(ids[i]))
                >= 0real,
        real_sum(ids, |i: i32| value(amount(i))) + error * (ids.len() as real) <= bound,
    ensures
        added(ids, amount).finite(),
        near(
            value(added(ids, amount)),
            real_sum(ids, |i: i32| value(amount(i))),
            error * (ids.len() as real),
        ),
        real_sum(ids, |i: i32| value(amount(i))) >= 0real,
    decreases ids.len(),
{
    let n = ids.len() as real;
    if ids.len() == 0 {
        assert(N::integer(0).finite() && value(N::integer(0)) == 0real);
        assert(error * n == 0real) by (nonlinear_arith)
            requires
                n == 0real,
        ;
    } else {
        let rest = ids.drop_last();
        let last = ids.last();
        let m = rest.len() as real;
        assert(ids[ids.len() - 1] == last);
        assert forall|i: int| 0 <= i < rest.len() implies amount(#[trigger] rest[i]).finite()
            && value(amount(rest[i])) >= 0real by {
            assert(rest[i] == ids[i]);
        }
        assert(error * n == error * m + error && error * m >= 0real) by (nonlinear_arith)
            requires
                n == m + 1real,
                m >= 0real,
                error >= 0real,
        ;
        lemma_added_near(rest, amount, value, bound, error);
        let before = added(rest, amount);
        assert(stands_for(
            value,
            before.sum(amount(last)),
            value(before) + value(amount(last)),
            bound,
            error,
        ));
    }
}

/// Each of some amounts that are not negative is no more than their sum.
proof fn lemma_part_of_sum(ids: Seq<i32>, amount: spec_fn(i32) -> real, k: int)
    requires
        forall|i: int| 0 <= i < ids.len() ==> amount(#[trigger] ids[i]) >= 0real,
        0 <= k < ids.len(),
    ensures
        amount(ids[k]) <= real_sum(ids, amount),
        real_sum(ids, amount) >= 0real,
    decreases ids.len(),
{
    let rest = ids.drop_last();
    assert(ids[ids.len() - 1] == ids.last());
    assert forall|i: int| 0 <= i < rest.len() implies amount(#[trigger] rest[i]) >= 0real by {
        assert(rest[i] == ids[i]);
    }
    if k < rest.len() {
        lemma_part_of_sum(rest, amount, k);
        assert(rest[k] == ids[k]);
    } else if rest.len() > 0 {
        lemma_part_of_sum(rest, amount, 0);
    } else {
        assert(real_sum(rest, amount) == 0real);
    }
}

/// The ratio at which a server that is asked for more than it has serves its jobs lies
/// between nothing and one.
proof fn lemma_ratio<N: Scalar>(
    capacity: N,
    total: N,
    value: spec_fn(N) -> real,
    bound: real,
    error: real,
)
    requires
        rounds(value, bound, error),
        capacity.finite(),
        total.finite(),
        0real <= value(capacity) < value(total),
    ensures
        capacity.quotient(total).finite(),
        0real <= value(capacity.quotient(total)) <= 1real,
        value(capacity.quotient(total)) <= value(capacity) / value(total) + error,
        0real <= value(capacity) / value(total) < 1real,
{
    let none = N::integer(0);
    let all = N::integer(1);
    let c = value(capacity);
    let t = value(total);
    assert(none.finite() && value(none) == 0real);
    assert(all.finite() && value(all) == 1real);
    assert(0real <= c / t < 1real && 0real / t == 0real && t / t == 1real) by (nonlinear_arith)
        requires
            0real <= c < t,
    ;
    assert(stands_for(value, capacity.quotient(total), c / t, bound, error));
    assert(stands_for(value, none.quotient(total), 0real, bound, error));
    assert(stands_for(value, total.quotient(total), 1real, bound, error));
    assert(value(none.quotient(total)) == 0real) by {
        assert(value(none) == 0real);
    }
    assert(value(total.quotient(total)) == 1real) by {
        assert(value(all) == 1real);
    }
    assert(value(none.quotient(total)) <= value(capacity.quotient(total)));
    assert(value(capacity.quotient(total)) <= value(total.quotient(total)));
}

/// What is asked for at a ratio between nothing and one is no more than what is asked for.
proof fn lemma_scaled_share<N: Scalar>(
    asked: N,
    ratio: N,
    value: spec_fn(N) -> real,
    bound: real,
    error: real,
)
    requires
        rounds(value, bound, error),
        asked.finite(),
        ratio.finite(),
        0real <= value(asked) <= bound,
        0real <= value(ratio) <= 1real,
    ensures
        asked.product(ratio).finite(),
        0real <= value(asked.product(ratio)) <= value(asked),
        value(asked.product(ratio)) <= value(asked) * value(ratio) + error,
{
    let none = N::integer(0);
    let all = N::integer(1);
    let a = value(asked);
    let r = value(ratio);
    assert(none.finite() && value(none) == 0real);
    assert(all.finite() && value(all) == 1real);
    assert(0real <= a * r <= a && a * 0real == 0real && a * 1real == a) by (nonlinear_arith)
        requires
            a >= 0real,
            0real <= r <= 1real,
    ;
    assert(stands_for(value, asked.product(ratio), a * r, bound, error));
    assert(stands_for(value, asked.product(none), 0real, bound, error));
    assert(stands_for(value, asked.product(all), a, bound, error));
    assert(value(asked.product(none)) == 0real) by {
        assert(value(none) == 0real);
    }
    assert(value(asked.product(all)) == a) by {
        assert(value(asked) == a);
    }
    assert(value(asked.product(none)) <= value(asked.product(ratio)));
    assert(value(asked.product(ratio)) <= value(asked.product(all)));
}

/// What the jobs on a server ask of it, exactly added up.
pub open spec fn exact_demand<N: Scalar>(
    cluster: ClusterModel<N>,
    jobs: Seq<JobModel<N>>,
    server: int,
    value: spec_fn(N) -> real,
) -> real {
    real_sum(
        cluster.active_jobs[server],
        |job: i32| value(cluster.demand_now(jobs[job as int], server as i32)),
    )
}

/// No job gets more bandwidth of a server than it asks for, nor less than none. Up to
/// rounding, the jobs on a server together get no more than its capacity; with numbers that
/// do not round, they never do.
pub proof fn shares_stay_within_demand_and_capacity<N: Scalar>(
    cluster: ClusterModel<N>,
    jobs: Seq<JobModel<N>>,
    server: int,
    value: spec_fn(N) -> real,
    bound: real,
    error: real,
)
    requires
        rounds(value, bound, error),
        forall|k: int|
            0 <= k < cluster.active_jobs[server].len() ==> {
                let asked = cluster.demand_now(
                    jobs[#[trigger] cluster.active_jobs[server][k] as int],
                    server as i32,
                );
                asked.finite() && value(asked) >= 0real
            },
        cluster.network_capacity().finite(),
        value(cluster.network_capacity()) >= 0real,
        exact_demand(cluster, jobs, server, value) + error * (
        cluster.active_jobs[server].len() as real) <= bound,
    ensures
        ({
            let ids = cluster.active_jobs[server];
            let count = ids.len() as real;
            let asked = exact_demand(cluster, jobs, server, value);
            &&& forall|k: int|
                0 <= k < ids.len() ==> {
                    let share = cluster.share(jobs, server, #[trigger] ids[k] as int);
                    &&& share.finite()
                    &&& 0real <= value(share) <= value(
                        cluster.demand_now(jobs[ids[k] as int], server as i32),
                    )
                }
            &&& real_sum(ids, |job: i32| value(cluster.share(jobs, server, job as int))) <= value(
                cluster.network_capacity(),
            ) + error * (asked + 2real * count)
        }),
{
    let ids = cluster.active_jobs[server];
    let capacity = cluster.network_capacity();
    let total = cluster.total_demand(jobs, server);
    let demand = |job: i32| cluster.demand_now(jobs[job as int], server as i32);
    let asked = |job: i32| value(cluster.demand_now(jobs[job as int], server as i32));
    let share = |job: i32| value(cluster.share(jobs, server, job as int));
    let sum = exact_demand(cluster, jobs, server, value);
    let c = value(capacity);
    let t = value(total);
    let n = ids.len() as real;
    assert forall|i: int| 0 <= i < ids.len() implies demand(#[trigger] ids[i]).finite() && value(
        demand(ids[i]),
    ) >= 0real && asked(ids[i]) >= 0real by {
        assert(cluster.active_jobs[server][i] == ids[i]);
    }
    assert((|i: i32| value(demand(i))) =~= asked);
    lemma_added_near(ids, demand, value, bound, error);
    assert(near(t, sum, error * n));
    assert(error * (sum + 2real * n) == error * sum + error * n + error * n && error * sum >= 0real
        && error * n >= 0real) by (nonlinear_arith)
        requires
            error >= 0real,
            sum >= 0real,
            n >= 0real,
    ;
    assert(less(capacity, total) <==> c < t) by {
        assert(capacity.ordered() && total.ordered());
        assert(total.rank() <= capacity.rank() <==> value(total) <= value(capacity));
    }
    if less(capacity, total) {
        let ratio = capacity.quotient(total);
        let r = value(ratio);
        let exact = c / t;
        lemma_ratio(capacity, total, value, bound, error);
        let scaled = |job: i32| (exact + error) * asked(job);
        let most = |job: i32| scaled(job) + error;
        assert forall|k: int| 0 <= k < ids.len() implies {
            let given = cluster.share(jobs, server, #[trigger] ids[k] as int);
            &&& given.finite()
            &&& 0real <= value(given) <= asked(ids[k])
            &&& share(ids[k]) <= most(ids[k])
        } by {
            let a = asked(ids[k]);
            assert(demand(ids[k]).finite());
            lemma_part_of_sum(ids, asked, k);
            lemma_scaled_share(demand(ids[k]), ratio, value, bound, error);
            assert(a * r <= (exact + error) * a) by (nonlinear_arith)
                requires
                    a >= 0real,
                    r <= exact + error,
            ;
        }
        lemma_sum_order(ids, share, most);
        lemma_sum_shifted(ids, scaled, error);
        lemma_sum_scaled(ids, asked, exact + error);
        assert((|i: i32| (exact + error) * asked(i)) =~= scaled);
        assert((exact + error) * sum <= c + error * n + error * sum) by (nonlinear_arith)
            requires
                exact == c / t,
                0real <= exact < 1real,
                t > 0real,
                sum <= t + error * n,
                error * n >= 0real,
        ;
    } else {
        assert forall|k: int| 0 <= k < ids.len() implies {
            let given = cluster.share(jobs, server, #[trigger] ids[k] as int);
            &&& given.finite()
            &&& 0real <= value(given) <= asked(ids[k])
            &&& share(ids[k]) <= asked(ids[k])
        } by {
            assert(demand(ids[k]).finite());
        }
        lemma_sum_order(ids, share, asked);
    }
}

/// Whether the demand on a server can be added up and shared out up to rounding.
pub open spec fn shares_round<N: Scalar>(
    cluster: ClusterModel<N>,
    jobs: Seq<JobModel<N>>,
    server: int,
    value: spec_fn(N) -> real,
    bound: real,
    error: real,
) -> bool {
    &&& rounds(value, bound, error)
    &&& cluster.is_sized()
    &&& cluster.knows_jobs(jobs.len())
    &&& 0 <= server < cluster.servers
    &&& forall|k: int|
        0 <= k < cluster.active_jobs[server].len() ==> {
            let asked = cluster.demand_now(
                jobs[#[trigger] cluster.active_jobs[server][k] as int],
                server as i32,
            );
            asked.finite() && value(asked) >= 0real
        }
    &&& cluster.network_capacity().finite()
    &&& value(cluster.network_capacity()) >= 0real
    &&& exact_demand(cluster, jobs, server, value) + error * (
    cluster.active_jobs[server].len() as real) <= bound
}

/// The bandwidth of a server that a job has once the bandwidth is shared out.
pub open spec fn bandwidth_got<N: Scalar>(
    cluster: ClusterModel<N>,
    jobs: Seq<JobModel<N>>,
    server: int,
    job: i32,
    value: spec_fn(N) -> real,
) -> real {
    value(cluster.jobs_with_bandwidth(jobs)[job as int].using_bandwidths[server as i32])
}

/// What a job has of a server once the bandwidth is shared out, and the demand that it goes by.
proof fn lemma_got<N: Scalar>(
    cluster: ClusterModel<N>,
    jobs: Seq<JobModel<N>>,
    server: int,
    k: int,
    value: spec_fn(N) -> real,
    bound: real,
    error: real,
)
    requires
        shares_round(cluster, jobs, server, value, bound, error),
        0 <= k < cluster.active_jobs[server].len(),
        exact_demand(cluster, jobs, server, value) > error * (
        cluster.active_jobs[server].len() as real),
    ensures
        ({
            let id = cluster.active_jobs[server][k];
            let after = cluster.jobs_with_bandwidth(jobs)[id as int];
            &&& 0 <= id < jobs.len()
            &&& cluster.served(jobs, server)
            &&& after.using_bandwidths.contains_key(server as i32)
            &&& after.using_bandwidths[server as i32] == cluster.share(jobs, server, id as int)
            &&& cluster.total_demand(jobs, server).finite()
            &&& near(
                value(cluster.total_demand(jobs, server)),
                exact_demand(cluster, jobs, server, value),
                error * (cluster.active_jobs[server].len() as real),
            )
            &&& value(cluster.total_demand(jobs, server)) > 0real
        }),
{
    let ids = cluster.active_jobs[server];
    let id = ids[k];
    let demand = |job: i32| cluster.demand_now(jobs[job as int], server as i32);
    let asked = |job: i32| value(cluster.demand_now(jobs[job as int], server as i32));
    assert(0 <= cluster.active_jobs[server][k] < jobs.len());
    assert(ids.contains(id));
    assert(cluster.runs(server, id as int));
    assert forall|i: int| 0 <= i < ids.len() implies demand(#[trigger] ids[i]).finite() && value(
        demand(ids[i]),
    ) >= 0real by {
        assert(cluster.active_jobs[server][i] == ids[i]);
    }
    assert((|i: i32| value(demand(i))) =~= asked);
    lemma_added_near(ids, demand, value, bound, error);
    lemma_integer_value(value, 0, bound, error);
    lemma_compared(
        value,
        cluster.total_demand(jobs, server),
        N::integer(0),
        bound,
        error,
    );
}

/// The bandwidth of a server is shared out in proportion: a job has all it asks for where the
/// jobs there together ask for no more than the server gives out. Where they ask for more,
/// what a job has is to the capacity as what it asks for is to what all of them ask for. All
/// of it up to rounding.
pub proof fn bandwidth_is_shared_in_proportion<N: Scalar>(
    cluster: ClusterModel<N>,
    jobs: Seq<JobModel<N>>,
    server: int,
    k: int,
    value: spec_fn(N) -> real,
    bound: real,
    error: real,
)
    requires
        shares_round(cluster, jobs, server, value, bound, error),
        0 <= k < cluster.active_jobs[server].len(),
        exact_demand(cluster, jobs, server, value) > error * (
        cluster.active_jobs[server].len() as real),
    ensures
        ({
            let id = cluster.active_jobs[server][k];
            let slack = error * (cluster.active_jobs[server].len() as real);
            let all = exact_demand(cluster, jobs, server, value);
            let asked = value(cluster.demand_now(jobs[id as int], server as i32));
            let capacity = value(cluster.network_capacity());
            let got = bandwidth_got(cluster, jobs, server, id, value);
            &&& 0real <= got <= asked
            &&& all + slack <= capacity ==> got == asked
            &&& all - slack > capacity ==> near(
                got * all,
                asked * capacity,
                slack * asked + error * ((asked + 1real) * (all + slack)),
            )
        }),
{
    let ids = cluster.active_jobs[server];
    let id = ids[k];
    let slack = error * (ids.len() as real);
    let all = exact_demand(cluster, jobs, server, value);
    let capacity = cluster.network_capacity();
    let total = cluster.total_demand(jobs, server);
    let asking = cluster.demand_now(jobs[id as int], server as i32);
    let asked = value(asking);
    let c = value(capacity);
    let t = value(total);
    lemma_got(cluster, jobs, server, k, value, bound, error);
    shares_stay_within_demand_and_capacity(cluster, jobs, server, value, bound, error);
    assert(cluster.active_jobs[server][k] == id);
    lemma_compared(value, capacity, total, bound, error);
    assert(slack >= 0real) by (nonlinear_arith)
        requires
            slack == error * (ids.len() as real),
            error >= 0real,
            ids.len() as real >= 0real,
    ;
    if all - slack > c {
        let ratio = capacity.quotient(total);
        lemma_ratio(capacity, total, value, bound, error);
        lemma_quotient_near(value, capacity, total, bound, error);
        let r = value(ratio);
        let exact = c / t;
        let asks = |job: i32| value(cluster.demand_now(jobs[job as int], server as i32));
        assert forall|i: int| 0 <= i < ids.len() implies asks(#[trigger] ids[i]) >= 0real by {
            assert(cluster.active_jobs[server][i] == ids[i]);
        }
        lemma_part_of_sum(ids, asks, k);
        assert(0real <= asked * r <= asked) by (nonlinear_arith)
            requires
                0real <= r <= 1real,
                asked >= 0real,
        ;
        lemma_product_near(value, asking, ratio, bound, error);
        let got = value(asking.product(ratio));
        assert(got == bandwidth_got(cluster, jobs, server, id, value));
        assert(near(got, asked * exact, error * (asked + 1real))) by (nonlinear_arith)
            requires
                near(got, asked * r, error),
                near(r, exact, error),
                asked >= 0real,
        ;
        assert(exact * t == c) by (nonlinear_arith)
            requires
                exact == c / t,
                t > 0real,
        ;
        let off = error * (asked + 1real);
        assert(near(got * t, asked * c, off * t)) by (nonlinear_arith)
            requires
                near(got, asked * exact, off),
                exact * t == c,
                t > 0real,
        ;
        assert(0real <= got <= asked);
        assert(near(got * all, got * t, slack * asked)) by (nonlinear_arith)
            requires
                near(t, all, slack),
                0real <= got <= asked,
                slack >= 0real,
        ;
        assert(off * t <= error * ((asked + 1real) * (all + slack))) by (nonlinear_arith)
            requires
                off == error * (asked + 1real),
                0real <= t <= all + slack,
                error >= 0real,
                asked >= 0real,
        ;
    }
}

/// What a server gives out is what its jobs have, and no bandwidth of a crowded server is left
/// unused: its jobs together have its capacity, up to rounding. What is left on a server is
/// its bandwidth less what its jobs have.
pub proof fn crowded_servers_give_all_they_have<N: Scalar>(
    cluster: ClusterModel<N>,
    jobs: Seq<JobModel<N>>,
    server: int,
    value: spec_fn(N) -> real,
    bound: real,
    error: real,
)
    requires
        shares_round(cluster, jobs, server, value, bound, error),
        cluster.bandwidth_per_server.finite(),
        0real <= value(cluster.bandwidth_per_server),
        value(cluster.bandwidth_per_server) + error * (
        cluster.active_jobs[server].len() as real) <= bound,
        exact_demand(cluster, jobs, server, value) > error * (
        cluster.active_jobs[server].len() as real),
    ensures
        ({
            let ids = cluster.active_jobs[server];
            let slack = error * (ids.len() as real);
            let all = exact_demand(cluster, jobs, server, value);
            let capacity = value(cluster.network_capacity());
            let given = real_sum(ids, |job: i32| bandwidth_got(cluster, jobs, server, job, value));
            &&& all - slack > capacity ==> near(given, capacity, error * all + 2real * slack)
            &&& all + slack <= capacity ==> given == all
            &&& near(
                value(cluster.with_bandwidth(jobs).bandwidths[server]),
                value(cluster.bandwidth_per_server) - given,
                slack + error,
            )
        }),
{
    let ids = cluster.active_jobs[server];
    let n = ids.len() as real;
    let slack = error * n;
    let all = exact_demand(cluster, jobs, server, value);
    let capacity = cluster.network_capacity();
    let total = cluster.total_demand(jobs, server);
    let c = value(capacity);
    let t = value(total);
    let asks = |job: i32| value(cluster.demand_now(jobs[job as int], server as i32));
    let got = |job: i32| bandwidth_got(cluster, jobs, server, job, value);
    let shared = |job: i32| cluster.share(jobs, server, job as int);
    let share = |job: i32| value(cluster.share(jobs, server, job as int));
    assert(ids.len() > 0) by {
        if ids.len() == 0 {
            assert(slack == 0real) by (nonlinear_arith)
                requires
                    slack == error * n,
                    n == 0real,
            ;
        }
    }
    assert(slack >= 0real) by (nonlinear_arith)
        requires
            slack == error * n,
            error >= 0real,
            n >= 0real,
    ;
    shares_stay_within_demand_and_capacity(cluster, jobs, server, value, bound, error);
    assert forall|i: int| 0 <= i < ids.len() implies got(#[trigger] ids[i]) == share(ids[i])
        && shared(ids[i]).finite() && 0real <= share(ids[i]) <= asks(ids[i]) by {
        lemma_got(cluster, jobs, server, i, value, bound, error);
        assert(cluster.active_jobs[server][i] == ids[i]);
    }
    lemma_got(cluster, jobs, server, 0, value, bound, error);
    lemma_sum_order(ids, got, share);
    lemma_sum_order(ids, share, got);
    lemma_sum_order(ids, share, asks);
    assert((|i: i32| value(shared(i))) =~= share);
    lemma_added_near(ids, shared, value, bound, error);
    let given = real_sum(ids, got);
    lemma_difference_near(
        value,
        cluster.bandwidth_per_server,
        added(ids, shared),
        bound,
        error,
    );
    lemma_compared(value, capacity, total, bound, error);
    assert((|job: i32| cluster.share(jobs, server, job as int)) =~= shared);
    assert((|job: i32| bandwidth_got(cluster, jobs, server, job, value)) =~= got);
    if all - slack > c {
        let ratio = capacity.quotient(total);
        lemma_ratio(capacity, total, value, bound, error);
        lemma_quotient_near(value, capacity, total, bound, error);
        let r = value(ratio);
        let exact = c / t;
        let scaled = |job: i32| (exact - error) * asks(job);
        let least = |job: i32| scaled(job) + (-error);
        assert forall|i: int| 0 <= i < ids.len() implies least(#[trigger] ids[i]) <= share(
            ids[i],
        ) by {
            let asking = cluster.demand_now(jobs[ids[i] as int], server as i32);
            let a = asks(ids[i]);
            assert(cluster.active_jobs[server][i] == ids[i]);
            assert forall|j: int| 0 <= j < ids.len() implies asks(#[trigger] ids[j]) >= 0real by {
                assert(cluster.active_jobs[server][j] == ids[j]);
            }
            lemma_part_of_sum(ids, asks, i);
            assert(0real <= a * r <= a && a * r >= (exact - error) * a) by (nonlinear_arith)
                requires
                    0real <= r <= 1real,
                    a >= 0real,
                    r >= exact - error,
            ;
            lemma_product_near(value, asking, ratio, bound, error);
        }
        lemma_sum_order(ids, least, share);
        lemma_sum_shifted(ids, scaled, -error);
        lemma_sum_scaled(ids, asks, exact - error);
        assert((|i: i32| (exact - error) * asks(i)) =~= scaled);
        assert((|i: i32| scaled(i) + (-error)) =~= least);
        assert((-error) * n == -slack) by (nonlinear_arith)
            requires
                slack == error * n,
        ;
        assert((exact - error) * all >= c - slack - error * all) by (nonlinear_arith)
            requires
                exact == c / t,
                0real <= exact < 1real,
                t > 0real,
                all >= t - slack,
                slack >= 0real,
        ;
        assert(error * (all + 2real * n) == error * all + 2real * slack) by (nonlinear_arith)
            requires
                slack == error * n,
        ;
        assert((|job: i32| value(cluster.share(jobs, server, job as int))) =~= share);
    } else if all + slack <= c {
        lemma_sum_order(ids, asks, share);
    }
}

/// A server gives out all of its bandwidth, or the part of it that its efficiency under
/// head-of-line blocking leaves, up to rounding; an efficiency that is no part does not count.
pub proof fn capacity_is_the_efficient_part<N: Scalar>(
    cluster: ClusterModel<N>,
    value: spec_fn(N) -> real,
    bound: real,
    error: real,
)
    requires
        rounds(value, bound, error),
        cluster.bandwidth_per_server.finite(),
        0real <= value(cluster.bandwidth_per_server) <= bound,
    ensures
        match cluster.hol_efficiency {
            Some(efficiency) => if efficiency.finite() && 0real <= value(efficiency) <= 1real {
                near(
                    value(cluster.network_capacity()),
                    value(cluster.bandwidth_per_server) * value(efficiency),
                    error,
                )
            } else {
                cluster.network_capacity() == cluster.bandwidth_per_server
            },
            None => cluster.network_capacity() == cluster.bandwidth_per_server,
        },
{
    if let Some(efficiency) = cluster.hol_efficiency {
        if efficiency.finite() {
            let b = value(cluster.bandwidth_per_server);
            let e = value(efficiency);
            lemma_integer_value(value, 0, bound, error);
            lemma_integer_value(value, 1, bound, error);
            lemma_compared(value, N::integer(0), efficiency, bound, error);
            lemma_compared(value, efficiency, N::integer(1), bound, error);
            if 0real <= e <= 1real {
                assert(0real <= b * e <= b) by (nonlinear_arith)
                    requires
                        0real <= e <= 1real,
                        b >= 0real,
                ;
                lemma_product_near(
                    value,
                    cluster.bandwidth_per_server,
                    efficiency,
                    bound,
                    error,
                );
            }
        }
    }
}

/// What a job asks of a server at present: nothing before it trains. While it trains, what it asks
/// at most; but where iterations are split, a job that computes asks for nothing, or, where
/// phases count by their weight, for the part of it that communication has in an iteration,
/// up to rounding.
pub proof fn demand_follows_the_phase<N: Scalar>(
    cluster: ClusterModel<N>,
    job: JobModel<N>,
    server: i32,
    value: spec_fn(N) -> real,
    bound: real,
    error: real,
)
    requires
        rounds(value, bound, error),
        job.iteration_computing_time.finite(),
        job.iteration_networking_time.finite(),
        0real <= value(job.iteration_computing_time),
        0real <= value(job.iteration_networking_time),
        value(job.iteration_computing_time) + value(job.iteration_networking_time) <= bound,
        value(job.iteration_computing_time) + value(job.iteration_networking_time) > 2real
            * error,
        cluster.capped_demand(job, server).finite(),
        0real <= value(cluster.capped_demand(job, server)),
        3real * value(cluster.capped_demand(job, server)) <= bound,
        error <= 1real,
    ensures
        ({
            let asked = cluster.demand_now(job, server);
            let most = cluster.capped_demand(job, server);
            let splits = cluster.interference_model is CommsIter
                || cluster.interference_model is CommsIterIntra
                || cluster.interference_model is CommsIterLcm
                || cluster.interference_model is CommsIterIntraLcm;
            let networking = value(job.iteration_networking_time);
            let iteration = value(job.iteration_computing_time) + networking;
            &&& job.training_time is None ==> value(asked) == 0real
            &&& job.training_time is Some && (!splits || job.is_in_comm_phase) ==> asked == most
            &&& job.training_time is Some && splits && !job.is_in_comm_phase
                && !cluster.phase_overlap_weighted ==> value(asked) == 0real
            &&& job.training_time is Some && splits && !job.is_in_comm_phase
                && cluster.phase_overlap_weighted ==> near(
                value(asked) * iteration,
                value(most) * networking,
                value(most) * error * (iteration + 2real) + error * iteration,
            )
        }),
{
    lemma_integer_value(value, 0, bound, error);
    let most = cluster.capped_demand(job, server);
    let m = value(most);
    let c = value(job.iteration_computing_time);
    let n = value(job.iteration_networking_time);
    let iteration = job.iteration_computing_time.sum(job.iteration_networking_time);
    lemma_sum_near(
        value,
        job.iteration_computing_time,
        job.iteration_networking_time,
        bound,
        error,
    );
    let t = value(iteration);
    let exact = c + n;
    lemma_compared(value, N::integer(0), iteration, bound, error);
    assert(t > 0real && t >= error);
    let q = n / t;
    assert(0real <= q <= 2real && q * t == n) by (nonlinear_arith)
        requires
            q == n / t,
            0real <= n <= exact,
            near(t, exact, error),
            exact > 2real * error,
            error >= 0real,
            t > 0real,
    ;
    lemma_quotient_near(value, job.iteration_networking_time, iteration, bound, error);
    let part = job.iteration_networking_time.quotient(iteration);
    let p = value(part);
    assert(near(p * exact, n, error * (exact + 2real))) by (nonlinear_arith)
        requires
            near(p, q, error),
            q * t == n,
            0real <= q <= 2real,
            near(t, exact, error),
            exact > 2real * error,
            error >= 0real,
    ;
    assert(-bound <= m * p <= bound) by (nonlinear_arith)
        requires
            near(p, q, error),
            0real <= q <= 2real,
            0real <= error <= 1real,
            0real <= m,
            3real * m <= bound,
    ;
    lemma_product_near(value, most, part, bound, error);
    let asked = value(most.product(part));
    assert(near(asked * exact, m * n, m * error * (exact + 2real) + error * exact))
        by (nonlinear_arith)
        requires
            near(asked, m * p, error),
            near(p * exact, n, error * (exact + 2real)),
            m >= 0real,
            exact > 0real,
            error >= 0real,
    ;
}

} // verus!
