//! The choice of servers for the workers and parameter servers of a job.

use vstd::prelude::*;

use crate::lists::{
    amounts, first_numbers, lemma_occurrences, numbers, occurrences, sum_of, total,
};
use crate::ranking::{no_later, rank_items, ranked, ranked_is_sorted, Ranking};
use crate::scalar::{divide, truncating_quotient};
use crate::text::same_text;

verus! {

/// Placement algorithm selector.
#[derive(Debug, Clone, Copy, PartialEq, Eq, Structural)]
pub enum PlacementMethod {
    K8sLoadBalancing,
    K8sBinPacking,
    Colocate,
    Tiresias,
}

/// The placement method of a name.
pub open spec fn method_named(name: Seq<char>) -> Option<PlacementMethod> {
    if name == "k8s-load-balancing"@ {
        Some(PlacementMethod::K8sLoadBalancing)
    } else if name == "k8s-bin-packing"@ {
        Some(PlacementMethod::K8sBinPacking)
    } else if name == "colocate"@ {
        Some(PlacementMethod::Colocate)
    } else if name == "tiresias"@ {
        Some(PlacementMethod::Tiresias)
    } else {
        None
    }
}

impl PlacementMethod {
    /// The name of the method.
    pub open spec fn name(self) -> Seq<char> {
        match self {
            PlacementMethod::K8sLoadBalancing => "k8s-load-balancing"@,
            PlacementMethod::K8sBinPacking => "k8s-bin-packing"@,
            PlacementMethod::Colocate => "colocate"@,
            PlacementMethod::Tiresias => "tiresias"@,
        }
    }

    /// The method of a name, which must be the name of one.
    pub fn from_str(s: &str) -> (result: Self)
        requires
            method_named(s@) is Some,
        ensures
            Some(result) == method_named(s@),
    {
        match Self::parse(s) {
            Some(method) => method,
            None => PlacementMethod::K8sLoadBalancing,
        }
    }

    /// The method of a name, if it is the name of one.
    pub fn parse(s: &str) -> (result: Option<Self>)
        ensures
            result == method_named(s@),
    {
        if same_text(s, "k8s-load-balancing") {
            Some(PlacementMethod::K8sLoadBalancing)
        } else if same_text(s, "k8s-bin-packing") {
            Some(PlacementMethod::K8sBinPacking)
        } else if same_text(s, "colocate") {
            Some(PlacementMethod::Colocate)
        } else if same_text(s, "tiresias") {
            Some(PlacementMethod::Tiresias)
        } else {
            None
        }
    }

    /// The name of the method.
    pub fn as_str(&self) -> (result: &'static str)
        ensures
            result@ == self.name(),
    {
        match self {
            PlacementMethod::K8sLoadBalancing => "k8s-load-balancing",
            PlacementMethod::K8sBinPacking => "k8s-bin-packing",
            PlacementMethod::Colocate => "colocate",
            PlacementMethod::Tiresias => "tiresias",
        }
    }
}

/// The name of a method names that method.
pub proof fn method_of_its_name(method: PlacementMethod)
    ensures
        method_named(method.name()) == Some(method),
{
    reveal_strlit("k8s-load-balancing");
    reveal_strlit("k8s-bin-packing");
    reveal_strlit("colocate");
    reveal_strlit("tiresias");
    assert("k8s-load-balancing"@[0] == 'k');
    assert("k8s-bin-packing"@[4] == 'b' && "k8s-load-balancing"@[4] == 'l');
    assert("colocate"@[0] == 'c');
    assert("tiresias"@[0] == 't');
    assert("k8s-bin-packing"@[0] == 'k');
}

/// What a job asks of the servers.
#[derive(Debug, Clone, Copy, PartialEq, Eq, Structural)]
pub struct Demand {
    pub gpu_workers: i32,
    pub ps: i32,
    pub gpu_per_worker: i32,
    pub cpu_per_gpu_worker: i32,
    pub cpu_per_ps: i32,
}

impl Demand {
    /// The CPU cores that the workers and parameter servers take together.
    pub open spec fn cpus(self) -> int {
        self.ps * self.cpu_per_ps + self.gpu_workers * self.cpu_per_gpu_worker
    }

    /// The CPU cores that the workers and parameter servers take together.
    pub fn needed_cpus(&self) -> (result: i128)
        ensures
            result == self.cpus(),
    {
        let ps: i128 = wide(self.ps, self.cpu_per_ps);
        let workers: i128 = wide(self.gpu_workers, self.cpu_per_gpu_worker);
        ps + workers
    }
}

/// The product of two 32-bit integers, which fits in 64 bits.
pub fn wide(a: i32, b: i32) -> (result: i128)
    ensures
        result == a * b,
        -0x4000_0000_0000_0000 <= a * b <= 0x4000_0000_0000_0000,
{
    proof {
        lemma_wide(a, b);
    }
    (a as i128) * (b as i128)
}

proof fn lemma_wide(a: i32, b: i32)
    by (nonlinear_arith)
    ensures
        -0x4000_0000_0000_0000 <= a * b <= 0x4000_0000_0000_0000,
{
}

/// Whether the servers together have as many free GPUs as the job has workers,
/// and as many free CPU cores as it needs.
pub open spec fn has_room(gpus: Seq<i32>, cpus: Seq<i32>, demand: Demand) -> bool {
    demand.gpu_workers <= total(gpus) && demand.cpus() <= total(cpus)
}

/// A key by which the servers with the least of something come first.
pub open spec fn least(amounts: Seq<i32>) -> spec_fn(i32) -> int {
    |server: i32| amounts[server as int] as int
}

/// A key by which the servers with the most of something come first.
pub open spec fn most(amounts: Seq<i32>) -> spec_fn(i32) -> int {
    |server: i32| -(amounts[server as int] as int)
}

/// What rounds over the servers pick: in each round, in order, every server
/// that fits in that round. (Rounds are numbered from zero.)
pub open spec fn rounds(order: Seq<i32>, fits: spec_fn(i32, int) -> bool, count: nat) -> Seq<i32>
    decreases count,
{
    if count == 0 {
        Seq::empty()
    } else {
        rounds(order, fits, (count - 1) as nat) + order.filter(
            |server: i32| fits(server, count - 1),
        )
    }
}

/// The servers of `count` tasks that are dealt out in rounds; fewer where the servers run out.
pub open spec fn spread(order: Seq<i32>, fits: spec_fn(i32, int) -> bool, count: int) -> Seq<i32> {
    if count <= 0 {
        Seq::empty()
    } else {
        let picked = rounds(order, fits, count as nat);
        if picked.len() > count {
            picked.take(count)
        } else {
            picked
        }
    }
}

/// The servers of `remaining` tasks when each server in turn takes as many as it holds.
/// (A server that holds less than nothing leaves more for those behind it.)
pub open spec fn filled(order: Seq<i32>, holds: spec_fn(i32) -> int, remaining: int) -> Seq<i32>
    decreases order.len(),
{
    if order.len() == 0 || remaining <= 0 {
        Seq::empty()
    } else {
        let server = order.first();
        let taken = if holds(server) < remaining {
            holds(server)
        } else {
            remaining
        };
        repeated(server, taken) + filled(order.drop_first(), holds, remaining - taken)
    }
}

/// A server, as often as given.
pub open spec fn repeated(server: i32, count: int) -> Seq<i32> {
    Seq::new(
        if count > 0 {
            count as nat
        } else {
            0
        },
        |i: int| server,
    )
}

/// The placement of the workers and parameter servers, if all of them got a server.
pub open spec fn complete(demand: Demand, allocated: Seq<i32>, ps_allocated: Seq<i32>) -> Option<
    (Seq<i32>, Seq<i32>),
> {
    if allocated.len() == demand.gpu_workers && ps_allocated.len() == demand.ps {
        Some((allocated, ps_allocated))
    } else {
        None
    }
}

/// Whether a server takes a worker more in a round, having taken one in each
/// round before it.
pub open spec fn takes_worker(gpus: Seq<i32>, cpus: Seq<i32>, demand: Demand) -> spec_fn(
    i32,
    int,
) -> bool {
    |server: i32, round: int|
        {
            &&& gpus[server as int] >= demand.gpu_per_worker
            &&& gpus[server as int] >= (round + 1) * demand.gpu_per_worker
            &&& cpus[server as int] >= demand.cpu_per_gpu_worker
        }
}

/// Whether a server has the cores for a parameter server.
pub open spec fn takes_ps(cpus: Seq<i32>, demand: Demand) -> spec_fn(i32, int) -> bool {
    |server: i32, round: int| cpus[server as int] >= demand.cpu_per_ps
}

/// Whether a server has a free GPU and the cores for a worker.
pub open spec fn has_gpu(gpus: Seq<i32>, cpus: Seq<i32>, demand: Demand) -> spec_fn(
    i32,
    int,
) -> bool {
    |server: i32, round: int|
        gpus[server as int] > 0 && cpus[server as int] >= demand.cpu_per_gpu_worker
}

/// How many workers a server holds.
pub open spec fn holds_workers(gpus: Seq<i32>, cpus: Seq<i32>, demand: Demand) -> spec_fn(
    i32,
) -> int {
    |server: i32|
        {
            let by_gpu = truncating_quotient(
                gpus[server as int] as int,
                demand.gpu_per_worker as int,
            );
            let by_cpu = truncating_quotient(
                cpus[server as int] as int,
                demand.cpu_per_gpu_worker as int,
            );
            if by_cpu < by_gpu {
                by_cpu
            } else {
                by_gpu
            }
        }
}

/// Whether a server has a GPU for each worker, and cores for the whole job.
pub open spec fn takes_all(gpus: Seq<i32>, cpus: Seq<i32>, demand: Demand) -> spec_fn(i32) -> bool {
    |server: i32|
        gpus[server as int] >= demand.gpu_workers && cpus[server as int] >= demand.cpus()
}

/// The placement on the first server that takes all of the job.
pub open spec fn together(
    order: Seq<i32>,
    gpus: Seq<i32>,
    cpus: Seq<i32>,
    demand: Demand,
) -> Option<(Seq<i32>, Seq<i32>)> {
    if demand.gpu_workers == 0 {
        complete(demand, Seq::empty(), Seq::empty())
    } else {
        let able = order.filter(takes_all(gpus, cpus, demand));
        if able.len() == 0 {
            None
        } else {
            complete(
                demand,
                repeated(able[0], demand.gpu_workers as int),
                repeated(able[0], demand.ps as int),
            )
        }
    }
}

/// The placement that a method finds for a job on servers with the given free
/// GPUs and CPU cores: the servers of its workers and of its parameter servers.
///
/// - Load balancing deals the workers out in rounds, most free GPUs first, to
///   the servers that still have the GPUs for one, and the parameter servers
///   to the servers with the most cores.
/// - Bin packing fills the servers one after the other, fewest free GPUs first,
///   and deals the parameter servers out to the servers with the fewest cores.
/// - Colocation puts the whole job on the server with the most free GPUs that
///   takes it.
/// - Tiresias puts a job of high skewness on the server with the fewest free GPUs
///   that takes it whole, and deals another out over the servers that have a GPU.
pub open spec fn planned(
    method: PlacementMethod,
    gpus: Seq<i32>,
    cpus: Seq<i32>,
    demand: Demand,
    skewed: bool,
) -> Option<(Seq<i32>, Seq<i32>)> {
    let all = numbers(gpus.len());
    if !has_room(gpus, cpus, demand) {
        None
    } else {
        match method {
            PlacementMethod::K8sLoadBalancing => complete(
                demand,
                spread(
                    ranked(all, most(gpus), most(gpus)),
                    takes_worker(gpus, cpus, demand),
                    demand.gpu_workers as int,
                ),
                spread(
                    ranked(all, most(cpus), most(gpus)),
                    takes_ps(cpus, demand),
                    demand.ps as int,
                ),
            ),
            PlacementMethod::K8sBinPacking => complete(
                demand,
                filled(
                    ranked(all, least(gpus), least(gpus)),
                    holds_workers(gpus, cpus, demand),
                    demand.gpu_workers as int,
                ),
                spread(
                    ranked(all, least(cpus), least(gpus)),
                    takes_ps(cpus, demand),
                    demand.ps as int,
                ),
            ),
            PlacementMethod::Colocate => together(
                ranked(all, most(gpus), most(gpus)),
                gpus,
                cpus,
                demand,
            ),
            PlacementMethod::Tiresias => if skewed {
                together(ranked(all, least(gpus), least(gpus)), gpus, cpus, demand)
            } else {
                complete(
                    demand,
                    spread(
                        ranked(all, least(gpus), least(gpus)),
                        has_gpu(gpus, cpus, demand),
                        demand.gpu_workers as int,
                    ),
                    spread(
                        ranked(all, most(cpus), least(gpus)),
                        takes_ps(cpus, demand),
                        demand.ps as int,
                    ),
                )
            },
        }
    }
}

/// Whether a method can plan for a job: bin packing divides by what a worker takes.
pub open spec fn plannable(
    method: PlacementMethod,
    gpus: Seq<i32>,
    cpus: Seq<i32>,
    demand: Demand,
) -> bool {
    method is K8sBinPacking && demand.gpu_workers > 0 && has_room(gpus, cpus, demand) ==> {
        &&& demand.gpu_per_worker != 0
        &&& demand.cpu_per_gpu_worker != 0
    }
}

/// The order of the servers by two amounts of theirs.
struct ByAmounts<'a> {
    first: &'a Vec<i32>,
    first_descends: bool,
    second: &'a Vec<i32>,
    second_descends: bool,
}

impl<'a> Ranking for ByAmounts<'a> {
    closed spec fn known(&self, item: i32) -> bool {
        0 <= item < self.first@.len() && item < self.second@.len()
    }

    closed spec fn first(&self) -> spec_fn(i32) -> int {
        if self.first_descends {
            most(self.first@)
        } else {
            least(self.first@)
        }
    }

    closed spec fn second(&self) -> spec_fn(i32) -> int {
        if self.second_descends {
            most(self.second@)
        } else {
            least(self.second@)
        }
    }

    fn at_most(&self, a: i32, b: i32) -> (result: bool) {
        let first_a: i32 = self.first[a as usize];
        let first_b: i32 = self.first[b as usize];
        if first_a != first_b {
            return (first_a < first_b) != self.first_descends;
        }
        let second_a: i32 = self.second[a as usize];
        let second_b: i32 = self.second[b as usize];
        if second_a != second_b {
            return (second_a < second_b) != self.second_descends;
        }
        a <= b
    }
}

/// The servers in the order of two amounts of theirs.
fn servers_by(
    first: &Vec<i32>,
    first_descends: bool,
    second: &Vec<i32>,
    second_descends: bool,
) -> (result: Vec<i32>)
    requires
        first@.len() == second@.len() <= i32::MAX,
    ensures
        result@ == ranked(
            numbers(first@.len()),
            if first_descends {
                most(first@)
            } else {
                least(first@)
            },
            if second_descends {
                most(second@)
            } else {
                least(second@)
            },
        ),
        forall|i: int| 0 <= i < result@.len() ==> 0 <= #[trigger] result@[i] < first@.len(),
        result@.no_duplicates(),
        result@.len() == first@.len(),
{
    let all: Vec<i32> = first_numbers(first.len());
    let order = ByAmounts { first, first_descends, second, second_descends };
    let result: Vec<i32> = rank_items(&all, &order);
    proof {
        lemma_ranked_servers(first@.len(), order.first(), order.second());
    }
    result
}

proof fn lemma_ranked_servers(
    count: nat,
    first: spec_fn(i32) -> int,
    second: spec_fn(i32) -> int,
)
    requires
        count <= i32::MAX,
    ensures
        ({
            let order = ranked(numbers(count), first, second);
            &&& forall|i: int| 0 <= i < order.len() ==> 0 <= #[trigger] order[i] < count
            &&& order.no_duplicates()
            &&& order.len() == count
        }),
{
    let all = numbers(count);
    let order = ranked(all, first, second);
    ranked_is_sorted(all, first, second);
    assert forall|i: int| 0 <= i < order.len() implies 0 <= #[trigger] order[i] < count by {
        assert(order.contains(order[i]));
        assert(all.contains(order[i]));
    }
}

/// Which servers take a task in a round: those that are marked, as long as
/// what they have makes up one step for each round.
struct Slots {
    marked: Vec<bool>,
    room: Vec<i32>,
    step: i32,
}

impl Slots {
    spec fn fits(&self) -> spec_fn(i32, int) -> bool {
        |server: i32, round: int|
            self.marked@[server as int] && self.room@[server as int] >= (round + 1) * self.step
    }
}

proof fn lemma_filter_congruent(
    order: Seq<i32>,
    a: spec_fn(i32) -> bool,
    b: spec_fn(i32) -> bool,
)
    requires
        forall|i: int| 0 <= i < order.len() ==> a(#[trigger] order[i]) == b(order[i]),
    ensures
        order.filter(a) == order.filter(b),
    decreases order.len(),
{
    reveal(Seq::filter);
    if order.len() > 0 {
        let rest = order.drop_last();
        assert forall|i: int| 0 <= i < rest.len() implies a(#[trigger] rest[i]) == b(rest[i]) by {
            assert(rest[i] == order[i]);
        }
        lemma_filter_congruent(rest, a, b);
        assert(order[order.len() - 1] == order.last());
    }
}

/// Rounds depend only on which servers fit.
proof fn lemma_rounds_congruent(
    order: Seq<i32>,
    a: spec_fn(i32, int) -> bool,
    b: spec_fn(i32, int) -> bool,
    count: nat,
)
    requires
        forall|i: int, round: int|
            0 <= i < order.len() && 0 <= round ==> a(#[trigger] order[i], round) == #[trigger] b(
                order[i],
                round,
            ),
    ensures
        rounds(order, a, count) == rounds(order, b, count),
    decreases count,
{
    if count > 0 {
        let last = count - 1;
        lemma_rounds_congruent(order, a, b, last as nat);
        assert forall|i: int| 0 <= i < order.len() implies (|server: i32| a(server, last))(
            #[trigger] order[i],
        ) == (|server: i32| b(server, last))(order[i]) by {
            assert(a(order[i], last) == b(order[i], last));
        }
        lemma_filter_congruent(
            order,
            |server: i32| a(server, last),
            |server: i32| b(server, last),
        );
    }
}

/// Later rounds only add.
proof fn lemma_rounds_prefix(
    order: Seq<i32>,
    fits: spec_fn(i32, int) -> bool,
    early: nat,
    late: nat,
)
    requires
        early <= late,
    ensures
        rounds(order, fits, early).is_prefix_of(rounds(order, fits, late)),
    decreases late,
{
    if early < late {
        lemma_rounds_prefix(order, fits, early, (late - 1) as nat);
    }
}

/// What a round picks among the first servers it picks first.
proof fn lemma_filter_prefix(order: Seq<i32>, fits: spec_fn(i32) -> bool, i: int)
    requires
        0 <= i <= order.len(),
    ensures
        order.take(i).filter(fits).is_prefix_of(order.filter(fits)),
{
    assert(order =~= order.take(i) + order.skip(i));
    Seq::filter_distributes_over_add(order.take(i), order.skip(i), fits);
}

/// Deals `count` tasks out in rounds.
fn deal(order: &Vec<i32>, slots: &Slots, count: i32) -> (result: Vec<i32>)
    requires
        slots.marked@.len() == slots.room@.len(),
        forall|i: int| 0 <= i < order@.len() ==> 0 <= #[trigger] order@[i] < slots.marked@.len(),
    ensures
        result@ == spread(order@, slots.fits(), count as int),
{
    let ghost fits = slots.fits();
    let mut result: Vec<i32> = Vec::new();
    let mut round: i32 = 0;
    while round < count && result.len() < count as usize
        invariant
            0 <= round,
            round <= count || count <= 0,
            fits == slots.fits(),
            slots.marked@.len() == slots.room@.len(),
            forall|i: int|
                0 <= i < order@.len() ==> 0 <= #[trigger] order@[i] < slots.marked@.len(),
            count <= 0 ==> result@.len() == 0,
            count > 0 ==> result@.len() <= count,
            count > 0 && result@.len() < count ==> result@ == rounds(order@, fits, round as nat),
            count > 0 ==> result@.is_prefix_of(rounds(order@, fits, count as nat)),
        decreases count - round,
    {
        let ghost now = |server: i32| fits(server, round as int);
        let ghost before = rounds(order@, fits, round as nat);
        let ghost after = rounds(order@, fits, (round + 1) as nat);
        let mut i: usize = 0;
        proof {
            lemma_rounds_prefix(order@, fits, (round + 1) as nat, count as nat);
            reveal(Seq::filter);
            assert(order@.take(0) =~= Seq::<i32>::empty());
            assert(before + order@.take(0).filter(now) =~= before);
        }
        while i < order.len() && result.len() < count as usize
            invariant
                i <= order@.len(),
                0 <= round < count,
                fits == slots.fits(),
                now == (|server: i32| fits(server, round as int)),
                slots.marked@.len() == slots.room@.len(),
                forall|k: int|
                    0 <= k < order@.len() ==> 0 <= #[trigger] order@[k] < slots.marked@.len(),
                before == rounds(order@, fits, round as nat),
                after == before + order@.filter(now),
                result@.len() <= count,
                result@ == before + order@.take(i as int).filter(now),
                result@.is_prefix_of(after),
            decreases order@.len() - i,
        {
            let server: usize = order[i] as usize;
            let needed: i128 = wide(round, slots.step) + slots.step as i128;
            proof {
                reveal(Seq::filter);
                assert(order@.take(i + 1).drop_last() =~= order@.take(i as int));
                lemma_filter_prefix(order@, now, i + 1);
                assert((round + 1) * slots.step == needed) by (nonlinear_arith)
                    requires
                        needed == round * slots.step + slots.step,
                ;
            }
            if slots.marked[server] && slots.room[server] as i128 >= needed {
                assert(now(order@[i as int]));
                result.push(order[i]);
                assert(result@ =~= before + order@.take(i + 1).filter(now));
            } else {
                assert(!now(order@[i as int]));
            }
            i += 1;
        }
        if i == order.len() {
            assert(order@.take(i as int) =~= order@);
        }
        round += 1;
    }
    proof {
        if count > 0 {
            let picked = rounds(order@, fits, count as nat);
            if result@.len() < count {
                assert(round == count);
                assert(result@ == picked);
            } else {
                assert(result@ =~= picked.take(count as int));
                if picked.len() == count {
                    assert(picked.take(count as int) =~= picked);
                }
            }
        } else {
            assert(result@ =~= Seq::empty());
        }
    }
    result
}

/// Deals out the workers of a job by load balancing.
fn balance(order: &Vec<i32>, gpus: &Vec<i32>, cpus: &Vec<i32>, demand: Demand) -> (result: Vec<i32>)
    requires
        gpus@.len() == cpus@.len(),
        forall|i: int| 0 <= i < order@.len() ==> 0 <= #[trigger] order@[i] < gpus@.len(),
    ensures
        result@ == spread(
            order@,
            takes_worker(gpus@, cpus@, demand),
            demand.gpu_workers as int,
        ),
{
    let mut marked: Vec<bool> = Vec::new();
    let mut room: Vec<i32> = Vec::new();
    let mut i: usize = 0;
    while i < gpus.len()
        invariant
            i <= gpus@.len(),
            gpus@.len() == cpus@.len(),
            room@ == gpus@.take(i as int),
            marked@.len() == i,
            forall|j: int|
                0 <= j < i ==> #[trigger] marked@[j] == (gpus@[j] >= demand.gpu_per_worker
                    && cpus@[j] >= demand.cpu_per_gpu_worker),
        decreases gpus@.len() - i,
    {
        marked.push(gpus[i] >= demand.gpu_per_worker && cpus[i] >= demand.cpu_per_gpu_worker);
        room.push(gpus[i]);
        assert(gpus@.take(i + 1) =~= gpus@.take(i as int).push(gpus@[i as int]));
        i += 1;
    }
    assert(gpus@.take(i as int) =~= gpus@);
    let slots = Slots { marked, room, step: demand.gpu_per_worker };
    proof {
        if demand.gpu_workers > 0 {
            lemma_rounds_congruent(
                order@,
                slots.fits(),
                takes_worker(gpus@, cpus@, demand),
                demand.gpu_workers as nat,
            );
        }
    }
    deal(order, &slots, demand.gpu_workers)
}

/// Deals `count` tasks out to the servers that are marked.
fn deal_marked(order: &Vec<i32>, marked: Vec<bool>, count: i32) -> (result: Vec<i32>)
    requires
        forall|i: int| 0 <= i < order@.len() ==> 0 <= #[trigger] order@[i] < marked@.len(),
    ensures
        result@ == spread(
            order@,
            |server: i32, round: int| marked@[server as int],
            count as int,
        ),
{
    let mut room: Vec<i32> = Vec::new();
    while room.len() < marked.len()
        invariant
            room@.len() <= marked@.len(),
            forall|j: int| 0 <= j < room@.len() ==> room@[j] == 0,
        decreases marked@.len() - room@.len(),
    {
        room.push(0);
    }
    let slots = Slots { marked, room, step: 0 };
    proof {
        if count > 0 {
            lemma_rounds_congruent(
                order@,
                slots.fits(),
                |server: i32, round: int| marked@[server as int],
                count as nat,
            );
        }
    }
    deal(order, &slots, count)
}

/// Deals out the parameter servers of a job.
fn deal_ps(order: &Vec<i32>, cpus: &Vec<i32>, demand: Demand) -> (result: Vec<i32>)
    requires
        forall|i: int| 0 <= i < order@.len() ==> 0 <= #[trigger] order@[i] < cpus@.len(),
    ensures
        result@ == spread(order@, takes_ps(cpus@, demand), demand.ps as int),
{
    let mut marked: Vec<bool> = Vec::new();
    let mut i: usize = 0;
    while i < cpus.len()
        invariant
            i <= cpus@.len(),
            marked@.len() == i,
            forall|j: int| 0 <= j < i ==> #[trigger] marked@[j] == (cpus@[j] >= demand.cpu_per_ps),
        decreases cpus@.len() - i,
    {
        marked.push(cpus[i] >= demand.cpu_per_ps);
        i += 1;
    }
    proof {
        if demand.ps > 0 {
            lemma_rounds_congruent(
                order@,
                |server: i32, round: int| marked@[server as int],
                takes_ps(cpus@, demand),
                demand.ps as nat,
            );
        }
    }
    deal_marked(order, marked, demand.ps)
}

/// Deals out the workers of a job over the servers that have a GPU.
fn distribute(
    order: &Vec<i32>,
    gpus: &Vec<i32>,
    cpus: &Vec<i32>,
    demand: Demand,
) -> (result: Vec<i32>)
    requires
        gpus@.len() == cpus@.len(),
        forall|i: int| 0 <= i < order@.len() ==> 0 <= #[trigger] order@[i] < gpus@.len(),
    ensures
        result@ == spread(order@, has_gpu(gpus@, cpus@, demand), demand.gpu_workers as int),
{
    let mut marked: Vec<bool> = Vec::new();
    let mut i: usize = 0;
    while i < cpus.len()
        invariant
            i <= cpus@.len(),
            gpus@.len() == cpus@.len(),
            marked@.len() == i,
            forall|j: int|
                0 <= j < i ==> #[trigger] marked@[j] == (gpus@[j] > 0 && cpus@[j]
                    >= demand.cpu_per_gpu_worker),
        decreases cpus@.len() - i,
    {
        marked.push(gpus[i] > 0 && cpus[i] >= demand.cpu_per_gpu_worker);
        i += 1;
    }
    proof {
        if demand.gpu_workers > 0 {
            lemma_rounds_congruent(
                order@,
                |server: i32, round: int| marked@[server as int],
                has_gpu(gpus@, cpus@, demand),
                demand.gpu_workers as nat,
            );
        }
    }
    deal_marked(order, marked, demand.gpu_workers)
}

/// Adds a server to a list, as often as given.
fn push_repeated(list: &mut Vec<i32>, server: i32, count: i64)
    ensures
        final(list)@ == old(list)@ + repeated(server, count as int),
{
    let mut i: i64 = 0;
    while i < count
        invariant
            0 <= i,
            i <= count || count <= 0 && i == 0,
            list@ == old(list)@ + repeated(server, i as int),
        decreases count - i,
    {
        list.push(server);
        i += 1;
        assert(list@ =~= old(list)@ + repeated(server, i as int));
    }
    assert(repeated(server, count as int) =~= repeated(server, i as int));
}

/// Fills the servers one after the other with the workers of a job.
fn pack(order: &Vec<i32>, gpus: &Vec<i32>, cpus: &Vec<i32>, demand: Demand) -> (result: Vec<i32>)
    requires
        gpus@.len() == cpus@.len(),
        order@.len() <= i32::MAX,
        forall|i: int| 0 <= i < order@.len() ==> 0 <= #[trigger] order@[i] < gpus@.len(),
        demand.gpu_workers > 0 ==> demand.gpu_per_worker != 0 && demand.cpu_per_gpu_worker != 0,
    ensures
        result@ == filled(
            order@,
            holds_workers(gpus@, cpus@, demand),
            demand.gpu_workers as int,
        ),
{
    let ghost holds = holds_workers(gpus@, cpus@, demand);
    let mut result: Vec<i32> = Vec::new();
    let mut remaining: i64 = demand.gpu_workers as i64;
    let mut i: usize = 0;
    assert(order@.skip(0) =~= order@);
    assert(result@ + filled(order@, holds, remaining as int) =~= filled(
        order@,
        holds,
        remaining as int,
    ));
    while i < order.len() && remaining > 0
        invariant
            i <= order@.len() <= i32::MAX,
            gpus@.len() == cpus@.len(),
            holds == holds_workers(gpus@, cpus@, demand),
            forall|k: int| 0 <= k < order@.len() ==> 0 <= #[trigger] order@[k] < gpus@.len(),
            demand.gpu_workers > 0 ==> demand.gpu_per_worker != 0 && demand.cpu_per_gpu_worker
                != 0,
            remaining > 0 ==> demand.gpu_workers > 0,
            remaining <= 0x8000_0000 * (i + 1),
            result@ + filled(order@.skip(i as int), holds, remaining as int) == filled(
                order@,
                holds,
                demand.gpu_workers as int,
            ),
        decreases order@.len() - i,
    {
        let server: i32 = order[i];
        let by_gpu: i128 = divide(
            gpus[server as usize] as i64,
            demand.gpu_per_worker as i64,
        );
        let by_cpu: i128 = divide(
            cpus[server as usize] as i64,
            demand.cpu_per_gpu_worker as i64,
        );
        let capacity: i64 = if by_cpu < by_gpu {
            by_cpu as i64
        } else {
            by_gpu as i64
        };
        let taken: i64 = if capacity < remaining {
            capacity
        } else {
            remaining
        };
        let ghost before = result@;
        push_repeated(&mut result, server, taken);
        proof {
            let rest = order@.skip(i as int);
            assert(rest.first() == server);
            assert(rest.drop_first() =~= order@.skip(i + 1));
            assert(holds(server) == capacity);
            let tail = filled(order@.skip(i + 1), holds, remaining - taken);
            assert(filled(rest, holds, remaining as int) == repeated(server, taken as int) + tail);
            assert(result@ + tail =~= before + filled(rest, holds, remaining as int));
        }
        remaining = remaining - taken;
        i += 1;
    }
    assert(filled(order@.skip(i as int), holds, remaining as int) =~= Seq::<i32>::empty());
    assert(result@ + Seq::<i32>::empty() =~= result@);
    result
}

/// Where the workers and the parameter servers of a job go.
#[derive(Debug, Clone, PartialEq, Eq)]
pub struct Plan {
    /// The server of each worker.
    pub allocated: Vec<i32>,
    /// The server of each parameter server.
    pub ps_allocated: Vec<i32>,
}

/// The servers of a plan, if there is one.
pub open spec fn plan_view(plan: Option<Plan>) -> Option<(Seq<i32>, Seq<i32>)> {
    match plan {
        Some(plan) => Some((plan.allocated@, plan.ps_allocated@)),
        None => None,
    }
}

/// The plan, if all workers and parameter servers got a server.
fn completed(demand: Demand, allocated: Vec<i32>, ps_allocated: Vec<i32>) -> (result: Option<Plan>)
    ensures
        plan_view(result) == complete(demand, allocated@, ps_allocated@),
{
    let all_workers: bool = demand.gpu_workers >= 0 && allocated.len()
        == demand.gpu_workers as usize;
    let all_ps: bool = demand.ps >= 0 && ps_allocated.len() == demand.ps as usize;
    if all_workers && all_ps {
        Some(Plan { allocated, ps_allocated })
    } else {
        None
    }
}

/// Puts the whole job on the first server that takes it.
fn place_together(
    order: &Vec<i32>,
    gpus: &Vec<i32>,
    cpus: &Vec<i32>,
    demand: Demand,
) -> (result: Option<Plan>)
    requires
        gpus@.len() == cpus@.len(),
        forall|i: int| 0 <= i < order@.len() ==> 0 <= #[trigger] order@[i] < gpus@.len(),
    ensures
        plan_view(result) == together(order@, gpus@, cpus@, demand),
{
    let mut allocated: Vec<i32> = Vec::new();
    let mut ps_allocated: Vec<i32> = Vec::new();
    if demand.gpu_workers == 0 {
        assert(allocated@ =~= Seq::empty() && ps_allocated@ =~= Seq::empty());
        return completed(demand, allocated, ps_allocated);
    }
    let ghost able = takes_all(gpus@, cpus@, demand);
    let needed: i128 = demand.needed_cpus();
    let mut i: usize = 0;
    assert(order@.take(0) =~= Seq::<i32>::empty());
    proof {
        reveal(Seq::filter);
    }
    while i < order.len()
        invariant
            i <= order@.len(),
            gpus@.len() == cpus@.len(),
            able == takes_all(gpus@, cpus@, demand),
            needed == demand.cpus(),
            demand.gpu_workers != 0,
            allocated@.len() == 0,
            ps_allocated@.len() == 0,
            forall|k: int| 0 <= k < order@.len() ==> 0 <= #[trigger] order@[k] < gpus@.len(),
            order@.take(i as int).filter(able).len() == 0,
        decreases order@.len() - i,
    {
        let server: i32 = order[i];
        proof {
            reveal(Seq::filter);
            assert(order@.take(i + 1).drop_last() =~= order@.take(i as int));
        }
        if gpus[server as usize] >= demand.gpu_workers && cpus[server as usize] as i128 >= needed {
            proof {
                assert(able(server));
                lemma_filter_prefix(order@, able, i + 1);
                assert(order@.take(i + 1).filter(able)[0] == server);
                assert(order@.filter(able)[0] == server);
            }
            push_repeated(&mut allocated, server, demand.gpu_workers as i64);
            push_repeated(&mut ps_allocated, server, demand.ps as i64);
            assert(allocated@ =~= repeated(server, demand.gpu_workers as int));
            assert(ps_allocated@ =~= repeated(server, demand.ps as int));
            return completed(demand, allocated, ps_allocated);
        }
        i += 1;
    }
    assert(order@.take(i as int) =~= order@);
    None
}

/// Whether the servers together have as many free GPUs as the job has workers, and as many
/// free CPU cores as it needs.
pub fn enough_room(gpus: &Vec<i32>, cpus: &Vec<i32>, demand: Demand) -> (result: bool)
    ensures
        result == has_room(gpus@, cpus@, demand),
{
    demand.gpu_workers as i128 <= sum_of(gpus) && demand.needed_cpus() <= sum_of(cpus)
}

/// Plans where the workers and the parameter servers of a job go.
pub fn plan_placement(
    method: PlacementMethod,
    gpus: &Vec<i32>,
    cpus: &Vec<i32>,
    demand: Demand,
    skewed: bool,
) -> (result: Option<Plan>)
    requires
        gpus@.len() == cpus@.len() <= i32::MAX,
        plannable(method, gpus@, cpus@, demand),
    ensures
        plan_view(result) == planned(method, gpus@, cpus@, demand, skewed),
{
    if !enough_room(gpus, cpus, demand) {
        return None;
    }
    match method {
        PlacementMethod::K8sLoadBalancing => {
            let order: Vec<i32> = servers_by(gpus, true, gpus, true);
            let allocated: Vec<i32> = balance(&order, gpus, cpus, demand);
            // Place PSs -- more cpu core servers first
            let ps_order: Vec<i32> = servers_by(cpus, true, gpus, true);
            let ps_allocated: Vec<i32> = deal_ps(&ps_order, cpus, demand);
            completed(demand, allocated, ps_allocated)
        },
        PlacementMethod::K8sBinPacking => {
            let order: Vec<i32> = servers_by(gpus, false, gpus, false);
            let allocated: Vec<i32> = pack(&order, gpus, cpus, demand);
            // Place PSs -- least cpu core servers first
            let ps_order: Vec<i32> = servers_by(cpus, false, gpus, false);
            let ps_allocated: Vec<i32> = deal_ps(&ps_order, cpus, demand);
            completed(demand, allocated, ps_allocated)
        },
        PlacementMethod::Colocate => {
            let order: Vec<i32> = servers_by(gpus, true, gpus, true);
            place_together(&order, gpus, cpus, demand)
        },
        PlacementMethod::Tiresias => {
            let order: Vec<i32> = servers_by(gpus, false, gpus, false);
            if skewed {
                place_together(&order, gpus, cpus, demand)
            } else {
                let allocated: Vec<i32> = distribute(&order, gpus, cpus, demand);
                // Place PSs -- more cpu core servers first
                let ps_order: Vec<i32> = servers_by(cpus, true, gpus, false);
                let ps_allocated: Vec<i32> = deal_ps(&ps_order, cpus, demand);
                completed(demand, allocated, ps_allocated)
            }
        },
    }
}

/// How often a server occurs in two lists, one behind the other.
proof fn lemma_occurrences_add(a: Seq<i32>, b: Seq<i32>, value: i32)
    ensures
        occurrences(a + b, value) == occurrences(a, value) + occurrences(b, value),
    decreases b.len(),
{
    if b.len() == 0 {
        assert(a + b =~= a);
    } else {
        assert((a + b).drop_last() =~= a + b.drop_last());
        lemma_occurrences_add(a, b.drop_last(), value);
    }
}

/// A value occurs no more often in a part of a list.
proof fn lemma_occurrences_prefix(part: Seq<i32>, whole: Seq<i32>, value: i32)
    requires
        part.is_prefix_of(whole),
    ensures
        occurrences(part, value) <= occurrences(whole, value),
{
    assert(whole =~= part + whole.skip(part.len() as int));
    lemma_occurrences_add(part, whole.skip(part.len() as int), value);
}

/// A list without duplicates holds a value once at most, also where only some
/// of its items are kept.
proof fn lemma_occurrences_once(order: Seq<i32>, fits: spec_fn(i32) -> bool, value: i32)
    requires
        order.no_duplicates(),
    ensures
        occurrences(order.filter(fits), value) <= 1,
        occurrences(order.filter(fits), value) > 0 ==> fits(value) && order.contains(value),
    decreases order.len(),
{
    reveal(Seq::filter);
    if order.len() > 0 {
        let rest = order.drop_last();
        lemma_occurrences_once(rest, fits, value);
        let kept = rest.filter(fits);
        assert(kept.push(order.last()).drop_last() =~= kept);
        if order.last() == value {
            if occurrences(kept, value) > 0 {
                let i = choose|i: int| 0 <= i < rest.len() && rest[i] == value;
                assert(order[i] == order[order.len() - 1]);
            }
            assert(order[order.len() - 1] == value);
        } else if rest.contains(value) {
            let i = choose|i: int| 0 <= i < rest.len() && rest[i] == value;
            assert(order[i] == value);
        }
    }
}

proof fn lemma_repeated(server: i32, count: int, value: i32)
    ensures
        occurrences(repeated(server, count), value) == if count > 0 && server == value {
            count
        } else {
            0
        },
    decreases count,
{
    if count > 0 {
        lemma_repeated(server, count - 1, value);
        assert(repeated(server, count).drop_last() =~= repeated(server, count - 1));
        assert(repeated(server, count).last() == server);
    }
}

/// Rounds name only servers of the order that fit.
proof fn lemma_rounds_named(
    order: Seq<i32>,
    fits: spec_fn(i32, int) -> bool,
    count: nat,
    server: i32,
)
    requires
        order.no_duplicates(),
    ensures
        occurrences(rounds(order, fits, count), server) <= count,
        occurrences(rounds(order, fits, count), server) > 0 ==> order.contains(server) && exists|
            round: int,
        |
            0 <= round < count && #[trigger] fits(server, round) && occurrences(
                rounds(order, fits, count),
                server,
            ) <= round + 1,
    decreases count,
{
    if count > 0 {
        let last = count - 1;
        let now = |s: i32| fits(s, last);
        lemma_rounds_named(order, fits, last as nat, server);
        lemma_occurrences_once(order, now, server);
        lemma_occurrences_add(rounds(order, fits, last as nat), order.filter(now), server);
        if occurrences(order.filter(now), server) > 0 {
            assert(fits(server, last));
        } else if occurrences(rounds(order, fits, count), server) > 0 {
            let round = choose|round: int|
                0 <= round < last && #[trigger] fits(server, round) && occurrences(
                    rounds(order, fits, last as nat),
                    server,
                ) <= round + 1;
            assert(fits(server, round));
        }
    }
}

/// A spread names only servers of the order that fit.
proof fn lemma_spread_named(
    order: Seq<i32>,
    fits: spec_fn(i32, int) -> bool,
    count: int,
    server: i32,
)
    requires
        order.no_duplicates(),
    ensures
        occurrences(spread(order, fits, count), server) > 0 ==> order.contains(server) && exists|
            round: int,
        |
            0 <= round && #[trigger] fits(server, round) && occurrences(
                spread(order, fits, count),
                server,
            ) <= round + 1,
{
    if count > 0 {
        let picked = rounds(order, fits, count as nat);
        lemma_rounds_named(order, fits, count as nat, server);
        lemma_occurrences_prefix(spread(order, fits, count), picked, server);
        if occurrences(spread(order, fits, count), server) > 0 {
            let round = choose|round: int|
                0 <= round < count && #[trigger] fits(server, round) && occurrences(
                    picked,
                    server,
                ) <= round + 1;
            assert(fits(server, round));
        }
    }
}

/// Filling puts on no server more than it holds.
proof fn lemma_filled_named(
    order: Seq<i32>,
    holds: spec_fn(i32) -> int,
    remaining: int,
    server: i32,
)
    requires
        order.no_duplicates(),
    ensures
        occurrences(filled(order, holds, remaining), server) > 0 ==> order.contains(server)
            && occurrences(filled(order, holds, remaining), server) <= holds(server),
    decreases order.len(),
{
    if order.len() > 0 && remaining > 0 {
        let taken = if holds(order.first()) < remaining {
            holds(order.first())
        } else {
            remaining
        };
        let rest = order.drop_first();
        assert(rest.no_duplicates()) by {
            assert forall|i: int, j: int| 0 <= i < rest.len() && 0 <= j < rest.len() && i
                != j implies rest[i] != rest[j] by {
                assert(order[i + 1] != order[j + 1]);
            }
        }
        lemma_filled_named(rest, holds, remaining - taken, server);
        lemma_repeated(order.first(), taken, server);
        lemma_occurrences_add(
            repeated(order.first(), taken),
            filled(rest, holds, remaining - taken),
            server,
        );
        if rest.contains(server) {
            let i = choose|i: int| 0 <= i < rest.len() && rest[i] == server;
            assert(order[i + 1] == server);
            assert(order[0] != order[i + 1]);
        }
        if order.first() == server {
            assert(order[0] == server);
        }
    }
}

/// A division that rounds toward zero does not exceed the quotient.
proof fn lemma_quotient_bound(amount: int, unit: int, count: int)
    requires
        unit > 0,
        0 < count <= truncating_quotient(amount, unit),
    ensures
        count * unit <= amount,
{
    let size = vstd::math::abs(amount) as int / unit;
    assert(amount >= 0) by {
        if amount < 0 {
            assert(size >= 0) by (nonlinear_arith)
                requires
                    size == vstd::math::abs(amount) as int / unit,
                    unit > 0,
            ;
        }
    }
    assert(count * unit <= amount) by (nonlinear_arith)
        requires
            count <= amount / unit,
            unit > 0,
            amount >= 0,
    ;
}

/// A plan gives every worker and every parameter server of the job a server of the cluster.
pub proof fn plans_are_complete(
    method: PlacementMethod,
    gpus: Seq<i32>,
    cpus: Seq<i32>,
    demand: Demand,
    skewed: bool,
)
    requires
        gpus.len() == cpus.len() <= i32::MAX,
    ensures
        planned(method, gpus, cpus, demand, skewed) matches Some((allocated, ps_allocated)) ==> {
            &&& allocated.len() == demand.gpu_workers
            &&& ps_allocated.len() == demand.ps
            &&& forall|server: i32| #[trigger]
                allocated.contains(server) ==> 0 <= server < gpus.len()
            &&& forall|server: i32| #[trigger]
                ps_allocated.contains(server) ==> 0 <= server < gpus.len()
        },
{
    if let Some((allocated, ps_allocated)) = planned(method, gpus, cpus, demand, skewed) {
        assert forall|server: i32| #[trigger] allocated.contains(server) implies 0 <= server
            < gpus.len() by {
            lemma_plan_named(method, gpus, cpus, demand, skewed, server);
        }
        assert forall|server: i32| #[trigger] ps_allocated.contains(server) implies 0 <= server
            < gpus.len() by {
            lemma_plan_named(method, gpus, cpus, demand, skewed, server);
        }
    }
}

proof fn lemma_plan_named(
    method: PlacementMethod,
    gpus: Seq<i32>,
    cpus: Seq<i32>,
    demand: Demand,
    skewed: bool,
    server: i32,
)
    requires
        gpus.len() == cpus.len() <= i32::MAX,
    ensures
        planned(method, gpus, cpus, demand, skewed) matches Some((allocated, ps_allocated)) ==> {
            &&& allocated.contains(server) ==> 0 <= server < gpus.len()
            &&& ps_allocated.contains(server) ==> 0 <= server < gpus.len()
        },
{
    if let Some((allocated, ps_allocated)) = planned(method, gpus, cpus, demand, skewed) {
        let n = gpus.len();
        let order = match method {
            PlacementMethod::K8sLoadBalancing | PlacementMethod::Colocate => ranked(
                numbers(n),
                most(gpus),
                most(gpus),
            ),
            _ => ranked(numbers(n), least(gpus), least(gpus)),
        };
        let ps_order = match method {
            PlacementMethod::K8sLoadBalancing => ranked(numbers(n), most(cpus), most(gpus)),
            PlacementMethod::K8sBinPacking => ranked(numbers(n), least(cpus), least(gpus)),
            _ => ranked(numbers(n), most(cpus), least(gpus)),
        };
        lemma_ranked_servers(n, most(gpus), most(gpus));
        lemma_ranked_servers(n, least(gpus), least(gpus));
        lemma_ranked_servers(n, most(cpus), most(gpus));
        lemma_ranked_servers(n, least(cpus), least(gpus));
        lemma_ranked_servers(n, most(cpus), least(gpus));
        lemma_occurrences(allocated, server);
        lemma_occurrences(ps_allocated, server);
        lemma_spread_named(order, takes_worker(gpus, cpus, demand), demand.gpu_workers as int, server);
        lemma_spread_named(order, has_gpu(gpus, cpus, demand), demand.gpu_workers as int, server);
        lemma_filled_named(
            order,
            holds_workers(gpus, cpus, demand),
            demand.gpu_workers as int,
            server,
        );
        lemma_spread_named(ps_order, takes_ps(cpus, demand), demand.ps as int, server);
        lemma_together_named(order, gpus, cpus, demand, server);
    }
}

/// Colocation names only servers of the order.
proof fn lemma_together_named(
    order: Seq<i32>,
    gpus: Seq<i32>,
    cpus: Seq<i32>,
    demand: Demand,
    server: i32,
)
    ensures
        together(order, gpus, cpus, demand) matches Some((allocated, ps_allocated)) ==> {
            &&& allocated.contains(server) ==> order.contains(server)
            &&& ps_allocated.contains(server) ==> order.contains(server)
        },
{
    let fits = takes_all(gpus, cpus, demand);
    let able = order.filter(fits);
    if able.len() > 0 {
        assert(able.contains(able[0]));
        order.lemma_filter_contains_rev(fits, able[0]);
    }
}

/// Load balancing and bin packing give no server more workers than its free
/// GPUs hold, and bin packing no more than its free cores hold.
pub proof fn workers_fit_the_free_gpus(
    method: PlacementMethod,
    gpus: Seq<i32>,
    cpus: Seq<i32>,
    demand: Demand,
    skewed: bool,
    server: i32,
)
    requires
        gpus.len() == cpus.len() <= i32::MAX,
        0 <= server < gpus.len(),
        method is K8sLoadBalancing || method is K8sBinPacking && demand.gpu_per_worker > 0
            && demand.cpu_per_gpu_worker > 0,
    ensures
        planned(method, gpus, cpus, demand, skewed) matches Some((allocated, ps_allocated)) ==> (
        allocated.contains(server) ==> {
            &&& occurrences(allocated, server) * demand.gpu_per_worker <= gpus[server as int]
            &&& method is K8sBinPacking ==> occurrences(allocated, server)
                * demand.cpu_per_gpu_worker <= cpus[server as int]
        }),
{
    if let Some((allocated, ps_allocated)) = planned(method, gpus, cpus, demand, skewed) {
        let n = gpus.len();
        lemma_occurrences(allocated, server);
        let times = occurrences(allocated, server) as int;
        if times > 0 {
            if method is K8sLoadBalancing {
                let order = ranked(numbers(n), most(gpus), most(gpus));
                let fits = takes_worker(gpus, cpus, demand);
                lemma_ranked_servers(n, most(gpus), most(gpus));
                lemma_spread_named(order, fits, demand.gpu_workers as int, server);
                let round = choose|round: int|
                    0 <= round && #[trigger] fits(server, round) && times <= round + 1;
                let unit = demand.gpu_per_worker as int;
                let amount = gpus[server as int] as int;
                assert(times * unit <= amount) by (nonlinear_arith)
                    requires
                        0 < times <= round + 1,
                        amount >= unit,
                        amount >= (round + 1) * unit,
                ;
            } else {
                let order = ranked(numbers(n), least(gpus), least(gpus));
                let holds = holds_workers(gpus, cpus, demand);
                lemma_ranked_servers(n, least(gpus), least(gpus));
                lemma_filled_named(order, holds, demand.gpu_workers as int, server);
                lemma_quotient_bound(
                    gpus[server as int] as int,
                    demand.gpu_per_worker as int,
                    times,
                );
                lemma_quotient_bound(
                    cpus[server as int] as int,
                    demand.cpu_per_gpu_worker as int,
                    times,
                );
            }
        }
    }
}

/// Colocation puts all workers and parameter servers of a job on one server.
pub proof fn colocation_uses_one_server(
    gpus: Seq<i32>,
    cpus: Seq<i32>,
    demand: Demand,
    skewed: bool,
)
    ensures
        planned(PlacementMethod::Colocate, gpus, cpus, demand, skewed) matches Some(
            (allocated, ps_allocated),
        ) ==> exists|server: i32| #[trigger]
            repeated(server, demand.gpu_workers as int) == allocated && repeated(
                server,
                demand.ps as int,
            ) == ps_allocated,
{
    if let Some((allocated, ps_allocated)) = planned(
        PlacementMethod::Colocate,
        gpus,
        cpus,
        demand,
        skewed,
    ) {
        if demand.gpu_workers == 0 {
            assert(repeated(0, 0) =~= allocated);
            assert(repeated(0, 0) =~= ps_allocated);
        } else {
            let order = ranked(numbers(gpus.len()), most(gpus), most(gpus));
            let able = order.filter(takes_all(gpus, cpus, demand));
            assert(repeated(able[0], demand.gpu_workers as int) == allocated);
        }
    }
}

/// The first of the servers of an order that take a job whole stands before the others.
proof fn lemma_first_able(order: Seq<i32>, able: spec_fn(i32) -> bool)
    ensures
        order.filter(able).len() == 0 ==> forall|i: int|
            0 <= i < order.len() ==> !able(#[trigger] order[i]),
        order.filter(able).len() > 0 ==> exists|k: int|
            0 <= k < order.len() && #[trigger] order[k] == order.filter(able)[0] && able(order[k])
                && forall|i: int| 0 <= i < k ==> !able(#[trigger] order[i]),
    decreases order.len(),
{
    reveal(Seq::filter);
    if order.len() > 0 {
        let rest = order.drop_last();
        let last = order.len() - 1;
        lemma_first_able(rest, able);
        assert forall|i: int| 0 <= i < last implies #[trigger] order[i] == rest[i] by {}
        if rest.filter(able).len() > 0 {
            let k = choose|k: int|
                0 <= k < rest.len() && #[trigger] rest[k] == rest.filter(able)[0] && able(rest[k])
                    && forall|i: int| 0 <= i < k ==> !able(#[trigger] rest[i]);
            assert(order[k] == rest[k]);
            assert(order.filter(able)[0] == rest.filter(able)[0]);
            assert forall|i: int| 0 <= i < k implies !able(#[trigger] order[i]) by {
                assert(!able(rest[i]));
            }
        } else {
            assert forall|i: int| 0 <= i < last implies !able(#[trigger] order[i]) by {
                assert(!able(rest[i]));
            }
            if able(order[last]) {
                assert(order.filter(able) =~= seq![order[last]]);
            }
        }
    }
}

/// A job that has workers and is colocated goes whole to one server, which has a free GPU for
/// each worker and as many free cores as all its workers and parameter servers take. Of the
/// servers that have both, colocation takes the one with the most free GPUs, and Tiresias, for
/// a skewed job, the one with the fewest; the one with the lowest number of these. There is no
/// plan only where no server has both, or all servers together have too little.
pub proof fn colocated_jobs_fit_their_server(
    method: PlacementMethod,
    gpus: Seq<i32>,
    cpus: Seq<i32>,
    demand: Demand,
    skewed: bool,
)
    requires
        gpus.len() == cpus.len() <= i32::MAX,
        demand.gpu_workers > 0,
        demand.ps >= 0,
        method is Colocate || method is Tiresias && skewed,
    ensures
        ({
            let cores = demand.gpu_workers * demand.cpu_per_gpu_worker + demand.ps
                * demand.cpu_per_ps;
            match planned(method, gpus, cpus, demand, skewed) {
                Some((allocated, ps_allocated)) => {
                    let server = allocated[0] as int;
                    &&& 0 <= server < gpus.len()
                    &&& allocated.len() == demand.gpu_workers
                    &&& ps_allocated.len() == demand.ps
                    &&& forall|i: int|
                        0 <= i < allocated.len() ==> #[trigger] allocated[i] == server
                    &&& forall|i: int|
                        0 <= i < ps_allocated.len() ==> #[trigger] ps_allocated[i] == server
                    &&& gpus[server] >= demand.gpu_workers
                    &&& cpus[server] >= cores
                    &&& forall|other: int|
                        0 <= other < gpus.len() && other != server && #[trigger] gpus[other]
                            >= demand.gpu_workers && cpus[other] >= cores ==> {
                            ||| method is Colocate && gpus[other] < gpus[server]
                            ||| method is Tiresias && gpus[other] > gpus[server]
                            ||| gpus[other] == gpus[server] && server < other
                        }
                },
                None => {
                    ||| demand.gpu_workers > total(gpus)
                    ||| cores > total(cpus)
                    ||| forall|other: int|
                        0 <= other < gpus.len() ==> #[trigger] gpus[other] < demand.gpu_workers
                            || cpus[other] < cores
                },
            }
        }),
{
    let cores = demand.gpu_workers * demand.cpu_per_gpu_worker + demand.ps * demand.cpu_per_ps;
    let n = gpus.len();
    let key = if method is Colocate {
        most(gpus)
    } else {
        least(gpus)
    };
    let order = ranked(numbers(n), key, key);
    let able = takes_all(gpus, cpus, demand);
    lemma_ranked_servers(n, key, key);
    ranked_is_sorted(numbers(n), key, key);
    lemma_first_able(order, able);
    if has_room(gpus, cpus, demand) {
        if order.filter(able).len() > 0 {
            let k = choose|k: int|
                0 <= k < order.len() && #[trigger] order[k] == order.filter(able)[0] && able(
                    order[k],
                ) && forall|i: int| 0 <= i < k ==> !able(#[trigger] order[i]);
            let server = order[k] as int;
            assert(planned(method, gpus, cpus, demand, skewed) == Some(
                (
                    repeated(order[k], demand.gpu_workers as int),
                    repeated(order[k], demand.ps as int),
                ),
            ));
            assert forall|other: int|
                0 <= other < gpus.len() && other != server && #[trigger] gpus[other]
                    >= demand.gpu_workers && cpus[other] >= cores implies {
                ||| method is Colocate && gpus[other] < gpus[server]
                ||| method is Tiresias && gpus[other] > gpus[server]
                ||| gpus[other] == gpus[server] && server < other
            } by {
                let i = lemma_place(n, key, key, other as i32);
                assert(able(order[i]));
                assert(k < i);
                assert(no_later(key, key, order[k], order[i]));
            }
        } else {
            assert forall|other: int| 0 <= other < gpus.len() implies #[trigger] gpus[other]
                < demand.gpu_workers || cpus[other] < cores by {
                let i = lemma_place(n, key, key, other as i32);
                assert(!able(order[i]));
            }
        }
    }
}

/// Whether a server that takes a task in a round takes one in every round before it.
spec fn runs_out(fits: spec_fn(i32, int) -> bool) -> bool {
    forall|server: i32, early: int, late: int|
        0 <= early <= late && #[trigger] fits(server, late) ==> #[trigger] fits(server, early)
}

/// How often the servers of an order that fit name a server.
proof fn lemma_filter_occurrences(order: Seq<i32>, fits: spec_fn(i32) -> bool, value: i32)
    requires
        order.no_duplicates(),
    ensures
        occurrences(order.filter(fits), value) == if order.contains(value) && fits(value) {
            1nat
        } else {
            0nat
        },
{
    lemma_occurrences_once(order, fits, value);
    if order.contains(value) && fits(value) {
        let i = choose|i: int| 0 <= i < order.len() && order[i] == value;
        order.lemma_filter_contains(fits, i);
        lemma_occurrences(order.filter(fits), value);
    }
}

/// Rounds give a server one task each, until it takes no more.
proof fn lemma_rounds_count(
    order: Seq<i32>,
    fits: spec_fn(i32, int) -> bool,
    count: nat,
    server: i32,
)
    requires
        order.no_duplicates(),
        order.contains(server),
        runs_out(fits),
    ensures
        ({
            let times = occurrences(rounds(order, fits, count), server);
            times <= count && (times == count || !fits(server, times as int))
        }),
    decreases count,
{
    if count > 0 {
        let last = (count - 1) as nat;
        let now = |s: i32| fits(s, last as int);
        lemma_rounds_count(order, fits, last, server);
        lemma_filter_occurrences(order, now, server);
        lemma_occurrences_add(rounds(order, fits, last), order.filter(now), server);
        let times = occurrences(rounds(order, fits, last), server);
        if times < last {
            if fits(server, last as int) {
                assert(fits(server, times as int));
            }
        }
    }
}

/// The first of the servers that fit are those that fit among the first servers.
proof fn lemma_filter_take(order: Seq<i32>, fits: spec_fn(i32) -> bool, m: int) -> (i: int)
    requires
        0 <= m <= order.filter(fits).len(),
    ensures
        0 <= i <= order.len(),
        order.take(i).filter(fits) == order.filter(fits).take(m),
    decreases order.len(),
{
    reveal(Seq::filter);
    if m == order.filter(fits).len() {
        assert(order.take(order.len() as int) =~= order);
        assert(order.filter(fits).take(m) =~= order.filter(fits));
        order.len() as int
    } else {
        let rest = order.drop_last();
        let i = lemma_filter_take(rest, fits, m);
        assert(rest.take(i) =~= order.take(i));
        assert(rest.filter(fits).take(m) =~= order.filter(fits).take(m));
        i
    }
}

/// The last of some rounds after which no more than a number of tasks are dealt out.
proof fn lemma_whole_rounds(
    order: Seq<i32>,
    fits: spec_fn(i32, int) -> bool,
    all: nat,
    count: int,
) -> (r: nat)
    requires
        rounds(order, fits, all).len() > count,
        count >= 0,
    ensures
        r < all,
        rounds(order, fits, r).len() <= count,
        rounds(order, fits, r + 1).len() > count,
    decreases all,
{
    let last = (all - 1) as nat;
    if rounds(order, fits, last).len() <= count {
        last
    } else {
        lemma_whole_rounds(order, fits, last, count)
    }
}

/// What is dealt out is some whole rounds and the beginning of another; where that is not all,
/// the rounds were as many as there are tasks.
proof fn lemma_spread_shape(order: Seq<i32>, fits: spec_fn(i32, int) -> bool, count: int) -> (at: (
    nat,
    int,
))
    requires
        count > 0,
    ensures
        0 <= at.1 <= order.len(),
        spread(order, fits, count) == rounds(order, fits, at.0) + order.take(at.1).filter(
            |s: i32| fits(s, at.0 as int),
        ),
        spread(order, fits, count).len() == count || at.0 == count && at.1 == 0,
{
    let picked = rounds(order, fits, count as nat);
    if picked.len() <= count {
        reveal(Seq::filter);
        let none = order.take(0).filter(|s: i32| fits(s, count));
        assert(order.take(0) =~= Seq::empty());
        assert(none =~= Seq::empty());
        assert(picked + none =~= picked);
        (count as nat, 0)
    } else {
        let r = lemma_whole_rounds(order, fits, count as nat, count);
        let now = |s: i32| fits(s, r as int);
        let before = rounds(order, fits, r);
        let m = count - before.len();
        assert(rounds(order, fits, r + 1) == before + order.filter(now));
        let i = lemma_filter_take(order, now, m);
        lemma_rounds_prefix(order, fits, r + 1, count as nat);
        assert(picked.take(count) =~= before + order.filter(now).take(m));
        (r, i)
    }
}

/// Tasks are dealt out evenly: where a server could take one more, no other has two more than it,
/// and one that has one more stands before it.
proof fn lemma_dealt_evenly(
    order: Seq<i32>,
    fits: spec_fn(i32, int) -> bool,
    count: int,
    a: int,
    b: int,
)
    requires
        order.no_duplicates(),
        runs_out(fits),
        0 <= a < order.len(),
        0 <= b < order.len(),
        count > 0,
    ensures
        ({
            let dealt = spread(order, fits, count);
            let more = occurrences(dealt, order[a]) as int;
            let fewer = occurrences(dealt, order[b]) as int;
            &&& more > 0 ==> fits(order[a], more - 1)
            &&& fits(order[b], fewer) ==> more <= fewer + 1 && (more == fewer + 1 ==> a < b)
            &&& dealt.len() < count ==> more == count || !fits(order[a], more)
        }),
{
    let dealt = spread(order, fits, count);
    let (r, i) = lemma_spread_shape(order, fits, count);
    let now = |s: i32| fits(s, r as int);
    let whole = rounds(order, fits, r);
    let part = order.take(i).filter(now);
    let s = order[a];
    let t = order[b];
    assert(order.contains(s) && order.contains(t));
    lemma_rounds_count(order, fits, r, s);
    lemma_rounds_count(order, fits, r, t);
    assert(order.take(i).no_duplicates());
    lemma_filter_occurrences(order.take(i), now, s);
    lemma_filter_occurrences(order.take(i), now, t);
    lemma_occurrences_add(whole, part, s);
    lemma_occurrences_add(whole, part, t);
    assert(order.take(i).contains(s) <==> a < i) by {
        if a < i {
            assert(order.take(i)[a] == s);
        }
        if order.take(i).contains(s) {
            let k = choose|k: int| 0 <= k < i && order.take(i)[k] == s;
            assert(order[k] == order[a]);
        }
    }
    assert(order.take(i).contains(t) <==> b < i) by {
        if b < i {
            assert(order.take(i)[b] == t);
        }
        if order.take(i).contains(t) {
            let k = choose|k: int| 0 <= k < i && order.take(i)[k] == t;
            assert(order[k] == order[b]);
        }
    }
    let more = occurrences(dealt, s) as int;
    let fewer = occurrences(dealt, t) as int;
    let times_s = occurrences(whole, s) as int;
    let times_t = occurrences(whole, t) as int;
    if times_s < r {
        if fits(s, r as int) {
            assert(fits(s, times_s));
        }
    }
    if times_t < r {
        if fits(t, r as int) {
            assert(fits(t, times_t));
        }
    }
    if more > 0 {
        lemma_rounds_fit(order, fits, r, s);
        if more > times_s {
            assert(fits(s, r as int));
        }
    }
}

/// The tasks that rounds give a server are such as it takes.
proof fn lemma_rounds_fit(
    order: Seq<i32>,
    fits: spec_fn(i32, int) -> bool,
    count: nat,
    server: i32,
)
    requires
        order.no_duplicates(),
        order.contains(server),
        runs_out(fits),
    ensures
        occurrences(rounds(order, fits, count), server) > 0 ==> fits(
            server,
            occurrences(rounds(order, fits, count), server) - 1,
        ),
    decreases count,
{
    if count > 0 {
        let last = (count - 1) as nat;
        let now = |s: i32| fits(s, last as int);
        lemma_rounds_fit(order, fits, last, server);
        lemma_rounds_count(order, fits, last, server);
        lemma_filter_occurrences(order, now, server);
        lemma_occurrences_add(rounds(order, fits, last), order.filter(now), server);
        let times = occurrences(rounds(order, fits, last), server) as int;
        if fits(server, last as int) {
            assert(fits(server, times));
        }
    }
}

/// The place of a server in the order of the servers by two keys.
proof fn lemma_place(
    count: nat,
    first: spec_fn(i32) -> int,
    second: spec_fn(i32) -> int,
    server: i32,
) -> (place: int)
    requires
        count <= i32::MAX,
        0 <= server < count,
    ensures
        ({
            let order = ranked(numbers(count), first, second);
            &&& order.len() == count
            &&& order.no_duplicates()
            &&& 0 <= place < count
            &&& order[place] == server
            &&& forall|i: int|
                0 <= i < count ==> (i < place ==> no_later(
                    first,
                    second,
                    #[trigger] order[i],
                    server,
                )) && 0 <= order[i] < count
        }),
{
    let order = ranked(numbers(count), first, second);
    lemma_ranked_servers(count, first, second);
    ranked_is_sorted(numbers(count), first, second);
    assert(numbers(count)[server as int] == server);
    assert(numbers(count).contains(server));
    assert(order.contains(server));
    let place = choose|place: int| 0 <= place < order.len() && order[place] == server;
    assert forall|i: int| 0 <= i < place implies no_later(
        first,
        second,
        #[trigger] order[i],
        server,
    ) by {
        assert(no_later(first, second, order[i], order[place]));
    }
    place
}

/// Whether a server has the GPUs and the cores for one worker more than it has: in load
/// balancing its GPUs must do for all of them, and its cores for one; Tiresias asks for one free
/// GPU at least.
pub open spec fn has_place_for_worker(
    method: PlacementMethod,
    gpus: Seq<i32>,
    cpus: Seq<i32>,
    demand: Demand,
    server: i32,
    workers: int,
) -> bool {
    &&& cpus[server as int] >= demand.cpu_per_gpu_worker
    &&& method is K8sLoadBalancing ==> gpus[server as int] >= (workers + 1) * demand.gpu_per_worker
    &&& method is Tiresias ==> gpus[server as int] >= 1
}

/// Load balancing, and Tiresias for a job that is not skewed, deal the workers out evenly, in
/// rounds: only servers that have place for them get workers, and where a server has place for one
/// more, no other server has two more than it. A server that has one more comes before it: load
/// balancing goes by the most free GPUs, Tiresias by the fewest, and both by number then.
pub proof fn workers_are_dealt_out_evenly(
    method: PlacementMethod,
    gpus: Seq<i32>,
    cpus: Seq<i32>,
    demand: Demand,
    a: i32,
    b: i32,
)
    requires
        gpus.len() == cpus.len() <= i32::MAX,
        method is K8sLoadBalancing || method is Tiresias,
        demand.gpu_per_worker >= 0,
        0 <= a < gpus.len(),
        0 <= b < gpus.len(),
    ensures
        planned(method, gpus, cpus, demand, false) matches Some((allocated, ps_allocated)) ==> {
            let more = occurrences(allocated, a) as int;
            let fewer = occurrences(allocated, b) as int;
            &&& more > 0 ==> has_place_for_worker(method, gpus, cpus, demand, a, more - 1)
            &&& has_place_for_worker(method, gpus, cpus, demand, b, fewer) ==> {
                &&& more <= fewer + 1
                &&& more == fewer + 1 ==> {
                    ||| method is K8sLoadBalancing && gpus[a as int] > gpus[b as int]
                    ||| method is Tiresias && gpus[a as int] < gpus[b as int]
                    ||| gpus[a as int] == gpus[b as int] && a < b
                }
            }
        },
{
    if let Some((allocated, ps_allocated)) = planned(method, gpus, cpus, demand, false) {
        let n = gpus.len();
        let key = if method is K8sLoadBalancing {
            most(gpus)
        } else {
            least(gpus)
        };
        let fits = if method is K8sLoadBalancing {
            takes_worker(gpus, cpus, demand)
        } else {
            has_gpu(gpus, cpus, demand)
        };
        let order = ranked(numbers(n), key, key);
        let at = lemma_place(n, key, key, a);
        let place = lemma_place(n, key, key, b);
        assert forall|server: i32, round: int|
            0 <= round implies #[trigger] fits(server, round) == has_place_for_worker(
            method,
            gpus,
            cpus,
            demand,
            server,
            round,
        ) by {
            let unit = demand.gpu_per_worker as int;
            assert((round + 1) * unit >= unit) by (nonlinear_arith)
                requires
                    round >= 0,
                    unit >= 0,
            ;
        }
        assert(runs_out(fits)) by {
            assert forall|server: i32, early: int, late: int|
                0 <= early <= late && #[trigger] fits(server, late) implies #[trigger] fits(
                server,
                early,
            ) by {
                let unit = demand.gpu_per_worker as int;
                assert((early + 1) * unit <= (late + 1) * unit) by (nonlinear_arith)
                    requires
                        early <= late,
                        unit >= 0,
                ;
            }
        }
        lemma_occurrences(allocated, a);
        lemma_occurrences(allocated, b);
        if demand.gpu_workers > 0 {
            lemma_dealt_evenly(order, fits, demand.gpu_workers as int, at, place);
            if at < place {
                assert(no_later(key, key, order[at], b));
            }
        }
    }
}

/// The parameter servers are dealt out evenly, in rounds, over the servers that have the cores
/// for one, unless the job is colocated: no such server has two fewer than another. A server that
/// has one more comes before it: load balancing goes by the most free cores and then the most
/// free GPUs, bin packing by the fewest of both, Tiresias by the most cores and the fewest GPUs.
pub proof fn parameter_servers_are_dealt_out_evenly(
    method: PlacementMethod,
    gpus: Seq<i32>,
    cpus: Seq<i32>,
    demand: Demand,
    a: i32,
    b: i32,
)
    requires
        gpus.len() == cpus.len() <= i32::MAX,
        !(method is Colocate),
        0 <= a < gpus.len(),
        0 <= b < gpus.len(),
    ensures
        planned(method, gpus, cpus, demand, false) matches Some((allocated, ps_allocated)) ==> {
            let more = occurrences(ps_allocated, a) as int;
            let fewer = occurrences(ps_allocated, b) as int;
            &&& more > 0 ==> cpus[a as int] >= demand.cpu_per_ps
            &&& cpus[b as int] >= demand.cpu_per_ps ==> {
                &&& more <= fewer + 1
                &&& more == fewer + 1 ==> {
                    ||| method is K8sBinPacking && cpus[a as int] < cpus[b as int]
                    ||| !(method is K8sBinPacking) && cpus[a as int] > cpus[b as int]
                    ||| cpus[a as int] == cpus[b as int] && {
                        ||| method is K8sLoadBalancing && gpus[a as int] > gpus[b as int]
                        ||| !(method is K8sLoadBalancing) && gpus[a as int] < gpus[b as int]
                        ||| gpus[a as int] == gpus[b as int] && a < b
                    }
                }
            }
        },
{
    if let Some((allocated, ps_allocated)) = planned(method, gpus, cpus, demand, false) {
        let n = gpus.len();
        let first = if method is K8sBinPacking {
            least(cpus)
        } else {
            most(cpus)
        };
        let second = if method is K8sLoadBalancing {
            most(gpus)
        } else {
            least(gpus)
        };
        let fits = takes_ps(cpus, demand);
        let order = ranked(numbers(n), first, second);
        let at = lemma_place(n, first, second, a);
        let place = lemma_place(n, first, second, b);
        assert(runs_out(fits));
        lemma_occurrences(ps_allocated, a);
        lemma_occurrences(ps_allocated, b);
        if demand.ps > 0 {
            lemma_dealt_evenly(order, fits, demand.ps as int, at, place);
            assert(fits(b, occurrences(ps_allocated, b) as int) == (cpus[b as int]
                >= demand.cpu_per_ps));
            if at < place {
                assert(no_later(first, second, order[at], b));
            }
        }
    }
}

/// When servers are filled one after the other, those before one that is used hold no more.
proof fn lemma_filled_up(
    order: Seq<i32>,
    holds: spec_fn(i32) -> int,
    remaining: int,
    a: int,
    b: int,
)
    requires
        order.no_duplicates(),
        0 <= a < b < order.len(),
        occurrences(filled(order, holds, remaining), order[b]) > 0,
    ensures
        occurrences(filled(order, holds, remaining), order[a]) >= holds(order[a]),
    decreases order.len(),
{
    let server = order.first();
    let taken = if holds(server) < remaining {
        holds(server)
    } else {
        remaining
    };
    let rest = order.drop_first();
    let behind = filled(rest, holds, remaining - taken);
    lemma_occurrences_add(repeated(server, taken), behind, order[a]);
    lemma_occurrences_add(repeated(server, taken), behind, order[b]);
    lemma_repeated(server, taken, order[a]);
    lemma_repeated(server, taken, order[b]);
    assert(order[0] != order[b]);
    assert(rest.no_duplicates());
    assert(rest[b - 1] == order[b]);
    if a > 0 {
        assert(order[0] != order[a]);
        assert(rest[a - 1] == order[a]);
        lemma_filled_up(rest, holds, remaining - taken, a - 1, b - 1);
    } else if holds(server) >= remaining {
        assert(behind =~= Seq::empty());
    }
}

/// A count that is no less than a quotient that rounds toward zero, and one more of it, exceeds
/// the amount.
proof fn lemma_quotient_exceeded(amount: int, unit: int, count: int)
    requires
        unit > 0,
        count >= 0,
        count >= truncating_quotient(amount, unit),
    ensures
        (count + 1) * unit > amount,
{
    if amount >= 0 {
        assert((count + 1) * unit > amount) by (nonlinear_arith)
            requires
                count >= amount / unit,
                unit > 0,
                amount >= 0,
        ;
    } else {
        assert((count + 1) * unit > 0) by (nonlinear_arith)
            requires
                count >= 0,
                unit > 0,
        ;
    }
}

/// Bin packing fills servers up, those with the fewest free GPUs first, and those with lower numbers
/// first among these: where a server has workers, every server before it has no place for
/// one more.
pub proof fn bin_packing_fills_servers_up(
    gpus: Seq<i32>,
    cpus: Seq<i32>,
    demand: Demand,
    skewed: bool,
    a: i32,
    b: i32,
)
    requires
        gpus.len() == cpus.len() <= i32::MAX,
        demand.gpu_per_worker > 0,
        demand.cpu_per_gpu_worker > 0,
        0 <= a < gpus.len(),
        0 <= b < gpus.len(),
        gpus[a as int] < gpus[b as int] || gpus[a as int] == gpus[b as int] && a < b,
    ensures
        planned(PlacementMethod::K8sBinPacking, gpus, cpus, demand, skewed) matches Some(
            (allocated, ps_allocated),
        ) ==> (allocated.contains(b) ==> {
            let workers = occurrences(allocated, a) as int;
            ||| (workers + 1) * demand.gpu_per_worker > gpus[a as int]
            ||| (workers + 1) * demand.cpu_per_gpu_worker > cpus[a as int]
        }),
{
    if let Some((allocated, ps_allocated)) = planned(
        PlacementMethod::K8sBinPacking,
        gpus,
        cpus,
        demand,
        skewed,
    ) {
        let n = gpus.len();
        let key = least(gpus);
        let order = ranked(numbers(n), key, key);
        let holds = holds_workers(gpus, cpus, demand);
        let at = lemma_place(n, key, key, a);
        let place = lemma_place(n, key, key, b);
        lemma_occurrences(allocated, b);
        if allocated.contains(b) {
            if place < at {
                assert(no_later(key, key, order[place], a));
            }
            assert(at < place);
            lemma_filled_up(order, holds, demand.gpu_workers as int, at, place);
            let workers = occurrences(allocated, a) as int;
            if truncating_quotient(gpus[a as int] as int, demand.gpu_per_worker as int)
                <= workers {
                lemma_quotient_exceeded(
                    gpus[a as int] as int,
                    demand.gpu_per_worker as int,
                    workers,
                );
            } else {
                lemma_quotient_exceeded(
                    cpus[a as int] as int,
                    demand.cpu_per_gpu_worker as int,
                    workers,
                );
            }
        }
    }
}

/// There is a plan only where all servers together have a free GPU for each worker, and as many free
/// cores as the workers and parameter servers take.
pub proof fn no_plan_without_room(
    method: PlacementMethod,
    gpus: Seq<i32>,
    cpus: Seq<i32>,
    demand: Demand,
    skewed: bool,
)
    ensures
        planned(method, gpus, cpus, demand, skewed) is Some ==> demand.gpu_workers <= total(gpus)
            && demand.gpu_workers * demand.cpu_per_gpu_worker + demand.ps * demand.cpu_per_ps
            <= total(cpus),
{
}

proof fn lemma_named_once(order: Seq<i32>, server: i32)
    requires
        order.no_duplicates(),
        order.contains(server),
    ensures
        occurrences(order, server) == 1,
{
    let any = |s: i32| true;
    lemma_filter_occurrences(order, any, server);
    lemma_keep_all(order, any);
}

proof fn lemma_keep_all(order: Seq<i32>, any: spec_fn(i32) -> bool)
    requires
        forall|s: i32| #[trigger] any(s),
    ensures
        order.filter(any) == order,
    decreases order.len(),
{
    reveal(Seq::filter);
    if order.len() > 0 {
        lemma_keep_all(order.drop_last(), any);
        assert(order.drop_last().push(order.last()) =~= order);
    }
}

/// One more for a server in a sum over an order is one more for each time the order names it.
proof fn lemma_one_more(
    order: Seq<i32>,
    a: spec_fn(i32) -> int,
    b: spec_fn(i32) -> int,
    server: i32,
)
    requires
        forall|s: i32|
            #[trigger] b(s) == a(s) + if s == server {
                1int
            } else {
                0int
            },
    ensures
        amounts(order, b) == amounts(order, a) + occurrences(order, server),
    decreases order.len(),
{
    if order.len() > 0 {
        lemma_one_more(order.drop_last(), a, b, server);
        assert(b(order.last()) == a(order.last()) + if order.last() == server {
            1int
        } else {
            0int
        });
    }
}

/// How often the servers of an order occur in a list of them adds up to its length.
proof fn lemma_occurrences_in_order(order: Seq<i32>, list: Seq<i32>)
    requires
        order.no_duplicates(),
        forall|i: int| 0 <= i < list.len() ==> order.contains(#[trigger] list[i]),
    ensures
        amounts(order, |s: i32| occurrences(list, s) as int) == list.len(),
    decreases list.len(),
{
    let now = |s: i32| occurrences(list, s) as int;
    if list.len() == 0 {
        lemma_none_adds_up(order, now);
    } else {
        let rest = list.drop_last();
        let before = |s: i32| occurrences(rest, s) as int;
        assert forall|i: int| 0 <= i < rest.len() implies order.contains(#[trigger] rest[i]) by {
            assert(rest[i] == list[i]);
        }
        lemma_occurrences_in_order(order, rest);
        assert(order.contains(list[list.len() - 1]));
        lemma_one_more(order, before, now, list.last());
        lemma_named_once(order, list.last());
    }
}

proof fn lemma_none_adds_up(order: Seq<i32>, amount: spec_fn(i32) -> int)
    requires
        forall|s: i32| #[trigger] amount(s) == 0,
    ensures
        amounts(order, amount) == 0,
    decreases order.len(),
{
    if order.len() > 0 {
        lemma_none_adds_up(order.drop_last(), amount);
        assert(amount(order.last()) == 0);
    }
}

proof fn lemma_amounts_no_less(
    order: Seq<i32>,
    a: spec_fn(i32) -> int,
    b: spec_fn(i32) -> int,
)
    requires
        forall|i: int| 0 <= i < order.len() ==> a(#[trigger] order[i]) <= b(order[i]),
    ensures
        amounts(order, a) <= amounts(order, b),
    decreases order.len(),
{
    if order.len() > 0 {
        let rest = order.drop_last();
        assert forall|i: int| 0 <= i < rest.len() implies a(#[trigger] rest[i]) <= b(rest[i]) by {
            assert(rest[i] == order[i]);
        }
        lemma_amounts_no_less(rest, a, b);
        assert(order[order.len() - 1] == order.last());
    }
}

/// A list of servers in which none occurs less often than in another is no shorter.
proof fn lemma_no_shorter(order: Seq<i32>, shorter: Seq<i32>, longer: Seq<i32>)
    requires
        order.no_duplicates(),
        forall|i: int| 0 <= i < shorter.len() ==> order.contains(#[trigger] shorter[i]),
        forall|i: int| 0 <= i < longer.len() ==> order.contains(#[trigger] longer[i]),
        forall|i: int|
            0 <= i < order.len() ==> occurrences(shorter, #[trigger] order[i]) <= occurrences(
                longer,
                order[i],
            ),
    ensures
        shorter.len() <= longer.len(),
{
    lemma_occurrences_in_order(order, shorter);
    lemma_occurrences_in_order(order, longer);
    lemma_amounts_no_less(
        order,
        |s: i32| occurrences(shorter, s) as int,
        |s: i32| occurrences(longer, s) as int,
    );
}

/// What is dealt out to servers of an order.
proof fn lemma_dealt_within(order: Seq<i32>, fits: spec_fn(i32, int) -> bool, count: int)
    requires
        order.no_duplicates(),
    ensures
        forall|i: int|
            0 <= i < spread(order, fits, count).len() ==> order.contains(
                #[trigger] spread(order, fits, count)[i],
            ),
        count >= 0 ==> spread(order, fits, count).len() <= count,
{
    let dealt = spread(order, fits, count);
    assert forall|i: int| 0 <= i < dealt.len() implies order.contains(#[trigger] dealt[i]) by {
        lemma_spread_named(order, fits, count, dealt[i]);
        lemma_occurrences(dealt, dealt[i]);
        assert(dealt.contains(dealt[i]));
    }
}

/// Parameter servers all get a server where one has the cores for one.
proof fn lemma_ps_dealt(
    cpus: Seq<i32>,
    demand: Demand,
    first: spec_fn(i32) -> int,
    second: spec_fn(i32) -> int,
    able: i32,
)
    requires
        cpus.len() <= i32::MAX,
        demand.ps >= 0,
        demand.ps > 0 ==> 0 <= able < cpus.len() && cpus[able as int] >= demand.cpu_per_ps,
    ensures
        spread(
            ranked(numbers(cpus.len()), first, second),
            takes_ps(cpus, demand),
            demand.ps as int,
        ).len() == demand.ps,
{
    if demand.ps > 0 {
        let order = ranked(numbers(cpus.len()), first, second);
        let fits = takes_ps(cpus, demand);
        let dealt = spread(order, fits, demand.ps as int);
        let at = lemma_place(cpus.len(), first, second, able);
        assert(runs_out(fits));
        lemma_dealt_evenly(order, fits, demand.ps as int, at, at);
        lemma_dealt_within(order, fits, demand.ps as int);
        lemma_occurrences(dealt, able);
        assert(fits(able, occurrences(dealt, able) as int));
    }
}

/// Load balancing finds a plan wherever there is one: where the workers of the job can be put on servers
/// each of which has the GPUs for its workers and the cores for one, some server has the
/// cores for a parameter server, and all servers together have enough.
pub proof fn load_balancing_finds_a_plan(
    gpus: Seq<i32>,
    cpus: Seq<i32>,
    demand: Demand,
    skewed: bool,
    servers: Seq<i32>,
    able: i32,
)
    requires
        gpus.len() == cpus.len() <= i32::MAX,
        demand.gpu_workers >= 0,
        demand.gpu_per_worker >= 0,
        demand.ps >= 0,
        demand.gpu_workers <= total(gpus),
        demand.gpu_workers * demand.cpu_per_gpu_worker + demand.ps * demand.cpu_per_ps <= total(
            cpus,
        ),
        servers.len() == demand.gpu_workers,
        forall|i: int|
            0 <= i < servers.len() ==> {
                &&& 0 <= #[trigger] servers[i] < gpus.len()
                &&& occurrences(servers, servers[i]) * demand.gpu_per_worker
                    <= gpus[servers[i] as int]
                &&& demand.cpu_per_gpu_worker <= cpus[servers[i] as int]
            },
        demand.ps > 0 ==> 0 <= able < cpus.len() && cpus[able as int] >= demand.cpu_per_ps,
    ensures
        planned(PlacementMethod::K8sLoadBalancing, gpus, cpus, demand, skewed) is Some,
{
    let n = gpus.len();
    let key = most(gpus);
    let order = ranked(numbers(n), key, key);
    let fits = takes_worker(gpus, cpus, demand);
    let count = demand.gpu_workers as int;
    let dealt = spread(order, fits, count);
    let unit = demand.gpu_per_worker as int;
    lemma_ps_dealt(cpus, demand, most(cpus), most(gpus), able);
    lemma_ranked_servers(n, key, key);
    if count > 0 {
        lemma_dealt_within(order, fits, count);
        assert(runs_out(fits)) by {
            assert forall|server: i32, early: int, late: int|
                0 <= early <= late && #[trigger] fits(server, late) implies #[trigger] fits(
                server,
                early,
            ) by {
                assert((early + 1) * unit <= (late + 1) * unit) by (nonlinear_arith)
                    requires
                        early <= late,
                        unit >= 0,
                ;
            }
        }
        if dealt.len() < count {
            assert forall|i: int| 0 <= i < servers.len() implies order.contains(
                #[trigger] servers[i],
            ) by {
                let at = lemma_place(n, key, key, servers[i]);
                assert(order[at] == servers[i]);
            }
            assert forall|i: int| 0 <= i < order.len() implies occurrences(
                servers,
                #[trigger] order[i],
            ) <= occurrences(dealt, order[i]) by {
                let s = order[i];
                let has = occurrences(dealt, s) as int;
                let wants = occurrences(servers, s) as int;
                lemma_dealt_evenly(order, fits, count, i, i);
                lemma_occurrences(servers, s);
                if has < wants {
                    let k = choose|k: int| 0 <= k < servers.len() && servers[k] == s;
                    assert(occurrences(servers, servers[k]) * demand.gpu_per_worker
                        <= gpus[servers[k] as int]);
                    assert((has + 1) * unit <= wants * unit && unit <= wants * unit)
                        by (nonlinear_arith)
                        requires
                            0 <= has < wants,
                            unit >= 0,
                    ;
                    assert(fits(s, has));
                }
            }
            lemma_no_shorter(order, servers, dealt);
        }
    }
}

/// Servers that are filled one after the other take all, or each of them as much as it holds.
proof fn lemma_filled_all(order: Seq<i32>, holds: spec_fn(i32) -> int, remaining: int)
    requires
        order.no_duplicates(),
        remaining >= 0,
        forall|i: int| 0 <= i < order.len() ==> holds(#[trigger] order[i]) >= 0,
    ensures
        filled(order, holds, remaining).len() <= remaining,
        forall|i: int|
            0 <= i < filled(order, holds, remaining).len() ==> order.contains(
                #[trigger] filled(order, holds, remaining)[i],
            ),
        filled(order, holds, remaining).len() < remaining ==> forall|i: int|
            0 <= i < order.len() ==> holds(#[trigger] order[i]) <= occurrences(
                filled(order, holds, remaining),
                order[i],
            ),
    decreases order.len(),
{
    if order.len() > 0 && remaining > 0 {
        let server = order.first();
        assert(order[0] == server);
        let taken = if holds(server) < remaining {
            holds(server)
        } else {
            remaining
        };
        let rest = order.drop_first();
        let part = repeated(server, taken);
        let behind = filled(rest, holds, remaining - taken);
        let all = filled(order, holds, remaining);
        assert forall|i: int| 0 <= i < rest.len() implies holds(#[trigger] rest[i]) >= 0 by {
            assert(rest[i] == order[i + 1]);
        }
        lemma_filled_all(rest, holds, remaining - taken);
        assert(part.len() == taken);
        assert forall|i: int| 0 <= i < all.len() implies order.contains(#[trigger] all[i]) by {
            if i < part.len() {
                assert(all[i] == order[0]);
            } else {
                let at = i - part.len();
                assert(all[i] == behind[at]);
                assert(rest.contains(behind[at]));
                let k = choose|k: int| 0 <= k < rest.len() && rest[k] == behind[at];
                assert(order[k + 1] == all[i]);
            }
        }
        if all.len() < remaining {
            assert forall|i: int| 0 <= i < order.len() implies holds(#[trigger] order[i])
                <= occurrences(all, order[i]) by {
                lemma_occurrences_add(part, behind, order[i]);
                lemma_repeated(server, taken, order[i]);
                if i > 0 {
                    assert(rest[i - 1] == order[i]);
                }
            }
        }
    }
}

/// Bin packing finds a plan wherever there is one: where the workers of the job can be put on servers each
/// of which has the GPUs and the cores for its workers, some server has the cores for a parameter
/// server, and all servers together have enough.
pub proof fn bin_packing_finds_a_plan(
    gpus: Seq<i32>,
    cpus: Seq<i32>,
    demand: Demand,
    skewed: bool,
    servers: Seq<i32>,
    able: i32,
)
    requires
        gpus.len() == cpus.len() <= i32::MAX,
        demand.gpu_workers >= 0,
        demand.gpu_per_worker > 0,
        demand.cpu_per_gpu_worker > 0,
        demand.ps >= 0,
        forall|s: int| 0 <= s < gpus.len() ==> #[trigger] gpus[s] >= 0 && cpus[s] >= 0,
        demand.gpu_workers <= total(gpus),
        demand.gpu_workers * demand.cpu_per_gpu_worker + demand.ps * demand.cpu_per_ps <= total(
            cpus,
        ),
        servers.len() == demand.gpu_workers,
        forall|i: int|
            0 <= i < servers.len() ==> {
                &&& 0 <= #[trigger] servers[i] < gpus.len()
                &&& occurrences(servers, servers[i]) * demand.gpu_per_worker
                    <= gpus[servers[i] as int]
                &&& occurrences(servers, servers[i]) * demand.cpu_per_gpu_worker
                    <= cpus[servers[i] as int]
            },
        demand.ps > 0 ==> 0 <= able < cpus.len() && cpus[able as int] >= demand.cpu_per_ps,
    ensures
        planned(PlacementMethod::K8sBinPacking, gpus, cpus, demand, skewed) is Some,
{
    let n = gpus.len();
    let key = least(gpus);
    let order = ranked(numbers(n), key, key);
    let holds = holds_workers(gpus, cpus, demand);
    let count = demand.gpu_workers as int;
    let dealt = filled(order, holds, count);
    lemma_ps_dealt(cpus, demand, least(cpus), least(gpus), able);
    lemma_ranked_servers(n, key, key);
    assert forall|i: int| 0 <= i < order.len() implies holds(#[trigger] order[i]) >= 0 by {
        let s = order[i] as int;
        assert(gpus[s] >= 0);
        lemma_quotient_no_less(gpus[s] as int, demand.gpu_per_worker as int, 0);
        lemma_quotient_no_less(cpus[s] as int, demand.cpu_per_gpu_worker as int, 0);
    }
    lemma_filled_all(order, holds, count);
    if dealt.len() < count {
        assert forall|i: int| 0 <= i < servers.len() implies order.contains(#[trigger] servers[i]) by {
            let at = lemma_place(n, key, key, servers[i]);
            assert(order[at] == servers[i]);
        }
        assert forall|i: int| 0 <= i < order.len() implies occurrences(servers, #[trigger] order[i])
            <= occurrences(dealt, order[i]) by {
            let s = order[i];
            let wants = occurrences(servers, s) as int;
            lemma_occurrences(servers, s);
            if wants > 0 {
                let k = choose|k: int| 0 <= k < servers.len() && servers[k] == s;
                assert(occurrences(servers, servers[k]) * demand.gpu_per_worker
                    <= gpus[servers[k] as int]);
                lemma_quotient_no_less(
                    gpus[s as int] as int,
                    demand.gpu_per_worker as int,
                    wants,
                );
                lemma_quotient_no_less(
                    cpus[s as int] as int,
                    demand.cpu_per_gpu_worker as int,
                    wants,
                );
            }
            assert(holds(order[i]) <= occurrences(dealt, order[i]));
        }
        lemma_no_shorter(order, servers, dealt);
    }
}

/// A count whose units an amount has is no more than their quotient.
proof fn lemma_quotient_no_less(amount: int, unit: int, count: int)
    requires
        unit > 0,
        amount >= 0,
        count >= 0,
        count * unit <= amount,
    ensures
        count <= truncating_quotient(amount, unit),
{
    assert(count <= amount / unit) by (nonlinear_arith)
        requires
            unit > 0,
            amount >= 0,
            count * unit <= amount,
    ;
}

/// Only Tiresias looks at whether a job is skewed: the other methods plan for it as for any job.
pub proof fn only_tiresias_looks_at_skewness(
    method: PlacementMethod,
    gpus: Seq<i32>,
    cpus: Seq<i32>,
    demand: Demand,
)
    ensures
        !(method is Tiresias) ==> planned(method, gpus, cpus, demand, true) == planned(
            method,
            gpus,
            cpus,
            demand,
            false,
        ),
{
}

} // verus!
