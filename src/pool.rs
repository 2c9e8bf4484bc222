use vstd::arithmetic::div_mod::{lemma_mod_add_multiples_vanish, lemma_small_mod};
use vstd::prelude::*;

verus! {

/// Relies on `num_cpus::get`: the number of logical CPUs available, documented as at least 1.
#[verifier::external_body]
fn get_cpu_cores() -> (r: usize)
    ensures
        r >= 1,
{
    num_cpus::get()
}

/// Threads for each of `total_instances` instances sharing `total_cores` cores: an even
/// share, rounded down, and never fewer than two.
pub open spec fn threads_for(total_cores: nat, total_instances: nat) -> nat
    recommends
        total_instances > 0,
{
    if total_cores / total_instances >= 2 {
        total_cores / total_instances
    } else {
        2
    }
}

/// Threads for each instance when `total_instances` instances share `total_cores` cores.
pub fn threads_per_instance(total_cores: usize, total_instances: usize) -> (r: usize)
    requires
        total_instances > 0,
    ensures
        r == threads_for(total_cores as nat, total_instances as nat),
{
    let per = total_cores / total_instances;
    if per >= 2 {
        per
    } else {
        2
    }
}

/// Threads for each of `total_instances` instances on this machine's cores, with the core
/// count it was computed from.
pub fn calculate_optimal_threads(total_instances: usize) -> (r: (usize, usize))
    requires
        total_instances > 0,
    ensures
        r.1 >= 1,
        r.0 == threads_for(r.1 as nat, total_instances as nat),
{
    let cores = get_cpu_cores();
    (threads_per_instance(cores, total_instances), cores)
}

/// The execution backend of the inference engine.
#[derive(Debug, Clone, Copy, PartialEq, Eq, Structural)]
pub enum Backend {
    Cpu,
    Accelerated,
}

/// Whether `backend` is the CPU path.
pub fn is_cpu_execution_provider(backend: Backend) -> (r: bool)
    ensures
        r == (backend == Backend::Cpu),
{
    match backend {
        Backend::Cpu => true,
        Backend::Accelerated => false,
    }
}

/// How one engine instance is configured.
#[derive(Debug, Clone, Copy, PartialEq, Eq, Structural)]
pub struct SessionConfig {
    /// Whether the process-wide allocator hint is applied.
    pub use_mimalloc: bool,
    /// Intra-op threads, when set.
    pub intra_threads: Option<usize>,
    /// Inter-op threads, when set.
    pub inter_threads: Option<usize>,
}

/// The configuration of each of `total_instances` instances on `total_cores` cores: the CPU
/// path takes the allocator hint and an even share of the cores; the accelerated path one
/// inter-op thread and default intra-op threading.
pub fn session_config(backend: Backend, total_instances: usize, total_cores: usize) -> (r:
    SessionConfig)
    requires
        backend == Backend::Cpu ==> total_instances > 0,
    ensures
        backend == Backend::Cpu ==> r == (SessionConfig {
            use_mimalloc: true,
            intra_threads: Some(threads_for(total_cores as nat, total_instances as nat) as usize),
            inter_threads: None,
        }),
        backend == Backend::Accelerated ==> r == (SessionConfig {
            use_mimalloc: false,
            intra_threads: None,
            inter_threads: Some(1),
        }),
{
    if is_cpu_execution_provider(backend) {
        SessionConfig {
            use_mimalloc: true,
            intra_threads: Some(threads_per_instance(total_cores, total_instances)),
            inter_threads: None,
        }
    } else {
        SessionConfig { use_mimalloc: false, intra_threads: None, inter_threads: Some(1) }
    }
}

/// Number of `true` entries.
pub open spec fn count_busy(s: Seq<bool>) -> nat
    decreases s.len(),
{
    if s.len() == 0 {
        0
    } else {
        count_busy(s.drop_last()) + if s.last() {
            1nat
        } else {
            0nat
        }
    }
}

/// No more instances are busy than exist.
pub proof fn lemma_busy_bounded(s: Seq<bool>)
    ensures
        count_busy(s) <= s.len(),
    decreases s.len(),
{
    if s.len() > 0 {
        lemma_busy_bounded(s.drop_last());
    }
}

proof fn lemma_busy_update(s: Seq<bool>, i: int, b: bool)
    requires
        0 <= i < s.len(),
    ensures
        count_busy(s.update(i, b)) + (if s[i] {
            1nat
        } else {
            0nat
        }) == count_busy(s) + (if b {
            1nat
        } else {
            0nat
        }),
    decreases s.len(),
{
    if i < s.len() - 1 {
        lemma_busy_update(s.drop_last(), i, b);
        assert(s.update(i, b).drop_last() =~= s.drop_last().update(i, b));
    } else {
        assert(s.update(i, b).drop_last() =~= s.drop_last());
    }
}

/// Position `j` steps after `cursor` in a ring of `n`.
pub open spec fn slot(cursor: int, j: int, n: int) -> int {
    (cursor + j) % n
}

proof fn lemma_slot(c: int, j: int, n: int)
    requires
        0 <= c < n,
        0 <= j < n,
    ensures
        slot(c, j, n) == if c + j < n {
            c + j
        } else {
            c + j - n
        },
{
    if c + j < n {
        lemma_small_mod((c + j) as nat, n as nat);
    } else {
        lemma_mod_add_multiples_vanish(c + j - n, n);
        lemma_small_mod((c + j - n) as nat, n as nat);
    }
}

/// Two requests handed instances one after the other, with no release between, never share
/// an instance.
pub proof fn lemma_no_shared_instance(b0: Seq<bool>, b1: Seq<bool>, b2: Seq<bool>, i: int, j: int)
    requires
        0 <= i < b0.len(),
        !b0[i],
        b1 == b0.update(i, true),
        0 <= j < b1.len(),
        !b1[j],
        b2 == b1.update(j, true),
    ensures
        i != j,
        b2[i] && b2[j],
{
}

/// Routes requests to engine instances: each instance serves one request at a time, and
/// instances are tried in turn, starting after the one last handed out.
pub struct InstancePool {
    busy: Vec<bool>,
    cursor: usize,
}

impl InstancePool {
    /// Which instances are serving a request.
    pub closed spec fn busy(&self) -> Seq<bool> {
        self.busy@
    }

    /// Number of instances.
    pub open spec fn size(&self) -> nat {
        self.busy().len()
    }

    /// Number of requests being served.
    pub open spec fn in_flight(&self) -> nat {
        count_busy(self.busy())
    }

    pub closed spec fn wf(&self) -> bool {
        self.busy@.len() > 0 && self.cursor < self.busy@.len()
    }

    /// A pool of `instances` idle instances.
    pub fn new(instances: usize) -> (r: InstancePool)
        requires
            instances > 0,
        ensures
            r.wf(),
            r.busy() == Seq::new(instances as nat, |i: int| false),
            r.in_flight() == 0,
    {
        let mut busy: Vec<bool> = Vec::new();
        let mut i: usize = 0;
        while i < instances
            invariant
                i <= instances,
                busy@ == Seq::new(i as nat, |k: int| false),
                count_busy(busy@) == 0,
            decreases instances - i,
        {
            let ghost old_busy = busy@;
            busy.push(false);
            assert(busy@.drop_last() =~= old_busy);
            i = i + 1;
            assert(busy@ =~= Seq::new(i as nat, |k: int| false));
        }
        InstancePool { busy, cursor: 0 }
    }

    /// Hands out an idle instance and marks it busy; `None` when all are busy.
    pub fn acquire(&mut self) -> (r: Option<usize>)
        requires
            old(self).wf(),
        ensures
            final(self).wf(),
            r matches Some(i) ==> {
                &&& i < old(self).size()
                &&& !old(self).busy()[i as int]
                &&& final(self).busy() == old(self).busy().update(i as int, true)
                &&& final(self).in_flight() == old(self).in_flight() + 1
            },
            r is None ==> {
                &&& forall|i: int| 0 <= i < old(self).size() ==> old(self).busy()[i]
                &&& final(self).busy() == old(self).busy()
            },
    {
        let n = self.busy.len();
        let mut step: usize = 0;
        while step < n
            invariant
                self.wf(),
                n == self.busy@.len(),
                self.busy@ == old(self).busy@,
                step <= n,
                forall|j: int| 0 <= j < step ==> self.busy@[#[trigger] slot(self.cursor as int, j, n as int)],
            decreases n - step,
        {
            let i = if self.cursor < n - step {
                self.cursor + step
            } else {
                self.cursor - (n - step)
            };
            proof {
                lemma_slot(self.cursor as int, step as int, n as int);
            }
            if !self.busy[i] {
                proof {
                    lemma_busy_update(self.busy@, i as int, true);
                }
                self.busy.set(i, true);
                self.cursor = if i + 1 < n {
                    i + 1
                } else {
                    0
                };
                return Some(i);
            }
            step = step + 1;
        }
        proof {
            assert forall|i: int| 0 <= i < n implies self.busy@[i] by {
                let j = if i >= self.cursor {
                    i - self.cursor
                } else {
                    i + n - self.cursor
                };
                lemma_slot(self.cursor as int, j, n as int);
                assert(slot(self.cursor as int, j, n as int) == i);
            }
        }
        None
    }

    /// Marks instance `i` idle again.
    pub fn release(&mut self, i: usize)
        requires
            old(self).wf(),
            i < old(self).size(),
            old(self).busy()[i as int],
        ensures
            final(self).wf(),
            final(self).busy() == old(self).busy().update(i as int, false),
            final(self).in_flight() + 1 == old(self).in_flight(),
    {
        proof {
            lemma_busy_update(self.busy@, i as int, false);
        }
        self.busy.set(i, false);
    }
}

/// However requests are handed out and returned, no more of them are in flight at once than
/// the pool has instances.
pub proof fn lemma_in_flight_bounded(p: &InstancePool)
    ensures
        p.in_flight() <= p.size(),
{
    lemma_busy_bounded(p.busy());
}

} // verus!
