//! The operations that a cluster spreads over its servers.
use vstd::prelude::*;

verus! {

/// An operation that is spread over the servers of a cluster.
#[derive(Debug, Clone, Copy, PartialEq, Eq, Structural)]
pub enum FanoutOperation {
    Stats,
    Card,
    LabelNames,
    LabelValues,
    MDel,
    MGet,
    MRange,
    QueryIndex,
}

/// Why an operation is not registered.
#[derive(Debug, Clone, Copy, PartialEq, Eq, Structural)]
pub enum FanoutError {
    AlreadyRegistered(FanoutOperation),
}

/// The operations that are registered, in order.
#[derive(Debug)]
pub struct FanoutRegistry {
    pub operations: Vec<FanoutOperation>,
}

/// The operations of the module, in the order in which they are registered.
pub open spec fn all_operations() -> Seq<FanoutOperation> {
    seq![
        FanoutOperation::Stats,
        FanoutOperation::Card,
        FanoutOperation::LabelNames,
        FanoutOperation::LabelValues,
        FanoutOperation::MDel,
        FanoutOperation::MGet,
        FanoutOperation::MRange,
        FanoutOperation::QueryIndex,
    ]
}

/// What is registered after the first `n` operations of the module are, up to the first one that is
/// already.
pub open spec fn registered(start: Seq<FanoutOperation>, n: nat) -> Result<
    Seq<FanoutOperation>,
    (Seq<FanoutOperation>, FanoutError),
>
    decreases n,
{
    if n == 0 {
        Ok(start)
    } else {
        match registered(start, (n - 1) as nat) {
            Ok(done) => {
                let op = all_operations()[n - 1];
                if done.contains(op) {
                    Err((done, FanoutError::AlreadyRegistered(op)))
                } else {
                    Ok(done.push(op))
                }
            },
            Err(e) => Err(e),
        }
    }
}

impl FanoutRegistry {
    /// A registry without operations.
    pub fn new() -> (r: Self)
        ensures
            r.operations@.len() == 0,
    {
        FanoutRegistry { operations: Vec::new() }
    }

    /// Registers an operation that is not registered yet.
    pub fn register(&mut self, op: FanoutOperation) -> (r: Result<(), FanoutError>)
        ensures
            old(self).operations@.contains(op) ==> r == Err::<(), FanoutError>(
                FanoutError::AlreadyRegistered(op),
            ) && final(self).operations@ == old(self).operations@,
            !old(self).operations@.contains(op) ==> r is Ok && final(self).operations@ == old(
                self,
            ).operations@.push(op),
    {
        let mut i: usize = 0;
        while i < self.operations.len()
            invariant
                i <= self.operations@.len(),
                *self == *old(self),
                forall|k: int| 0 <= k < i ==> self.operations@[k] != op,
            decreases self.operations@.len() - i,
        {
            if self.operations[i] == op {
                return Err(FanoutError::AlreadyRegistered(op));
            }
            i = i + 1;
        }
        self.operations.push(op);
        Ok(())
    }
}

/// Registers the operations of the module; the first one that is registered already ends it.
pub fn register_fanout_operations(registry: &mut FanoutRegistry) -> (r: Result<(), FanoutError>)
    ensures
        match registered(old(registry).operations@, all_operations().len()) {
            Ok(done) => r is Ok && final(registry).operations@ == done,
            Err((done, e)) => r == Err::<(), FanoutError>(e) && final(registry).operations@ == done,
        },
{
    let all: Vec<FanoutOperation> = vec![
        FanoutOperation::Stats,
        FanoutOperation::Card,
        FanoutOperation::LabelNames,
        FanoutOperation::LabelValues,
        FanoutOperation::MDel,
        FanoutOperation::MGet,
        FanoutOperation::MRange,
        FanoutOperation::QueryIndex,
    ];
    assert(all@ =~= all_operations());
    let ghost start = registry.operations@;
    let mut i: usize = 0;
    while i < all.len()
        invariant
            i <= all@.len(),
            all@ == all_operations(),
            start == old(registry).operations@,
            registered(start, i as nat) == Ok::<
                Seq<FanoutOperation>,
                (Seq<FanoutOperation>, FanoutError),
            >(registry.operations@),
        decreases all@.len() - i,
    {
        if let Err(e) = registry.register(all[i]) {
            proof {
                lemma_registered_stays(start, (i + 1) as nat, all_operations().len());
            }
            return Err(e);
        }
        i = i + 1;
    }
    Ok(())
}

proof fn lemma_registered_stays(start: Seq<FanoutOperation>, n: nat, m: nat)
    requires
        n <= m,
        registered(start, n) is Err,
    ensures
        registered(start, m) == registered(start, n),
    decreases m,
{
    if n < m {
        lemma_registered_stays(start, n, (m - 1) as nat);
    }
}

/// Into a registry without operations, every operation of the module is registered.
pub proof fn law_fresh_registry_takes_all()
    ensures
        registered(Seq::empty(), all_operations().len()) == Ok::<
            Seq<FanoutOperation>,
            (Seq<FanoutOperation>, FanoutError),
        >(all_operations()),
{
    lemma_registers_prefix(all_operations().len());
    assert(all_operations().take(all_operations().len() as int) =~= all_operations());
}

proof fn lemma_registers_prefix(n: nat)
    requires
        n <= all_operations().len(),
    ensures
        registered(Seq::empty(), n) == Ok::<
            Seq<FanoutOperation>,
            (Seq<FanoutOperation>, FanoutError),
        >(all_operations().take(n as int)),
    decreases n,
{
    let all = all_operations();
    if n > 0 {
        lemma_registers_prefix((n - 1) as nat);
        assert(all.take(n - 1).push(all[n - 1]) =~= all.take(n as int));
        assert(!all.take(n - 1).contains(all[n - 1]));
    } else {
        assert(all.take(0) =~= Seq::<FanoutOperation>::empty());
    }
}

/// The operations of the module are registered behind those that are there; the first one that is there
/// already is reported, and nothing is registered from there on.
pub proof fn law_registered_up_to_first_known(start: Seq<FanoutOperation>, k: nat)
    requires
        k <= all_operations().len(),
        forall|i: int| 0 <= i < k ==> !start.contains(#[trigger] all_operations()[i]),
        k < all_operations().len() ==> start.contains(all_operations()[k as int]),
    ensures
        registered(start, all_operations().len()) == if k < all_operations().len() {
            Err::<Seq<FanoutOperation>, (Seq<FanoutOperation>, FanoutError)>(
                (
                    start + all_operations().take(k as int),
                    FanoutError::AlreadyRegistered(all_operations()[k as int]),
                ),
            )
        } else {
            Ok::<Seq<FanoutOperation>, (Seq<FanoutOperation>, FanoutError)>(start + all_operations())
        },
{
    let all = all_operations();
    lemma_registers_behind(start, k);
    if k < all.len() {
        let op = all[k as int];
        let i = choose|i: int| 0 <= i < start.len() && start[i] == op;
        assert((start + all.take(k as int))[i] == op);
        lemma_registered_stays(start, k + 1, all.len());
    } else {
        assert(all.take(k as int) =~= all);
    }
}

proof fn lemma_registers_behind(start: Seq<FanoutOperation>, n: nat)
    requires
        n <= all_operations().len(),
        forall|i: int| 0 <= i < n ==> !start.contains(#[trigger] all_operations()[i]),
    ensures
        registered(start, n) == Ok::<
            Seq<FanoutOperation>,
            (Seq<FanoutOperation>, FanoutError),
        >(start + all_operations().take(n as int)),
    decreases n,
{
    let all = all_operations();
    if n > 0 {
        lemma_registers_behind(start, (n - 1) as nat);
        let done = start + all.take(n - 1);
        let op = all[n - 1];
        assert(!start.contains(op));
        assert(!all.take(n - 1).contains(op));
        if done.contains(op) {
            let i = choose|i: int| 0 <= i < done.len() && done[i] == op;
            if i < start.len() {
                assert(start[i] == op);
            } else {
                assert(all.take(n - 1)[i - start.len()] == op);
            }
        }
        assert(done.push(op) =~= start + all.take(n as int));
    } else {
        assert(start + all.take(0) =~= start);
    }
}

} // verus!
