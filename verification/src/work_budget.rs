//! Bounded work accounting and cooperative cancellation.
//!
//! Every metered operation is charged to one counter before it runs. Decoded
//! bytes draw on a byte allowance; every other counter draws on one shared
//! operation allowance.

use vstd::prelude::*;

verus! {

/// The kinds of metered work.
#[derive(Clone, Copy, Debug, PartialEq, Eq, Structural, Hash)]
pub enum WorkCounter {
    /// One control event considered.
    Control,
    /// One graph node operation.
    GraphNode,
    /// One graph edge operation.
    GraphEdge,
    /// One change application.
    ApplyChange,
    /// One structural assertion.
    Assertion,
    /// One decoded byte.
    DecodeByte,
}

/// Whether `counter` draws on the byte allowance.
pub open spec fn is_byte_counter(counter: WorkCounter) -> bool {
    counter is DecodeByte
}

/// The budget has no room for a requested charge.
#[derive(Clone, Copy, Debug, PartialEq, Eq, Structural)]
pub struct BudgetExhausted;

/// Per-counter totals of work performed.
#[derive(Clone, Copy, Debug, PartialEq, Eq, Structural)]
pub struct WorkUsage {
    /// Work charged to this counter.
    pub control: u64,
    /// Work charged to this counter.
    pub graph_node: u64,
    /// Work charged to this counter.
    pub graph_edge: u64,
    /// Work charged to this counter.
    pub apply_change: u64,
    /// Work charged to this counter.
    pub assertion: u64,
    /// Work charged to this counter.
    pub decode_byte: u64,
}

impl WorkUsage {
    /// The amount charged to `counter`.
    pub open spec fn used(self, counter: WorkCounter) -> int {
        match counter {
            WorkCounter::Control => self.control as int,
            WorkCounter::GraphNode => self.graph_node as int,
            WorkCounter::GraphEdge => self.graph_edge as int,
            WorkCounter::ApplyChange => self.apply_change as int,
            WorkCounter::Assertion => self.assertion as int,
            WorkCounter::DecodeByte => self.decode_byte as int,
        }
    }

    /// The total charged to all operation counters.
    pub open spec fn operations(self) -> int {
        self.control + self.graph_node + self.graph_edge + self.apply_change + self.assertion
    }

    /// The amount charged to `counter`.
    pub fn get(&self, counter: WorkCounter) -> (n: u64)
        ensures
            n == self.used(counter),
    {
        match counter {
            WorkCounter::Control => self.control,
            WorkCounter::GraphNode => self.graph_node,
            WorkCounter::GraphEdge => self.graph_edge,
            WorkCounter::ApplyChange => self.apply_change,
            WorkCounter::Assertion => self.assertion,
            WorkCounter::DecodeByte => self.decode_byte,
        }
    }
}

/// A byte allowance and an operation allowance with the work charged so far.
#[derive(Clone, Copy, Debug, PartialEq, Eq)]
pub struct WorkBudget {
    byte_limit: u64,
    operation_limit: u64,
    usage: WorkUsage,
}

impl WorkBudget {
    /// Charged work never exceeds the allowances.
    #[verifier::type_invariant]
    spec fn within_limits(self) -> bool {
        &&& self.usage.operations() <= self.operation_limit
        &&& self.usage.decode_byte <= self.byte_limit
    }

    /// The byte allowance.
    pub closed spec fn byte_limit(self) -> int {
        self.byte_limit as int
    }

    /// The operation allowance.
    pub closed spec fn operation_limit(self) -> int {
        self.operation_limit as int
    }

    /// The work charged so far.
    pub closed spec fn usage(self) -> WorkUsage {
        self.usage
    }

    /// Whether `amount` more of `counter` fits the remaining allowance.
    pub open spec fn has_room(self, counter: WorkCounter, amount: int) -> bool {
        if is_byte_counter(counter) {
            self.usage().decode_byte + amount <= self.byte_limit()
        } else {
            self.usage().operations() + amount <= self.operation_limit()
        }
    }

    /// The usage after charging `amount` to `counter`.
    pub open spec fn charged(self, counter: WorkCounter, amount: int) -> WorkUsage {
        let u = self.usage();
        match counter {
            WorkCounter::Control => WorkUsage { control: (u.control + amount) as u64, ..u },
            WorkCounter::GraphNode => WorkUsage { graph_node: (u.graph_node + amount) as u64, ..u },
            WorkCounter::GraphEdge => WorkUsage { graph_edge: (u.graph_edge + amount) as u64, ..u },
            WorkCounter::ApplyChange => WorkUsage {
                apply_change: (u.apply_change + amount) as u64,
                ..u
            },
            WorkCounter::Assertion => WorkUsage { assertion: (u.assertion + amount) as u64, ..u },
            WorkCounter::DecodeByte => WorkUsage {
                decode_byte: (u.decode_byte + amount) as u64,
                ..u
            },
        }
    }

    /// A fresh budget with the given byte and operation allowances.
    pub fn new(byte_limit: u64, operation_limit: u64) -> (b: Self)
        ensures
            b.byte_limit() == byte_limit,
            b.operation_limit() == operation_limit,
            b.usage().operations() == 0,
            b.usage().decode_byte == 0,
            forall|c: WorkCounter| #[trigger] b.usage().used(c) == 0,
    {
        WorkBudget {
            byte_limit,
            operation_limit,
            usage: WorkUsage {
                control: 0,
                graph_node: 0,
                graph_edge: 0,
                apply_change: 0,
                assertion: 0,
                decode_byte: 0,
            },
        }
    }

    /// The work charged so far.
    pub fn consumed(&self) -> (u: WorkUsage)
        ensures
            u == self.usage(),
    {
        self.usage
    }

    /// Charges `amount` to `counter` if it fits; otherwise charges nothing.
    pub fn charge(&mut self, counter: WorkCounter, amount: u64) -> (r: Result<(), BudgetExhausted>)
        ensures
            final(self).byte_limit() == old(self).byte_limit(),
            final(self).operation_limit() == old(self).operation_limit(),
            r is Ok <==> old(self).has_room(counter, amount as int),
            r is Ok ==> final(self).usage() == old(self).charged(counter, amount as int),
            r is Err ==> final(self).usage() == old(self).usage(),
    {
        proof {
            use_type_invariant(&*self);
        }
        let u = self.usage;
        if matches!(counter, WorkCounter::DecodeByte) {
            if amount > self.byte_limit - u.decode_byte {
                return Err(BudgetExhausted);
            }
            let usage = WorkUsage { decode_byte: u.decode_byte + amount, ..u };
            *self = WorkBudget { byte_limit: self.byte_limit, operation_limit: self.operation_limit, usage };
        } else {
            let total = u.control + u.graph_node + u.graph_edge + u.apply_change + u.assertion;
            if amount > self.operation_limit - total {
                return Err(BudgetExhausted);
            }
            let usage = match counter {
                WorkCounter::Control => WorkUsage { control: u.control + amount, ..u },
                WorkCounter::GraphNode => WorkUsage { graph_node: u.graph_node + amount, ..u },
                WorkCounter::GraphEdge => WorkUsage { graph_edge: u.graph_edge + amount, ..u },
                WorkCounter::ApplyChange => WorkUsage { apply_change: u.apply_change + amount, ..u },
                _ => WorkUsage { assertion: u.assertion + amount, ..u },
            };
            *self = WorkBudget { byte_limit: self.byte_limit, operation_limit: self.operation_limit, usage };
        }
        Ok(())
    }
}

/// A cooperative cancellation signal.
///
/// Metered operations ask before each charge; an answer of `true` stops the
/// operation with a typed cancellation and no further work.
pub trait CancellationCheck {
    /// The signal never asks to stop. A signal claims nothing unless it
    /// says so.
    open spec fn never_cancels(&self) -> bool {
        false
    }

    /// The signal always asks to stop. A signal claims nothing unless it
    /// says so.
    open spec fn always_cancels(&self) -> bool {
        false
    }

    /// Whether work should stop now.
    fn is_cancelled(&self) -> (r: bool)
        ensures
            self.never_cancels() ==> !r,
            self.always_cancels() ==> r,
    ;
}

/// A signal that never cancels.
#[derive(Clone, Copy, Debug, Default, PartialEq, Eq)]
pub struct NeverCancelled;

impl CancellationCheck for NeverCancelled {
    open spec fn never_cancels(&self) -> bool {
        true
    }

    fn is_cancelled(&self) -> (r: bool)
        ensures
            !r,
    {
        false
    }
}

/// Why a metered operation stopped before completing.
#[derive(Clone, Copy, Debug, PartialEq, Eq, Structural, Hash)]
pub enum WorkStop {
    /// The work budget had no room for the next operation.
    BudgetExhausted,
    /// The cancellation signal asked to stop.
    Cancelled,
}

/// `cost` more operation units fit the remaining allowance of `b`.
pub open spec fn affords(b: WorkBudget, cost: int) -> bool {
    b.usage().operations() + cost <= b.operation_limit()
}

/// The operation allowance is used up.
pub open spec fn operations_exhausted(b: WorkBudget) -> bool {
    b.usage().operations() >= b.operation_limit()
}

/// `b` is `a` after zero or more charges.
pub open spec fn budget_grew(a: WorkBudget, b: WorkBudget) -> bool {
    &&& a.byte_limit() == b.byte_limit()
    &&& a.operation_limit() == b.operation_limit()
    &&& forall|c: WorkCounter| a.usage().used(c) <= #[trigger] b.usage().used(c)
}

/// Charging is reflexive and transitive.
pub proof fn lemma_budget_grew_trans(a: WorkBudget, b: WorkBudget, c: WorkBudget)
    requires
        budget_grew(a, b),
        budget_grew(b, c),
    ensures
        budget_grew(a, c),
{
    assert forall|k: WorkCounter| a.usage().used(k) <= #[trigger] c.usage().used(k) by {
        assert(a.usage().used(k) <= b.usage().used(k));
    }
}

/// Charging never lowers the total of operation units.
pub proof fn lemma_grew_operations(a: WorkBudget, b: WorkBudget)
    requires
        budget_grew(a, b),
    ensures
        a.usage().operations() <= b.usage().operations(),
        a.operation_limit() == b.operation_limit(),
{
    assert(a.usage().used(WorkCounter::Control) <= b.usage().used(WorkCounter::Control));
    assert(a.usage().used(WorkCounter::GraphNode) <= b.usage().used(WorkCounter::GraphNode));
    assert(a.usage().used(WorkCounter::GraphEdge) <= b.usage().used(WorkCounter::GraphEdge));
    assert(a.usage().used(WorkCounter::ApplyChange) <= b.usage().used(WorkCounter::ApplyChange));
    assert(a.usage().used(WorkCounter::Assertion) <= b.usage().used(WorkCounter::Assertion));
}

/// Checks cancellation, then charges one unit of `counter`.
pub fn charge_one(
    budget: &mut WorkBudget,
    cancellation: &impl CancellationCheck,
    counter: WorkCounter,
) -> (r: Result<(), WorkStop>)
    ensures
        final(budget).byte_limit() == old(budget).byte_limit(),
        final(budget).operation_limit() == old(budget).operation_limit(),
        r is Ok ==> old(budget).has_room(counter, 1) && final(budget).usage() == old(
            budget,
        ).charged(counter, 1),
        r is Err ==> final(budget).usage() == old(budget).usage(),
        r == Err::<(), WorkStop>(WorkStop::BudgetExhausted) ==> !old(budget).has_room(counter, 1),
        r == Err::<(), WorkStop>(WorkStop::BudgetExhausted) && !is_byte_counter(counter)
            ==> operations_exhausted(*final(budget)),
        r == Err::<(), WorkStop>(WorkStop::Cancelled) ==> !cancellation.never_cancels(),
        budget_grew(*old(budget), *final(budget)),
        cancellation.never_cancels() && old(budget).has_room(counter, 1) ==> r is Ok,
        cancellation.always_cancels() ==> r == Err::<(), WorkStop>(WorkStop::Cancelled),
{
    if cancellation.is_cancelled() {
        return Err(WorkStop::Cancelled);
    }
    match budget.charge(counter, 1) {
        Ok(()) => Ok(()),
        Err(_) => Err(WorkStop::BudgetExhausted),
    }
}

} // verus!

verus! {

/// Charges one operation unit, keeping track of the budget a computation started from.
pub fn charge_from(
    budget: &mut WorkBudget,
    cancellation: &impl CancellationCheck,
    counter: WorkCounter,
    Ghost(start): Ghost<WorkBudget>,
) -> (r: Result<(), WorkStop>)
    requires
        budget_grew(start, *old(budget)),
        !is_byte_counter(counter),
    ensures
        budget_grew(start, *final(budget)),
        budget_grew(*old(budget), *final(budget)),
        r is Ok ==> final(budget).usage() == old(budget).charged(counter, 1),
        r is Err ==> final(budget).usage() == old(budget).usage(),
        r == Err::<(), WorkStop>(WorkStop::BudgetExhausted) ==> operations_exhausted(*final(budget)),
        r == Err::<(), WorkStop>(WorkStop::Cancelled) ==> !cancellation.never_cancels(),
        r is Ok ==> final(budget).usage().operations() == old(budget).usage().operations() + 1,
        final(budget).usage().operations() <= final(budget).operation_limit(),
        cancellation.never_cancels() && affords(*old(budget), 1) ==> r is Ok,
        cancellation.always_cancels() ==> r == Err::<(), WorkStop>(WorkStop::Cancelled),
{
    let ghost before = *budget;
    let r = charge_one(budget, cancellation, counter);
    proof {
        use_type_invariant(&*budget);
    }
    proof {
        lemma_budget_grew_trans(start, before, *budget);
    }
    r
}

} // verus!

verus! {

/// Charges one operation unit without consulting cancellation, keeping
/// track of the budget a computation started from.
pub fn charge_budget_from(
    budget: &mut WorkBudget,
    counter: WorkCounter,
    Ghost(start): Ghost<WorkBudget>,
) -> (r: Result<(), BudgetExhausted>)
    requires
        budget_grew(start, *old(budget)),
        !is_byte_counter(counter),
    ensures
        budget_grew(start, *final(budget)),
        budget_grew(*old(budget), *final(budget)),
        r is Ok ==> final(budget).usage().operations() == old(budget).usage().operations() + 1,
        r is Err ==> final(budget).usage() == old(budget).usage() && operations_exhausted(*final(budget)),
        final(budget).usage().operations() <= final(budget).operation_limit(),
{
    let ghost before = *budget;
    proof {
        use_type_invariant(&*budget);
    }
    let r = budget.charge(counter, 1);
    proof {
        use_type_invariant(&*budget);
        assert(budget_grew(before, *budget)) by {
            assert forall|c: WorkCounter| before.usage().used(c) <= #[trigger] budget.usage().used(c) by {}
        }
        lemma_budget_grew_trans(start, before, *budget);
    }
    r
}

/// The work charged to `budget` never exceeds its operation allowance.
pub fn budget_within_limits(budget: &WorkBudget)
    ensures
        budget.usage().operations() <= budget.operation_limit(),
{
    proof {
        use_type_invariant(budget);
    }
}

} // verus!
