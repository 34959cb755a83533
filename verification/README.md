# nostr_automerge

Deterministic, storage-independent validation of Automerge changes carried by
signed Nostr events, written in Verus.

## Layout

- `types`, `ordered`: 32-byte identifiers with their order, and ordered
  sets and maps over them, viewed as mathematical sets and maps.
- `work_budget`: bounded work accounting and cooperative cancellation; every
  metered operation charges before it acts and never exceeds its allowance.
- `limits`, `profile`, `diagnostic`, `integrity`, `text`: protocol limits,
  revision profile, event kinds, diagnostic codes and integrity alerts.
- `graph`: change candidates, the dependency graph, topology checks, ancestor
  closures, deterministic scheduling, per-actor state and device equivocation.
- `reference`: epoch resolution, persistent branch state, propagation of
  control dispositions, branch extension, prior knowledge and the maps a
  batch evaluation starts from.

Laws that relate several functions (uniqueness of greedy orders and of
propagation outcomes, order independence of scheduling and equivocation
detection, determinism of epoch resolution) are public proof functions next
to the functions they speak of.

## What the contracts cover

Every metered function states what a successful call returns, that a
budget stop is reported only on an exhausted budget, and that a
cancellation is reported only when the signal can cancel. These also state
a budget, as an explicit cost in the sizes of their inputs, on which a
never-cancelling signal owes success, and how many units a call charges at
most (exactly, where the count is fixed): the projection build, the actor
decisions, the persistent-map operations, the branch extensions, the
epoch-engine lookups, the graph build, the ancestor and dependency
closures, equivocation detection and quarantine, control propagation, the
initial-map and prior-knowledge builders, and scheduling and epoch
resolution when no candidate is already in the accepted base. The costs are
upper bounds; for detection, quarantine and epoch resolution they are
coarse (polynomial in the input sizes; epoch resolution counts at most
twice as many settling rounds as indexed changes, since each round that
changes anything settles a change or rejects an open one; for it only the
budget that owes success is stated, not a count of units). Most of them
also state that a call on an already exhausted budget, with work to do,
stops for the budget.

The batch and epoch evaluator that drives these pieces (control
authorization, the walk over the branch tree, application of exact change
closures) is not part of this crate.
