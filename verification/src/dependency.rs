//! The dependency graph over the operations of one block.
//!
//! Two operations must keep their relative order when either
//!
//! * the later one reads a value the earlier one produced (a data dependency),
//!   or
//! * their effects conflict: one writes a scope the other touches.
//!
//! Everything else that was written down in sequence is sequential only by
//! accident of emission order, and is what parallelization is allowed to
//! reorder. The graph is the evidence for that claim; the pass never guesses.

use vstd::prelude::*;

use crate::copying::copy_all;
use crate::effect::EffectView;
use crate::effects::{lists_conflict, recorded, EffectSummary};
use crate::ids::{BlockId, OperationId, ValueId};
use crate::module::{Module, ModuleView};

verus! {

/// Why one operation must follow another.
#[derive(Clone, Copy, Debug, PartialEq, Eq, Structural)]
pub enum Reason {
    /// The later operation reads a value the earlier one produced.
    Data,
    /// Their effects conflict on an overlapping scope.
    Effect,
    /// Both: a data dependency that is also an effect conflict.
    Both,
}

impl ModuleView {
    /// Whether an operation itself brings a value into being: as a result, or
    /// as an argument of one of its blocks.
    pub open spec fn introduces(self, op: OperationId, value: ValueId) -> bool {
        ||| self.op(op).results.contains(value)
        ||| exists|n: int, b: int|
            0 <= n < self.op(op).regions.len() && 0 <= b < self.region(
                self.op(op).regions[n],
            ).blocks.len() && #[trigger] self.block(
                self.region(self.op(op).regions[n]).blocks[b],
            ).args.contains(value)
    }

    /// Whether an operation, or one nested in it, brings a value into being.
    pub open spec fn produces(self, op: OperationId, value: ValueId) -> bool {
        exists|k: int|
            0 <= k < self.subtree(op).len() && self.introduces(
                #[trigger] self.subtree(op)[k],
                value,
            )
    }

    /// Whether an operation, or one nested in it, reads a value.
    pub open spec fn reads(self, op: OperationId, value: ValueId) -> bool {
        exists|k: int|
            0 <= k < self.subtree(op).len() && self.op(
                #[trigger] self.subtree(op)[k],
            ).operands.contains(value)
    }

    /// The last of the first `n` operations that produces a value.
    pub open spec fn producer_among(self, ops: Seq<OperationId>, n: int, value: ValueId) -> Option<int>
        decreases n,
    {
        if n <= 0 {
            None
        } else if self.produces(ops[n - 1], value) {
            Some(n - 1)
        } else {
            self.producer_among(ops, n - 1, value)
        }
    }

    /// Whether a later operation of a list reads a value that an earlier one
    /// produced.
    pub open spec fn data_edge(self, ops: Seq<OperationId>, earlier: int, later: int) -> bool {
        exists|value: ValueId|
            #![trigger self.reads(ops[later], value)]
            self.reads(ops[later], value) && self.producer_among(ops, ops.len() as int, value)
                == Some(earlier)
    }
}

impl ModuleView {
    /// Whether an operation, or one nested in it, reads a value that another
    /// one, or one nested in that, brings into being.
    pub open spec fn consumes(self, later: OperationId, earlier: OperationId) -> bool {
        exists|value: ValueId| #[trigger] self.reads(later, value) && self.produces(earlier, value)
    }
}

/// The producer of a value is the only operation that produces it.
pub proof fn lemma_one_producer(
    m: ModuleView,
    block: BlockId,
    ops: Seq<OperationId>,
    n: int,
    value: ValueId,
    e: int,
)
    requires
        m.well_formed(),
        m.has_block(block),
        ops.no_duplicates(),
        forall|i: int| 0 <= i < ops.len() ==> m.block(block).ops.contains(#[trigger] ops[i]),
        0 <= e < ops.len(),
        n <= ops.len(),
    ensures
        m.producer_among(ops, n, value) == Some(e) <==> e < n && m.produces(ops[e], value),
    decreases n,
{
    if n > 0 {
        lemma_one_producer(m, block, ops, n - 1, value, e);
        if m.produces(ops[n - 1], value) && m.produces(ops[e], value) {
            crate::nesting::a_value_has_one_producer(m, block, ops[n - 1], ops[e], value);
        }
    }
}

/// A reason is what it says, whichever operation produced a value: a later
/// operation of a block follows an earlier one for its data exactly when
/// something in it reads something produced in the earlier one, and for its
/// effects exactly when they conflict.
pub proof fn reasons_are_what_they_say(
    m: ModuleView,
    block: BlockId,
    table: Seq<Seq<EffectView>>,
    earlier: int,
    later: int,
)
    requires
        m.well_formed(),
        m.has_block(block),
        0 <= earlier < later < graph_of(m, block, table).order.len(),
    ensures
        ({
            let g = graph_of(m, block, table);
            let data = m.consumes(g.order[later], g.order[earlier]);
            let effect = lists_conflict(
                recorded(table, g.order[earlier]),
                recorded(table, g.order[later]),
            );
            g.reasons[later][earlier] == if data && effect {
                Some(Reason::Both)
            } else if data {
                Some(Reason::Data)
            } else if effect {
                Some(Reason::Effect)
            } else {
                None
            }
        }),
{
    let g = graph_of(m, block, table);
    let ops = m.block(block).ops;
    assert(m.block_in_bounds(m.blocks[block.spec_index()]));
    lemma_live_distinct(m, ops);
    assert forall|i: int| 0 <= i < g.order.len() implies ops.contains(#[trigger] g.order[i]) by {
        let keep = |op: OperationId| !m.op(op).erased;
        crate::printer::lemma_filter_member(ops, keep, i);
        let k = choose|k: int| 0 <= k < ops.len() && ops[k] == g.order[i] && keep(ops[k]);
        assert(ops.contains(ops[k]));
    }
    let n = g.order.len() as int;
    assert(m.data_edge(g.order, earlier, later) == m.consumes(
        g.order[later],
        g.order[earlier],
    )) by {
        if m.data_edge(g.order, earlier, later) {
            let v = choose|v: ValueId|
                #![trigger m.reads(g.order[later], v)]
                m.reads(g.order[later], v) && m.producer_among(g.order, n, v) == Some(earlier);
            lemma_one_producer(m, block, g.order, n, v, earlier);
        }
        if m.consumes(g.order[later], g.order[earlier]) {
            let v = choose|v: ValueId| #[trigger]
                m.reads(g.order[later], v) && m.produces(g.order[earlier], v);
            lemma_one_producer(m, block, g.order, n, v, earlier);
        }
    }
}

/// Why the operation at a later position of a list must follow the one at an
/// earlier position, if it must.
pub open spec fn reason_between(
    m: ModuleView,
    table: Seq<Seq<EffectView>>,
    ops: Seq<OperationId>,
    earlier: int,
    later: int,
) -> Option<Reason> {
    let data = m.data_edge(ops, earlier, later);
    let effect = lists_conflict(recorded(table, ops[earlier]), recorded(table, ops[later]));
    if data && effect {
        Some(Reason::Both)
    } else if data {
        Some(Reason::Data)
    } else if effect {
        Some(Reason::Effect)
    } else {
        None
    }
}

/// Which operations of a block depend on which: the operations in program
/// order, and for each of them the reason to follow each earlier one.
#[verifier::ext_equal]
pub ghost struct GraphView {
    pub block: BlockId,
    pub order: Seq<OperationId>,
    pub reasons: Seq<Seq<Option<Reason>>>,
}

/// The graph of the live operations directly inside a block.
pub open spec fn graph_of(m: ModuleView, block: BlockId, table: Seq<Seq<EffectView>>) -> GraphView {
    let order = m.live(m.block(block).ops);
    GraphView {
        block,
        order,
        reasons: Seq::new(
            order.len(),
            |later: int|
                Seq::new(
                    later as nat,
                    |earlier: int| reason_between(m, table, order, earlier, later),
                ),
        ),
    }
}

impl GraphView {
    /// Whether there is one list of reasons for each operation, with one entry
    /// for each earlier operation, and no operation occurs twice.
    pub open spec fn well_formed(self) -> bool {
        &&& self.reasons.len() == self.order.len()
        &&& forall|j: int| 0 <= j < self.order.len() ==> (#[trigger] self.reasons[j]).len() == j
        &&& self.order.no_duplicates()
    }

    /// Whether the operation at a later position directly depends on the one at
    /// an earlier position.
    pub open spec fn edge(self, earlier: int, later: int) -> bool {
        0 <= earlier < later < self.order.len() && self.reasons[later][earlier] is Some
    }

    /// Whether the operation at a later position depends on the one at an
    /// earlier position, directly or through others.
    pub open spec fn follows(self, later: int, earlier: int) -> bool
        decreases later,
    {
        ||| self.edge(earlier, later)
        ||| exists|k: int|
            earlier < k < later && #[trigger] self.edge(k, later) && self.follows(k, earlier)
    }

    /// The position of an operation.
    pub open spec fn position(self, op: OperationId) -> Option<int> {
        crate::dominance::position_from(self.order, op, 0)
    }

    /// Whether an operation directly depends on another.
    pub open spec fn must_follow(self, later: OperationId, earlier: OperationId) -> bool {
        match self.position(later) {
            Some(j) => exists|i: int| 0 <= i < j && #[trigger] self.edge(i, j) && self.order[i] == earlier,
            None => false,
        }
    }

    /// The length of the longest chain of dependencies of an operation that
    /// starts with one of the first `n` operations.
    pub open spec fn depth_within(self, later: int, n: int) -> nat
        decreases later, n,
    {
        if n <= 0 || later < n {
            0
        } else {
            let rest = self.depth_within(later, n - 1);
            if n - 1 < later && self.edge(n - 1, later) {
                let via = self.depth_within(n - 1, n - 1) + 1;
                if via > rest {
                    via
                } else {
                    rest
                }
            } else {
                rest
            }
        }
    }

    /// The length of the longest chain of dependencies of an operation.
    pub open spec fn depth(self, later: int) -> nat {
        self.depth_within(later, later)
    }

    /// The operations among the first `n` whose longest chain has a length.
    pub open spec fn level_within(self, level: nat, n: int) -> Seq<OperationId>
        decreases n,
    {
        if n <= 0 {
            Seq::empty()
        } else if self.depth(n - 1) == level {
            self.level_within(level, n - 1).push(self.order[n - 1])
        } else {
            self.level_within(level, n - 1)
        }
    }

    /// The operations whose longest chain has a length, in program order.
    pub open spec fn level(self, level: nat) -> Seq<OperationId> {
        self.level_within(level, self.order.len() as int)
    }

    /// One more than the longest chain among the first `n` operations.
    pub open spec fn height_within(self, n: int) -> nat
        decreases n,
    {
        if n <= 0 {
            0
        } else {
            let rest = self.height_within(n - 1);
            if self.depth(n - 1) + 1 > rest {
                self.depth(n - 1) + 1
            } else {
                rest
            }
        }
    }

    /// How many levels there are.
    pub open spec fn height(self) -> nat {
        self.height_within(self.order.len() as int)
    }

    /// The batches of operations that may run concurrently, in order.
    pub open spec fn levels(self) -> Seq<Seq<OperationId>> {
        Seq::new(self.height(), |l: int| self.level(l as nat))
    }
}

/// Which operations of a block depend on which.
#[derive(Debug)]
pub struct DependencyGraph {
    block: BlockId,
    order: Vec<OperationId>,
    /// For each operation, why it must follow each of the earlier ones.
    reasons: Vec<Vec<Option<Reason>>>,
}

impl View for DependencyGraph {
    type V = GraphView;

    closed spec fn view(&self) -> GraphView {
        GraphView {
            block: self.block,
            order: self.order@,
            reasons: Seq::new(self.reasons@.len(), |i: int| self.reasons@[i]@),
        }
    }
}

impl Clone for DependencyGraph {
    /// A copy of the graph.
    fn clone(&self) -> (r: DependencyGraph)
        ensures
            r@ == self@,
    {
        let mut reasons: Vec<Vec<Option<Reason>>> = Vec::new();
        let mut i: usize = 0;
        while i < self.reasons.len()
            invariant
                i <= self.reasons@.len(),
                reasons@.len() == i,
                forall|j: int| 0 <= j < i ==> (#[trigger] reasons@[j])@ == self.reasons@[j]@,
            decreases self.reasons@.len() - i,
        {
            reasons.push(copy_all(&self.reasons[i]));
            i += 1;
        }
        let r = DependencyGraph { block: self.block, order: copy_all(&self.order), reasons };
        assert(r@ =~= self@);
        r
    }
}

/// Whether a list holds a value.
fn holds(values: &Vec<ValueId>, value: ValueId) -> (r: bool)
    ensures
        r == values@.contains(value),
{
    let mut i: usize = 0;
    while i < values.len()
        invariant
            i <= values@.len(),
            forall|j: int| 0 <= j < i ==> values@[j] != value,
        decreases values@.len() - i,
    {
        if values[i] == value {
            return true;
        }
        i += 1;
    }
    false
}

/// The arguments of the blocks of the regions of an operation.
fn block_args_of(module: &Module, op: OperationId) -> (r: Vec<ValueId>)
    requires
        module@.in_bounds(),
        module@.has_op(op),
    ensures
        forall|value: ValueId| #[trigger]
            r@.contains(value) <==> exists|n: int, b: int|
                0 <= n < module@.op(op).regions.len() && 0 <= b < module@.region(
                    module@.op(op).regions[n],
                ).blocks.len() && #[trigger] module@.block(
                    module@.region(module@.op(op).regions[n]).blocks[b],
                ).args.contains(value),
        forall|i: int| 0 <= i < r@.len() ==> module@.has_value(#[trigger] r@[i]),
{
    let ghost m = module@;
    let mut out: Vec<ValueId> = Vec::new();
    let regions = &module.op(op).regions;
    proof {
        assert(m.op_in_bounds(m.ops[op.spec_index()]));
    }
    let mut n: usize = 0;
    while n < regions.len()
        invariant
            n <= regions@.len(),
            m == module@,
            m.in_bounds(),
            m.has_op(op),
            m.op_in_bounds(m.op(op)),
            regions@ == m.op(op).regions,
            forall|i: int| 0 <= i < out@.len() ==> m.has_value(#[trigger] out@[i]),
            forall|value: ValueId| #[trigger]
                out@.contains(value) <==> exists|x: int, y: int|
                    0 <= x < n && 0 <= y < m.region(regions@[x]).blocks.len() && #[trigger] m.block(
                        m.region(regions@[x]).blocks[y],
                    ).args.contains(value),
        decreases regions@.len() - n,
    {
        assert(m.has_region(regions@[n as int]));
        let region = regions[n];
        assert(m.region_in_bounds(m.regions[region.spec_index()]));
        let blocks = &module.region(region).blocks;
        let ghost before = out@;
        let mut b: usize = 0;
        while b < blocks.len()
            invariant
                n < regions@.len(),
                b <= blocks@.len(),
                m == module@,
                m.in_bounds(),
                region == regions@[n as int],
                blocks@ == m.region(region).blocks,
                m.region_in_bounds(m.region(region)),
                forall|i: int| 0 <= i < out@.len() ==> m.has_value(#[trigger] out@[i]),
                forall|value: ValueId| #[trigger]
                    out@.contains(value) <==> (before.contains(value) || exists|y: int|
                        0 <= y < b && #[trigger] m.block(blocks@[y]).args.contains(value)),
            decreases blocks@.len() - b,
        {
            assert(m.has_block(blocks@[b as int]));
            let block = blocks[b];
            assert(m.block_in_bounds(m.blocks[block.spec_index()]));
            let ghost middle = out@;
            let args = &module.block(block).args;
            let mut more = copy_all(args);
            let ghost added = more@;
            out.append(&mut more);
            proof {
                assert(out@ =~= middle + added);
                assert forall|i: int| 0 <= i < out@.len() implies m.has_value(
                    #[trigger] out@[i],
                ) by {
                    if i < middle.len() {
                        assert(out@[i] == middle[i]);
                    } else {
                        assert(out@[i] == added[i - middle.len()]);
                        assert(m.has_value(m.block(block).args[i - middle.len()]));
                    }
                }
                assert forall|value: ValueId| #[trigger] out@.contains(value) <==> (
                before.contains(value) || exists|y: int|
                    0 <= y < b + 1 && #[trigger] m.block(blocks@[y]).args.contains(value)) by {
                    lemma_contains_concat(middle, added, value);
                    assert(middle.contains(value) <==> (before.contains(value) || exists|y: int|
                        0 <= y < b && #[trigger] m.block(blocks@[y]).args.contains(value)));
                    if added.contains(value) {
                        assert(m.block(blocks@[b as int]).args.contains(value));
                    }
                }
            }
            b += 1;
        }
        proof {
            assert forall|value: ValueId| #[trigger] out@.contains(value) <==> exists|x: int, y: int|
                0 <= x < n + 1 && 0 <= y < m.region(regions@[x]).blocks.len() && #[trigger] m.block(
                    m.region(regions@[x]).blocks[y],
                ).args.contains(value) by {
                if before.contains(value) {
                    let (x, y) = choose|x: int, y: int|
                        0 <= x < n && 0 <= y < m.region(regions@[x]).blocks.len()
                            && #[trigger] m.block(
                            m.region(regions@[x]).blocks[y],
                        ).args.contains(value);
                    assert(m.block(m.region(regions@[x]).blocks[y]).args.contains(value));
                } else if out@.contains(value) {
                    let y = choose|y: int|
                        0 <= y < blocks@.len() && #[trigger] m.block(blocks@[y]).args.contains(
                            value,
                        );
                    assert(m.block(m.region(regions@[n as int]).blocks[y]).args.contains(value));
                }
                if exists|x: int, y: int|
                    0 <= x < n + 1 && 0 <= y < m.region(regions@[x]).blocks.len()
                        && #[trigger] m.block(m.region(regions@[x]).blocks[y]).args.contains(
                        value,
                    ) {
                    let (x, y) = choose|x: int, y: int|
                        0 <= x < n + 1 && 0 <= y < m.region(regions@[x]).blocks.len()
                            && #[trigger] m.block(
                            m.region(regions@[x]).blocks[y],
                        ).args.contains(value);
                    if x == n {
                        assert(m.block(blocks@[y]).args.contains(value));
                    } else {
                        assert(before.contains(value));
                    }
                }
            }
        }
        n += 1;
    }
    out
}

proof fn lemma_contains_concat<A>(a: Seq<A>, b: Seq<A>, x: A)
    ensures
        (a + b).contains(x) <==> (a.contains(x) || b.contains(x)),
{
    if a.contains(x) {
        let i = choose|i: int| 0 <= i < a.len() && a[i] == x;
        assert((a + b)[i] == x);
    }
    if b.contains(x) {
        let i = choose|i: int| 0 <= i < b.len() && b[i] == x;
        assert((a + b)[a.len() + i] == x);
    }
    if (a + b).contains(x) {
        let i = choose|i: int| 0 <= i < (a + b).len() && (a + b)[i] == x;
        if i < a.len() {
            assert(a[i] == x);
        } else {
            assert(b[i - a.len()] == x);
        }
    }
}

/// The values that an operation, or one nested in it, reads.
fn collect_reads(module: &Module, op: OperationId) -> (r: Vec<ValueId>)
    requires
        module@.well_formed(),
        module@.has_op(op),
        !module@.op(op).erased,
    ensures
        forall|value: ValueId| #[trigger] r@.contains(value) <==> module@.reads(op, value),
        forall|i: int| 0 <= i < r@.len() ==> module@.has_value(#[trigger] r@[i]),
{
    let ghost m = module@;
    let ops = module.subtree(op);
    proof {
        crate::traversal::subtrees_are_live(m, op);
    }
    let mut out: Vec<ValueId> = Vec::new();
    let mut k: usize = 0;
    while k < ops.len()
        invariant
            k <= ops@.len(),
            m == module@,
            m.in_bounds(),
            ops@ == m.subtree(op),
            crate::traversal::all_live(m, ops@),
            forall|i: int| 0 <= i < out@.len() ==> m.has_value(#[trigger] out@[i]),
            forall|value: ValueId| #[trigger]
                out@.contains(value) <==> exists|j: int|
                    0 <= j < k && m.op(#[trigger] ops@[j]).operands.contains(value),
        decreases ops@.len() - k,
    {
        assert(m.has_op(ops@[k as int]));
        let inner = ops[k];
        assert(m.op_in_bounds(m.ops[inner.spec_index()]));
        let ghost before = out@;
        let mut more = copy_all(&module.op(inner).operands);
        let ghost added = more@;
        out.append(&mut more);
        proof {
            assert(out@ =~= before + added);
            assert forall|i: int| 0 <= i < out@.len() implies m.has_value(#[trigger] out@[i]) by {
                if i < before.len() {
                    assert(out@[i] == before[i]);
                } else {
                    assert(out@[i] == added[i - before.len()]);
                    assert(m.has_value(m.op(inner).operands[i - before.len()]));
                }
            }
            assert forall|value: ValueId| #[trigger] out@.contains(value) <==> exists|j: int|
                0 <= j < k + 1 && m.op(#[trigger] ops@[j]).operands.contains(value) by {
                lemma_contains_concat(before, added, value);
                if added.contains(value) {
                    assert(m.op(ops@[k as int]).operands.contains(value));
                }
                assert(before.contains(value) <==> exists|j: int|
                    0 <= j < k && m.op(#[trigger] ops@[j]).operands.contains(value));
            }
        }
        k += 1;
    }
    out
}

/// The producer a table records for a value, as a position.
spec fn table_entry(table: Seq<Option<usize>>, value: ValueId) -> Option<int> {
    match table[value.spec_index()] {
        Some(p) => Some(p as int),
        None => None,
    }
}

/// Records an operation as the producer of some values.
fn mark_produced(table: &mut Vec<Option<usize>>, values: &Vec<ValueId>, p: usize)
    requires
        forall|i: int|
            0 <= i < values@.len() ==> (#[trigger] values@[i]).spec_index() < old(table)@.len(),
    ensures
        final(table)@.len() == old(table)@.len(),
        forall|v: ValueId|
            v.spec_index() < old(table)@.len() ==> #[trigger] table_entry(final(table)@, v)
                == if values@.contains(v) {
                Some(p as int)
            } else {
                table_entry(old(table)@, v)
            },
{
    let mut i: usize = 0;
    assert(values@.take(0) =~= Seq::empty());
    while i < values.len()
        invariant
            i <= values@.len(),
            table@.len() == old(table)@.len(),
            forall|i: int|
                0 <= i < values@.len() ==> (#[trigger] values@[i]).spec_index() < old(table)@.len(),
            forall|v: ValueId|
                v.spec_index() < old(table)@.len() ==> #[trigger] table_entry(table@, v)
                    == if values@.take(i as int).contains(v) {
                    Some(p as int)
                } else {
                    table_entry(old(table)@, v)
                },
        decreases values@.len() - i,
    {
        let ghost before = table@;
        let value = values[i];
        assert(values@[i as int].spec_index() < old(table)@.len());
        let k: usize = value.index();
        table[k] = Some(p);
        proof {
            let x = values@.take(i as int);
            let y = values@.take(i + 1);
            assert(y =~= x + seq![value]);
            assert forall|v: ValueId|
                v.spec_index() < old(table)@.len() implies #[trigger] table_entry(table@, v)
                == if y.contains(v) {
                Some(p as int)
            } else {
                table_entry(old(table)@, v)
            } by {
                lemma_contains_concat(x, seq![value], v);
                assert(seq![value].contains(v) <==> v == value) by {
                    if v == value {
                        assert(seq![value][0] == v);
                    }
                }
                assert(table_entry(before, v) == if x.contains(v) {
                    Some(p as int)
                } else {
                    table_entry(old(table)@, v)
                });
                if v != value {
                    assert(v.spec_index() != k);
                }
            }
        }
        i += 1;
    }
    assert(values@.take(i as int) =~= values@);
}

/// For each value, the last operation of a list that produces it.
fn collect_produced(module: &Module, order: &Vec<OperationId>) -> (r: Vec<Option<usize>>)
    requires
        module@.well_formed(),
        crate::traversal::all_live(module@, order@),
    ensures
        r@.len() == module@.values.len(),
        forall|v: ValueId|
            module@.has_value(v) ==> #[trigger] table_entry(r@, v) == module@.producer_among(
                order@,
                order@.len() as int,
                v,
            ),
{
    let ghost m = module@;
    let mut table: Vec<Option<usize>> = Vec::new();
    let mut i: usize = 0;
    while i < module.value_capacity()
        invariant
            i <= module@.values.len(),
            table@.len() == i,
            forall|j: int| 0 <= j < i ==> #[trigger] table@[j] == None::<usize>,
        decreases module@.values.len() - i,
    {
        table.push(None);
        i += 1;
    }
    let mut p: usize = 0;
    while p < order.len()
        invariant
            p <= order@.len(),
            m == module@,
            m.well_formed(),
            crate::traversal::all_live(m, order@),
            table@.len() == m.values.len(),
            forall|v: ValueId|
                m.has_value(v) ==> #[trigger] table_entry(table@, v) == m.producer_among(
                    order@,
                    p as int,
                    v,
                ),
        decreases order@.len() - p,
    {
        let root = order[p];
        assert(m.has_op(order@[p as int]));
        let ops = module.subtree(root);
        proof {
            crate::traversal::subtrees_are_live(m, root);
        }
        let ghost before = table@;
        let mut k: usize = 0;
        while k < ops.len()
            invariant
                k <= ops@.len(),
                p < order@.len(),
                m == module@,
                m.well_formed(),
                ops@ == m.subtree(root),
                crate::traversal::all_live(m, ops@),
                table@.len() == m.values.len(),
                before.len() == m.values.len(),
                forall|v: ValueId|
                    m.has_value(v) ==> #[trigger] table_entry(table@, v) == if exists|j: int|
                        0 <= j < k && m.introduces(#[trigger] ops@[j], v) {
                        Some(p as int)
                    } else {
                        table_entry(before, v)
                    },
            decreases ops@.len() - k,
        {
            assert(m.has_op(ops@[k as int]));
            let inner = ops[k];
            assert(m.op_in_bounds(m.ops[inner.spec_index()]));
            let ghost middle = table@;
            mark_produced(&mut table, &module.op(inner).results, p);
            let args = block_args_of(module, inner);
            let ghost marked = table@;
            mark_produced(&mut table, &args, p);
            proof {
                assert forall|v: ValueId| m.has_value(v) implies #[trigger] table_entry(table@, v)
                    == if exists|j: int| 0 <= j < k + 1 && m.introduces(#[trigger] ops@[j], v) {
                    Some(p as int)
                } else {
                    table_entry(before, v)
                } by {
                    assert(table_entry(marked, v) == if m.op(inner).results.contains(v) {
                        Some(p as int)
                    } else {
                        table_entry(middle, v)
                    });
                    assert(table_entry(middle, v) == if exists|j: int|
                        0 <= j < k && m.introduces(#[trigger] ops@[j], v) {
                        Some(p as int)
                    } else {
                        table_entry(before, v)
                    });
                    assert(m.introduces(inner, v) == (m.op(inner).results.contains(v)
                        || args@.contains(v)));
                    if m.introduces(inner, v) {
                        assert(m.introduces(ops@[k as int], v));
                    }
                }
            }
            k += 1;
        }
        p += 1;
    }
    table
}

impl DependencyGraph {
    /// Whether some value of a list has a producer.
    fn reads_from(table: &Vec<Option<usize>>, reads: &Vec<ValueId>, producer: usize) -> (r: bool)
        requires
            forall|i: int|
                0 <= i < reads@.len() ==> (#[trigger] reads@[i]).spec_index() < table@.len(),
        ensures
            r == exists|i: int|
                0 <= i < reads@.len() && table_entry(table@, #[trigger] reads@[i]) == Some(
                    producer as int,
                ),
    {
        let mut i: usize = 0;
        while i < reads.len()
            invariant
                i <= reads@.len(),
                forall|i: int|
                    0 <= i < reads@.len() ==> (#[trigger] reads@[i]).spec_index() < table@.len(),
                forall|j: int|
                    0 <= j < i ==> table_entry(table@, #[trigger] reads@[j]) != Some(
                        producer as int,
                    ),
            decreases reads@.len() - i,
        {
            assert(reads@[i as int].spec_index() < table@.len());
            if let Some(p) = table[reads[i].index()] {
                if p == producer {
                    assert(table_entry(table@, reads@[i as int]) == Some(producer as int));
                    return true;
                }
            }
            i += 1;
        }
        false
    }

    /// Builds the graph for the operations directly inside a block.
    ///
    /// Operations nested deeper are represented by the operation that owns
    /// their region, using its effect summary, so a `control.loop` that deletes
    /// rows is correctly ordered against a read of the same table.
    pub fn of_block(module: &Module, block: BlockId, effects: &EffectSummary) -> (r: DependencyGraph)
        requires
            module@.well_formed(),
            module@.has_block(block),
        ensures
            r@ == graph_of(module@, block, effects@),
            r@.well_formed(),
    {
        let ghost m = module@;
        proof {
            assert(m.block_in_bounds(m.blocks[block.spec_index()]));
            crate::traversal::lemma_live(m, m.block(block).ops);
            lemma_live_distinct(m, m.block(block).ops);
        }
        let order = module.live_ops_of(block);
        // A value produced anywhere inside an operation's subtree is attributed
        // to that operation, so a use of a nested result still creates an edge.
        let table = collect_produced(module, &order);
        let mut reasons: Vec<Vec<Option<Reason>>> = Vec::new();
        let mut later: usize = 0;
        while later < order.len()
            invariant
                later <= order@.len(),
                m == module@,
                m.well_formed(),
                crate::traversal::all_live(m, order@),
                table@.len() == m.values.len(),
                forall|v: ValueId|
                    m.has_value(v) ==> #[trigger] table_entry(table@, v) == m.producer_among(
                        order@,
                        order@.len() as int,
                        v,
                    ),
                reasons@.len() == later,
                forall|j: int|
                    0 <= j < later ==> (#[trigger] reasons@[j])@ == Seq::new(
                        j as nat,
                        |i: int| reason_between(m, effects@, order@, i, j),
                    ),
            decreases order@.len() - later,
        {
            let op = order[later];
            assert(m.has_op(order@[later as int]));
            let reads = collect_reads(module, op);
            let mut row: Vec<Option<Reason>> = Vec::new();
            let mut earlier: usize = 0;
            while earlier < later
                invariant
                    earlier <= later < order@.len(),
                    m == module@,
                    op == order@[later as int],
                    table@.len() == m.values.len(),
                    forall|v: ValueId|
                        m.has_value(v) ==> #[trigger] table_entry(table@, v) == m.producer_among(
                            order@,
                            order@.len() as int,
                            v,
                        ),
                    forall|value: ValueId| #[trigger]
                        reads@.contains(value) <==> m.reads(op, value),
                    forall|i: int| 0 <= i < reads@.len() ==> m.has_value(#[trigger] reads@[i]),
                    row@.len() == earlier,
                    forall|i: int|
                        0 <= i < earlier ==> #[trigger] row@[i] == reason_between(
                            m,
                            effects@,
                            order@,
                            i,
                            later as int,
                        ),
                decreases later - earlier,
            {
                proof {
                    assert forall|i: int| 0 <= i < reads@.len() implies (
                    #[trigger] reads@[i]).spec_index() < table@.len() by {
                        assert(m.has_value(reads@[i]));
                    }
                }
                let data = DependencyGraph::reads_from(&table, &reads, earlier);
                proof {
                    if data {
                        let i = choose|i: int|
                            0 <= i < reads@.len() && table_entry(table@, #[trigger] reads@[i])
                                == Some(earlier as int);
                        let v = reads@[i];
                        assert(reads@.contains(v));
                        assert(m.has_value(v));
                        assert(m.reads(order@[later as int], v));
                    }
                    if m.data_edge(order@, earlier as int, later as int) {
                        let v = choose|v: ValueId|
                            #![trigger m.reads(order@[later as int], v)]
                            m.reads(order@[later as int], v) && m.producer_among(
                                order@,
                                order@.len() as int,
                                v,
                            ) == Some(earlier as int);
                        assert(reads@.contains(v));
                        let i = choose|i: int| 0 <= i < reads@.len() && reads@[i] == v;
                        assert(m.has_value(reads@[i]));
                        assert(table_entry(table@, reads@[i]) == Some(earlier as int));
                    }
                }
                let effect = effects.conflict(order[earlier], op);
                let reason: Option<Reason> = if data && effect {
                    Some(Reason::Both)
                } else if data {
                    Some(Reason::Data)
                } else if effect {
                    Some(Reason::Effect)
                } else {
                    None
                };
                row.push(reason);
                earlier += 1;
            }
            assert(row@ =~= Seq::new(
                later as nat,
                |i: int| reason_between(m, effects@, order@, i, later as int),
            ));
            reasons.push(row);
            later += 1;
        }
        let graph = DependencyGraph { block, order, reasons };
        assert(graph@.reasons =~= graph_of(m, block, effects@).reasons);
        graph
    }

    /// The block this graph describes.
    pub fn block(&self) -> (r: BlockId)
        ensures
            r == self@.block,
    {
        self.block
    }

    /// The operations, in program order.
    pub fn operations(&self) -> (r: &Vec<OperationId>)
        ensures
            r@ == self@.order,
    {
        &self.order
    }

    fn position(&self, op: OperationId) -> (r: Option<usize>)
        ensures
            match r {
                Some(i) => self@.position(op) == Some(i as int) && i < self@.order.len()
                    && self@.order[i as int] == op,
                None => self@.position(op) is None,
            },
    {
        let mut i: usize = 0;
        while i < self.order.len()
            invariant
                i <= self.order@.len(),
                self@.position(op) == crate::dominance::position_from(self.order@, op, i as int),
            decreases self.order@.len() - i,
        {
            if self.order[i] == op {
                return Some(i);
            }
            i += 1;
        }
        None
    }

    /// The operations `op` directly depends on, in the order of their handles.
    pub fn predecessors(&self, op: OperationId) -> (r: Vec<OperationId>)
        requires
            self@.well_formed(),
        ensures
            forall|i: int, j: int| 0 <= i < j < r@.len() ==> r@[i].0 < r@[j].0,
            forall|p: OperationId| #[trigger] r@.contains(p) <==> self@.must_follow(op, p),
    {
        let mut out: Vec<OperationId> = Vec::new();
        let later: usize = match self.position(op) {
            Some(later) => later,
            None => {
                return out;
            },
        };
        let mut i: usize = 0;
        while i < later
            invariant
                i <= later < self.order@.len(),
                self@.well_formed(),
                forall|x: int, y: int| 0 <= x < y < out@.len() ==> out@[x].0 < out@[y].0,
                forall|p: OperationId| #[trigger]
                    out@.contains(p) <==> exists|k: int|
                        k < i && #[trigger] self@.edge(k, later as int) && self@.order[k] == p,
            decreases later - i,
        {
            let ghost before = out@;
            assert(self@.reasons[later as int].len() == later);
            if self.reasons[later][i].is_some() {
                let p = self.order[i];
                insert_sorted(&mut out, p);
                proof {
                    assert(self@.edge(i as int, later as int));
                    assert forall|q: OperationId| #[trigger] out@.contains(q) <==> exists|k: int|
                        k < i + 1 && #[trigger] self@.edge(k, later as int) && self@.order[k]
                            == q by {
                        assert(before.contains(q) <==> exists|k: int|
                            k < i && #[trigger] self@.edge(k, later as int) && self@.order[k]
                                == q);
                    }
                }
            } else {
                assert(!self@.edge(i as int, later as int));
            }
            i += 1;
        }
        proof {
            let j = later as int;
            assert(self@.position(op) == Some(j));
            assert forall|p: OperationId| #[trigger] out@.contains(p) <==> self@.must_follow(
                op,
                p,
            ) by {
                if out@.contains(p) {
                    let k = choose|k: int|
                        k < i && #[trigger] self@.edge(k, later as int) && self@.order[k] == p;
                    assert(self@.edge(k, j));
                    assert(self@.order[k] == p);
                    let g = self@;
                    assert(g.position(op) is Some);
                    assert(g.position(op)->0 == j);
                    assert(g.edge(k, g.position(op)->0));
                    assert(exists|i: int| 0 <= i < j && #[trigger] g.edge(i, j) && g.order[i] == p);
                    assert(g.must_follow(op, p));
                }
                if self@.must_follow(op, p) {
                    let k = choose|k: int|
                        0 <= k < j && #[trigger] self@.edge(k, j) && self@.order[k] == p;
                    assert(self@.edge(k, j) && self@.order[k] == p);
                    assert(k < i && self@.edge(k, later as int));
                    assert(out@.contains(p));
                }
            }
        }
        out
    }

    /// Why `later` must follow `earlier`, if it must.
    pub fn reason(&self, earlier: OperationId, later: OperationId) -> (r: Option<Reason>)
        requires
            self@.well_formed(),
        ensures
            r == match (self@.position(earlier), self@.position(later)) {
                (Some(i), Some(j)) => if i < j {
                    self@.reasons[j][i]
                } else {
                    None
                },
                _ => None,
            },
    {
        match (self.position(earlier), self.position(later)) {
            (Some(i), Some(j)) => {
                if i < j {
                    assert(self@.reasons[j as int].len() == j);
                    self.reasons[j][i]
                } else {
                    None
                }
            },
            _ => None,
        }
    }

    fn has_edge(&self, earlier: usize, later: usize) -> (r: bool)
        requires
            self@.well_formed(),
            earlier < later < self@.order.len(),
        ensures
            r == self@.edge(earlier as int, later as int),
    {
        assert(self@.reasons[later as int].len() == later);
        self.reasons[later][earlier].is_some()
    }

    /// Whether the operation at a position directly depends on none of those
    /// from an earlier position up to it.
    pub fn is_independent(&self, start: usize, end: usize) -> (r: bool)
        requires
            self@.well_formed(),
            start <= end < self@.order.len(),
        ensures
            r == forall|k: int| start <= k < end ==> (#[trigger] self@.reasons[end as int][k]) is None,
    {
        assert(self@.reasons[end as int].len() == end);
        let mut k: usize = start;
        while k < end
            invariant
                start <= k <= end < self@.order.len(),
                self@.well_formed(),
                self@.reasons[end as int].len() == end,
                forall|j: int| start <= j < k ==> (#[trigger] self@.reasons[end as int][j]) is None,
            decreases end - k,
        {
            if self.reasons[end][k].is_some() {
                assert(self@.reasons[end as int][k as int] is Some);
                return false;
            }
            k += 1;
        }
        true
    }

    /// Whether `later` must follow `earlier`, directly or transitively.
    pub fn depends_on(&self, later: OperationId, earlier: OperationId) -> (r: bool)
        requires
            self@.well_formed(),
        ensures
            r == (self@.position(earlier) matches Some(i) && self@.position(later) matches Some(j)
                && self@.follows(j, i)),
    {
        match (self.position(earlier), self.position(later)) {
            (Some(i), Some(j)) => {
                if i >= j {
                    return false;
                }
                // Which of the operations from `i` on depend on it.
                let mut dependent: Vec<bool> = Vec::new();
                let mut p: usize = 0;
                assert(j < self.order.len());
                while p <= j
                    invariant
                        p <= j + 1,
                        j < usize::MAX,
                        i < j < self@.order.len(),
                        self@.well_formed(),
                        dependent@.len() == p,
                        forall|q: int|
                            0 <= q < p ==> #[trigger] dependent@[q] == self@.follows(q, i as int),
                    decreases j + 1 - p,
                {
                    let mut found = i < p && self.has_edge(i, p);
                    let mut k: usize = i + 1;
                    while k < p
                        invariant
                            i < k,
                            p <= j,
                            p < i + 1 || k <= p || !found,
                            i < j < self@.order.len(),
                            self@.well_formed(),
                            dependent@.len() == p,
                            forall|q: int|
                                0 <= q < p ==> #[trigger] dependent@[q] == self@.follows(
                                    q,
                                    i as int,
                                ),
                            found == (self@.edge(i as int, p as int) || exists|q: int|
                                i < q < k && #[trigger] self@.edge(q, p as int) && self@.follows(
                                    q,
                                    i as int,
                                )),
                        decreases p - k,
                    {
                        let step = self.has_edge(k, p) && dependent[k];
                        if step {
                            assert(self@.edge(k as int, p as int) && self@.follows(
                                k as int,
                                i as int,
                            ));
                            found = true;
                        }
                        k += 1;
                    }
                    dependent.push(found);
                    p += 1;
                }
                dependent[j]
            },
            _ => false,
        }
    }

    /// The length of the longest chain of dependencies of each operation.
    fn depths(&self) -> (r: Vec<usize>)
        requires
            self@.well_formed(),
        ensures
            r@.len() == self@.order.len(),
            forall|j: int| 0 <= j < r@.len() ==> #[trigger] r@[j] == self@.depth(j),
            forall|j: int| 0 <= j < r@.len() ==> #[trigger] r@[j] <= j,
    {
        let mut depths: Vec<usize> = Vec::new();
        let mut j: usize = 0;
        while j < self.order.len()
            invariant
                j <= self.order@.len(),
                self.order@ == self@.order,
                self@.well_formed(),
                depths@.len() == j,
                forall|k: int| 0 <= k < j ==> #[trigger] depths@[k] == self@.depth(k),
                forall|k: int| 0 <= k < j ==> #[trigger] depths@[k] <= k,
            decreases self.order@.len() - j,
        {
            let mut depth: usize = 0;
            let mut n: usize = 0;
            while n < j
                invariant
                    n <= j < self@.order.len(),
                    self@.well_formed(),
                    depths@.len() == j,
                    forall|k: int| 0 <= k < j ==> #[trigger] depths@[k] == self@.depth(k),
                    forall|k: int| 0 <= k < j ==> #[trigger] depths@[k] <= k,
                    depth == self@.depth_within(j as int, n as int),
                    depth <= n,
                decreases j - n,
            {
                assert(depths@[n as int] <= n);
                if self.has_edge(n, j) {
                    let via: usize = depths[n] + 1;
                    if via > depth {
                        depth = via;
                    }
                }
                n += 1;
            }
            depths.push(depth);
            j += 1;
        }
        depths
    }

    /// Groups the operations into the batches the scheduler executes.
    ///
    /// Level *n* holds every operation whose longest dependency chain is *n*
    /// long, so everything in one level may run concurrently and the levels run
    /// in order. Program order is preserved inside a level, which keeps the
    /// output stable and the printed IR readable.
    pub fn levels(&self) -> (r: Vec<Vec<OperationId>>)
        requires
            self@.well_formed(),
        ensures
            Seq::new(r@.len(), |l: int| r@[l]@) == self@.levels(),
    {
        let depths = self.depths();
        let mut height: usize = 0;
        let mut j: usize = 0;
        while j < depths.len()
            invariant
                j <= depths@.len(),
                depths@.len() == self@.order.len(),
                self.order@ == self@.order,
                forall|k: int| 0 <= k < depths@.len() ==> #[trigger] depths@[k] == self@.depth(k),
                forall|k: int| 0 <= k < depths@.len() ==> #[trigger] depths@[k] <= k,
                height == self@.height_within(j as int),
                height <= j,
            decreases depths@.len() - j,
        {
            assert(depths@[j as int] <= j);
            if depths[j] + 1 > height {
                height = depths[j] + 1;
            }
            j += 1;
        }
        let mut levels: Vec<Vec<OperationId>> = Vec::new();
        let mut l: usize = 0;
        while l < height
            invariant
                l <= height,
                height == self@.height(),
                self.order@ == self@.order,
                depths@.len() == self@.order.len(),
                forall|k: int| 0 <= k < depths@.len() ==> #[trigger] depths@[k] == self@.depth(k),
                levels@.len() == l,
                forall|k: int| 0 <= k < l ==> (#[trigger] levels@[k])@ == self@.level(k as nat),
            decreases height - l,
        {
            let mut ops: Vec<OperationId> = Vec::new();
            let mut n: usize = 0;
            while n < self.order.len()
                invariant
                    n <= self.order@.len(),
                    self.order@ == self@.order,
                    depths@.len() == self@.order.len(),
                    forall|k: int|
                        0 <= k < depths@.len() ==> #[trigger] depths@[k] == self@.depth(k),
                    ops@ == self@.level_within(l as nat, n as int),
                decreases self.order@.len() - n,
            {
                if depths[n] == l {
                    ops.push(self.order[n]);
                }
                n += 1;
            }
            levels.push(ops);
            l += 1;
        }
        assert(Seq::new(levels@.len(), |l: int| levels@[l]@) =~= self@.levels());
        levels
    }

    /// Whether the whole block is one sequential chain, with nothing to gain
    /// from parallel scheduling.
    pub fn is_fully_sequential(&self) -> (r: bool)
        requires
            self@.well_formed(),
        ensures
            r == forall|l: int|
                0 <= l < self@.levels().len() ==> (#[trigger] self@.levels()[l]).len() <= 1,
    {
        let levels = self.levels();
        let ghost all = self@.levels();
        let mut l: usize = 0;
        while l < levels.len()
            invariant
                l <= levels@.len(),
                all == self@.levels(),
                all.len() == levels@.len(),
                forall|k: int| 0 <= k < all.len() ==> #[trigger] all[k] == levels@[k]@,
                forall|k: int| 0 <= k < l ==> (#[trigger] all[k]).len() <= 1,
            decreases levels@.len() - l,
        {
            assert(all[l as int] == levels@[l as int]@);
            if levels[l].len() > 1 {
                return false;
            }
            l += 1;
        }
        true
    }
}

/// Inserts an operation in the order of handles, unless it is there.
fn insert_sorted(out: &mut Vec<OperationId>, op: OperationId)
    requires
        forall|x: int, y: int| 0 <= x < y < old(out)@.len() ==> old(out)@[x].0 < old(out)@[y].0,
    ensures
        forall|x: int, y: int| 0 <= x < y < final(out)@.len() ==> final(out)@[x].0 < final(out)@[y].0,
        forall|p: OperationId| #[trigger]
            final(out)@.contains(p) <==> (old(out)@.contains(p) || p == op),
{
    let ghost before = out@;
    let mut i: usize = 0;
    while i < out.len() && out[i].0 < op.0
        invariant
            i <= out@.len(),
            out@ == before,
            forall|x: int| 0 <= x < i ==> (#[trigger] out@[x]).0 < op.0,
        decreases out@.len() - i,
    {
        i += 1;
    }
    if i < out.len() && out[i] == op {
        assert(out@.contains(op));
        return;
    }
    out.insert(i, op);
    proof {
        let s = out@;
        assert(s =~= before.insert(i as int, op));
        assert forall|x: int, y: int| 0 <= x < y < s.len() implies s[x].0 < s[y].0 by {
            let a = if x < i {
                x
            } else {
                x - 1
            };
            let b = if y < i {
                y
            } else {
                y - 1
            };
            if x != i && y != i {
                assert(s[x] == before[a] && s[y] == before[b]);
            } else if x == i {
                assert(s[y] == before[b]);
                if b > i {
                    assert(before[i as int].0 < before[b].0);
                }
            } else {
                assert(s[x] == before[x]);
            }
        }
        assert forall|p: OperationId| #[trigger] s.contains(p) <==> (before.contains(p) || p
            == op) by {
            if s.contains(p) {
                let k = choose|k: int| 0 <= k < s.len() && s[k] == p;
                if k < i {
                    assert(before[k] == p);
                } else if k > i {
                    assert(before[k - 1] == p);
                }
            }
            if before.contains(p) {
                let k = choose|k: int| 0 <= k < before.len() && before[k] == p;
                if k < i {
                    assert(s[k] == p);
                } else {
                    assert(s[k + 1] == p);
                }
            }
            assert(s[i as int] == op);
        }
    }
}

/// The live operations of a list without duplicates have none either.
pub proof fn lemma_live_distinct(m: ModuleView, ops: Seq<OperationId>)
    requires
        ops.no_duplicates(),
    ensures
        m.live(ops).no_duplicates(),
    decreases ops.len(),
{
    reveal(Seq::filter);
    if ops.len() > 0 {
        let rest = ops.drop_last();
        lemma_live_distinct(m, rest);
        let keep = |op: OperationId| !m.op(op).erased;
        let kept = rest.filter(keep);
        if keep(ops.last()) {
            assert forall|i: int| 0 <= i < kept.len() implies kept[i] != ops.last() by {
                crate::printer::lemma_filter_member(rest, keep, i);
                let k = choose|k: int| 0 <= k < rest.len() && rest[k] == kept[i] && keep(rest[k]);
                assert(ops[k] != ops[ops.len() - 1]);
            }
        }
    }
}

proof fn lemma_depth_covers(g: GraphView, later: int, n: int, earlier: int)
    requires
        0 <= earlier < n <= later,
        g.edge(earlier, later),
    ensures
        g.depth_within(later, n) > g.depth(earlier),
    decreases n,
{
    if n - 1 > earlier {
        lemma_depth_covers(g, later, n - 1, earlier);
    }
}

/// A dependency leads to a strictly higher level, directly or through others.
pub proof fn dependents_come_later(g: GraphView, later: int, earlier: int)
    requires
        g.follows(later, earlier),
        0 <= earlier,
    ensures
        g.depth(earlier) < g.depth(later),
    decreases later,
{
    if g.edge(earlier, later) {
        lemma_depth_covers(g, later, later, earlier);
    } else {
        let k = choose|k: int|
            earlier < k < later && #[trigger] g.edge(k, later) && g.follows(k, earlier);
        dependents_come_later(g, k, earlier);
        lemma_depth_covers(g, later, later, k);
    }
}

/// Two operations of one level neither share data nor conflict: they may run
/// side by side.
pub proof fn a_level_is_independent(
    m: ModuleView,
    block: BlockId,
    table: Seq<Seq<EffectView>>,
    i: int,
    j: int,
)
    requires
        ({
            let g = graph_of(m, block, table);
            0 <= i < j < g.order.len() && g.depth(i) == g.depth(j)
        }),
    ensures
        ({
            let g = graph_of(m, block, table);
            &&& !lists_conflict(recorded(table, g.order[i]), recorded(table, g.order[j]))
            &&& !m.data_edge(g.order, i, j)
        }),
{
    let g = graph_of(m, block, table);
    if g.edge(i, j) {
        dependents_come_later(g, j, i);
    }
    assert(g.reasons[j][i] is None);
}

/// What a level holds.
pub proof fn lemma_level_within(g: GraphView, level: nat, n: int, op: OperationId)
    requires
        g.order.no_duplicates(),
        n <= g.order.len(),
    ensures
        g.level_within(level, n).contains(op) <==> exists|j: int|
            0 <= j < n && #[trigger] g.order[j] == op && g.depth(j) == level,
    decreases n,
{
    if n > 0 {
        lemma_level_within(g, level, n - 1, op);
        let before = g.level_within(level, n - 1);
        if g.depth(n - 1) == level {
            lemma_contains_concat(before, seq![g.order[n - 1]], op);
            assert(before.push(g.order[n - 1]) =~= before + seq![g.order[n - 1]]);
            if seq![g.order[n - 1]].contains(op) {
                assert(g.order[n - 1] == op);
            }
            if g.order[n - 1] == op {
                assert(seq![g.order[n - 1]][0] == op);
            }
        }
    }
}

/// What stands in a level is an operation of the block, at the depth of the
/// level.
pub proof fn level_members(g: GraphView, level: nat, i: int)
    requires
        g.well_formed(),
        0 <= i < g.level(level).len(),
    ensures
        g.order.contains(g.level(level)[i]),
        exists|j: int|
            0 <= j < g.order.len() && #[trigger] g.order[j] == g.level(level)[i] && g.depth(j)
                == level,
{
    let op = g.level(level)[i];
    assert(g.level(level).contains(op));
    lemma_level_within(g, level, g.order.len() as int, op);
}

proof fn lemma_height_within(g: GraphView, n: int, j: int)
    requires
        0 <= j < n,
    ensures
        g.depth(j) < g.height_within(n),
    decreases n,
{
    if j < n - 1 {
        lemma_height_within(g, n - 1, j);
    }
}

/// Every operation stands in exactly one level: that of its longest chain.
pub proof fn levels_partition_the_block(g: GraphView, j: int, level: nat)
    requires
        g.well_formed(),
        0 <= j < g.order.len(),
    ensures
        g.depth(j) < g.levels().len(),
        g.level(level).contains(g.order[j]) <==> level == g.depth(j),
{
    lemma_height_within(g, g.order.len() as int, j);
    lemma_level_within(g, level, g.order.len() as int, g.order[j]);
    if g.level(level).contains(g.order[j]) {
        let k = choose|k: int|
            0 <= k < g.order.len() && #[trigger] g.order[k] == g.order[j] && g.depth(k) == level;
        assert(k == j);
    }
}

/// The graph of a block of a well-formed module is well formed.
pub proof fn graphs_are_well_formed(m: ModuleView, block: BlockId, table: Seq<Seq<EffectView>>)
    requires
        m.in_bounds(),
        m.has_block(block),
    ensures
        graph_of(m, block, table).well_formed(),
{
    assert(m.block_in_bounds(m.blocks[block.spec_index()]));
    lemma_live_distinct(m, m.block(block).ops);
}

} // verus!
