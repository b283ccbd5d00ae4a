//! The use map: for each value, every operand slot that reads it.
//!
//! Dead-action elimination reduces to a question this structure answers, and
//! answering it once beats each pass walking the module again.

use vstd::prelude::*;

use crate::copying::copy_all;
use crate::ids::{OperationId, ValueId};
use crate::module::{Module, ModuleView};

verus! {

/// One read of a value.
#[derive(Clone, Copy, Debug, PartialEq, Eq, Structural)]
pub struct Use {
    /// The operation doing the reading.
    pub op: OperationId,
    /// Which of its operands this is.
    pub operand: usize,
}

/// The reads of a value among the first `n` operands of an operation.
pub open spec fn operand_uses(op: OperationId, operands: Seq<ValueId>, n: int, value: ValueId) -> Seq<
    Use,
>
    decreases n,
{
    if n <= 0 {
        Seq::empty()
    } else if operands[n - 1] == value {
        operand_uses(op, operands, n - 1, value).push(Use { op, operand: (n - 1) as usize })
    } else {
        operand_uses(op, operands, n - 1, value)
    }
}

/// The reads of a value by the first `n` of some operations.
pub open spec fn uses_by(m: ModuleView, ops: Seq<OperationId>, n: int, value: ValueId) -> Seq<Use>
    decreases n,
{
    if n <= 0 {
        Seq::empty()
    } else {
        uses_by(m, ops, n - 1, value) + operand_uses(
            ops[n - 1],
            m.op(ops[n - 1]).operands,
            m.op(ops[n - 1]).operands.len() as int,
            value,
        )
    }
}

/// Every read of a value in the program, in program order.
pub open spec fn uses_in(m: ModuleView, value: ValueId) -> Seq<Use> {
    let ops = m.program_order(m.body);
    uses_by(m, ops, ops.len() as int, value)
}

/// The operations of some reads, each once for a run of reads.
pub open spec fn distinct_readers(uses: Seq<Use>) -> Seq<OperationId>
    decreases uses.len(),
{
    if uses.len() == 0 {
        Seq::empty()
    } else {
        let before = distinct_readers(uses.drop_last());
        if before.len() > 0 && before.last() == uses.last().op {
            before
        } else {
            before.push(uses.last().op)
        }
    }
}

/// Whether no two reads are of the same operation.
pub open spec fn ops_differ(uses: Seq<Use>) -> bool {
    forall|i: int, j: int|
        0 <= i < j < uses.len() ==> (#[trigger] uses[i]).op != (#[trigger] uses[j]).op
}

/// Whether an operation does one of some reads.
pub open spec fn is_reader(uses: Seq<Use>, op: OperationId) -> bool {
    exists|i: int| 0 <= i < uses.len() && (#[trigger] uses[i]).op == op
}

/// Whether some operations are the ones that do some reads, each once, in the
/// order of their reads.
pub open spec fn are_readers(uses: Seq<Use>, ops: Seq<OperationId>) -> bool {
    &&& ops.no_duplicates()
    &&& forall|op: OperationId| #[trigger] ops.contains(op) <==> is_reader(uses, op)
    &&& forall|p: int, q: int, i: int, j: int|
        0 <= p < uses.len() && 0 <= q < uses.len() && 0 <= i < j < ops.len() && (
        #[trigger] uses[p]).op == #[trigger] ops[i] && (#[trigger] uses[q]).op
            == #[trigger] ops[j] ==> p < q
    &&& ops.len() <= uses.len()
    &&& ops.len() == uses.len() <==> ops_differ(uses)
    &&& ops.len() == 0 <==> uses.len() == 0
}

/// Where no operation comes up again after another one, the readers are each
/// listed once.
proof fn readers_are_listed(uses: Seq<Use>)
    requires
        distinct_readers(uses).no_duplicates(),
    ensures
        are_readers(uses, distinct_readers(uses)),
    decreases uses.len(),
{
    let ops = distinct_readers(uses);
    if uses.len() > 0 {
        let front = uses.drop_last();
        let before = distinct_readers(front);
        let op = uses.last().op;
        let n = front.len() as int;
        assert(before.no_duplicates()) by {
            assert forall|i: int, j: int|
                0 <= i < before.len() && 0 <= j < before.len() && i != j implies before[i]
                != before[j] by {
                assert(ops[i] == before[i] && ops[j] == before[j]);
            }
        }
        readers_are_listed(front);
        assert forall|x: OperationId| #[trigger] ops.contains(x) <==> is_reader(uses, x) by {
            if ops.contains(x) {
                let i = choose|i: int| 0 <= i < ops.len() && ops[i] == x;
                if i < before.len() {
                    assert(before[i] == x);
                    assert(before.contains(x));
                    let k = choose|k: int| 0 <= k < front.len() && (#[trigger] front[k]).op == x;
                    assert(uses[k].op == x);
                } else {
                    assert(uses[n].op == x);
                }
            }
            if is_reader(uses, x) {
                let k = choose|k: int| 0 <= k < uses.len() && (#[trigger] uses[k]).op == x;
                if k < n {
                    assert(front[k].op == x);
                    assert(before.contains(x));
                    let i = choose|i: int| 0 <= i < before.len() && before[i] == x;
                    assert(ops[i] == x);
                } else {
                    assert(ops.last() == x);
                }
            }
        }
        assert forall|p: int, q: int, i: int, j: int|
            0 <= p < uses.len() && 0 <= q < uses.len() && 0 <= i < j < ops.len() && (
            #[trigger] uses[p]).op == #[trigger] ops[i] && (#[trigger] uses[q]).op
                == #[trigger] ops[j] implies p < q by {
            if p == n {
                assert(ops.last() == op);
                assert(ops[i] == ops[ops.len() - 1]);
            } else if q < n {
                assert(front[p] == uses[p] && front[q] == uses[q]);
                assert(before.contains(front[q].op)) by {
                    assert(is_reader(front, front[q].op));
                }
                let k = choose|k: int| 0 <= k < before.len() && before[k] == front[q].op;
                assert(ops[k] == before[k]);
                assert(ops[k] == ops[j]);
                assert(before[i] == ops[i]);
            }
        }
        if ops_differ(uses) {
            assert(ops_differ(front)) by {
                assert forall|i: int, j: int| 0 <= i < j < front.len() implies (
                #[trigger] front[i]).op != (#[trigger] front[j]).op by {
                    assert(uses[i].op != uses[j].op);
                }
            }
            if before.len() > 0 && before.last() == op {
                assert(before.contains(op));
                let k = choose|k: int| 0 <= k < front.len() && (#[trigger] front[k]).op == op;
                assert(uses[k].op != uses[n].op);
            }
        }
        if ops.len() == uses.len() {
            assert forall|i: int, j: int| 0 <= i < j < uses.len() implies (
            #[trigger] uses[i]).op != (#[trigger] uses[j]).op by {
                if j < n {
                    assert(front[i].op != front[j].op);
                } else {
                    assert(is_reader(front, front[i].op));
                    assert(before.contains(front[i].op));
                    let k = choose|k: int| 0 <= k < before.len() && before[k] == front[i].op;
                    assert(ops[k] == before[k]);
                    assert(ops[ops.len() - 1] == op);
                }
            }
        }
    }
}

/// A run of reads by one operation adds at most that operation.
proof fn run_adds_one(uses: Seq<Use>, run: Seq<Use>, op: OperationId)
    requires
        forall|i: int| 0 <= i < run.len() ==> (#[trigger] run[i]).op == op,
    ensures
        ({
            let before = distinct_readers(uses);
            distinct_readers(uses + run) == if run.len() == 0 || (before.len() > 0
                && before.last() == op) {
                before
            } else {
                before.push(op)
            }
        }),
    decreases run.len(),
{
    if run.len() == 0 {
        assert(uses + run =~= uses);
    } else {
        let front = run.drop_last();
        assert forall|i: int| 0 <= i < front.len() implies (#[trigger] front[i]).op == op by {
            assert(run[i].op == op);
        }
        run_adds_one(uses, front, op);
        assert((uses + run).drop_last() =~= uses + front);
        assert((uses + run).last() == run[run.len() - 1]);
    }
}

proof fn operand_uses_are_of(op: OperationId, operands: Seq<ValueId>, n: int, value: ValueId)
    ensures
        forall|i: int|
            0 <= i < operand_uses(op, operands, n, value).len() ==> (
            #[trigger] operand_uses(op, operands, n, value)[i]).op == op,
    decreases n,
{
    if n > 0 {
        operand_uses_are_of(op, operands, n - 1, value);
        let before = operand_uses(op, operands, n - 1, value);
        let all = operand_uses(op, operands, n, value);
        assert forall|i: int| 0 <= i < all.len() implies (#[trigger] all[i]).op == op by {
            if i < before.len() {
                assert(all[i] == before[i]);
            }
        }
    }
}

/// The readers of a value among operations that are visited once come up once.
proof fn readers_come_up_once(m: ModuleView, ops: Seq<OperationId>, n: int, value: ValueId)
    requires
        ops.no_duplicates(),
        0 <= n <= ops.len(),
    ensures
        ({
            let readers = distinct_readers(uses_by(m, ops, n, value));
            &&& readers.no_duplicates()
            &&& forall|i: int|
                0 <= i < readers.len() ==> ops.take(n).contains(#[trigger] readers[i])
        }),
    decreases n,
{
    if n > 0 {
        readers_come_up_once(m, ops, n - 1, value);
        let op = ops[n - 1];
        let before = uses_by(m, ops, n - 1, value);
        let run = operand_uses(op, m.op(op).operands, m.op(op).operands.len() as int, value);
        operand_uses_are_of(op, m.op(op).operands, m.op(op).operands.len() as int, value);
        run_adds_one(before, run, op);
        let old = distinct_readers(before);
        let readers = distinct_readers(before + run);
        assert forall|i: int| 0 <= i < old.len() implies #[trigger] old[i] != op && ops.take(
            n,
        ).contains(old[i]) by {
            assert(ops.take(n - 1).contains(old[i]));
            let earlier = ops.take(n - 1);
            let k = choose|k: int| 0 <= k < earlier.len() && earlier[k] == old[i];
            assert(ops[k] != ops[n - 1]);
            assert(ops.take(n)[k] == old[i]);
        }
        assert(ops.take(n)[n - 1] == op);
    }
}

/// Every use of every value in a module.
#[derive(Debug)]
pub struct UseMap {
    uses: Vec<Vec<Use>>,
}

impl View for UseMap {
    type V = Seq<Seq<Use>>;

    closed spec fn view(&self) -> Seq<Seq<Use>> {
        Seq::new(self.uses@.len(), |i: int| self.uses@[i]@)
    }
}

/// The reads a map records for a value.
pub open spec fn reads_of(map: Seq<Seq<Use>>, value: ValueId) -> Seq<Use> {
    if value.spec_index() < map.len() {
        map[value.spec_index()]
    } else {
        Seq::empty()
    }
}

/// Whether a map records the reads of every value of the module.
pub open spec fn map_of(m: ModuleView, map: Seq<Seq<Use>>) -> bool {
    &&& map.len() == m.values.len()
    &&& forall|v: int| 0 <= v < map.len() ==> #[trigger] map[v] == uses_in(m, ValueId::at(v))
}

impl Clone for UseMap {
    /// A copy of the map.
    fn clone(&self) -> (r: UseMap)
        ensures
            r@ == self@,
    {
        proof {
            use_type_invariant(self);
        }
        let mut uses: Vec<Vec<Use>> = Vec::new();
        let mut v: usize = 0;
        while v < self.uses.len()
            invariant
                v <= self.uses@.len(),
                uses@.len() == v,
                forall|k: int| 0 <= k < v ==> (#[trigger] uses@[k])@ == self.uses@[k]@,
            decreases self.uses@.len() - v,
        {
            uses.push(copy_all(&self.uses[v]));
            v += 1;
        }
        let r = UseMap { uses };
        assert(r@ =~= self@);
        r
    }
}

impl UseMap {
    /// No operation comes up again among the reads of a value once another one
    /// did.
    #[verifier::type_invariant]
    spec fn is_grouped(self) -> bool {
        forall|v: int|
            0 <= v < self.uses@.len() ==> distinct_readers(
                (#[trigger] self.uses@[v])@,
            ).no_duplicates()
    }

    /// Walks the live program and records every operand read.
    pub fn build(module: &Module) -> (r: UseMap)
        requires
            module@.well_formed(),
        ensures
            map_of(module@, r@),
    {
        let ghost m = module@;
        let mut uses: Vec<Vec<Use>> = Vec::new();
        let mut v: usize = 0;
        while v < module.value_capacity()
            invariant
                v <= module@.values.len(),
                uses@.len() == v,
                forall|j: int| 0 <= j < v ==> (#[trigger] uses@[j])@ =~= Seq::<Use>::empty(),
            decreases module@.values.len() - v,
        {
            uses.push(Vec::new());
            v += 1;
        }
        let ops = module.op_ids();
        proof {
            crate::traversal::walks_are_live(m, m.body);
        }
        let mut n: usize = 0;
        while n < ops.len()
            invariant
                n <= ops@.len(),
                m == module@,
                m.in_bounds(),
                ops@ == m.program_order(m.body),
                crate::traversal::all_live(m, ops@),
                uses@.len() == m.values.len(),
                forall|j: int|
                    0 <= j < uses@.len() ==> (#[trigger] uses@[j])@ == uses_by(
                        m,
                        ops@,
                        n as int,
                        ValueId::at(j),
                    ),
            decreases ops@.len() - n,
        {
            let op = ops[n];
            assert(m.has_op(ops@[n as int]));
            assert(m.op_in_bounds(m.ops[op.spec_index()]));
            let operands = &module.op(op).operands;
            let ghost before = uses@;
            let mut i: usize = 0;
            assert(forall|j: int|
                0 <= j < uses@.len() ==> (#[trigger] uses@[j])@ =~= before[j]@ + operand_uses(
                    op,
                    operands@,
                    0,
                    ValueId::at(j),
                ));
            while i < operands.len()
                invariant
                    i <= operands@.len(),
                    m == module@,
                    m.in_bounds(),
                    m.has_op(op),
                    m.op(op).id == op,
                    operands@ == m.op(op).operands,
                    m.op_in_bounds(m.op(op)),
                    uses@.len() == m.values.len(),
                    before.len() == uses@.len(),
                    forall|j: int|
                        0 <= j < uses@.len() ==> (#[trigger] uses@[j])@ == before[j]@
                            + operand_uses(op, operands@, i as int, ValueId::at(j)),
                decreases operands@.len() - i,
            {
                let operand = operands[i];
                assert(m.has_value(operands@[i as int]));
                let k: usize = operand.index();
                let ghost current = uses@;
                uses[k].push(Use { op, operand: i });
                assert forall|j: int| 0 <= j < uses@.len() implies (#[trigger] uses@[j])@
                    == before[j]@ + operand_uses(op, operands@, i + 1, ValueId::at(j)) by {
                    if j == k {
                        assert(uses@[j]@ =~= before[j]@ + operand_uses(
                            op,
                            operands@,
                            i + 1,
                            ValueId::at(j),
                        ));
                    } else {
                        assert(uses@[j] == current[j]);
                        assert(ValueId::at(j) != operand);
                    }
                }
                i += 1;
            }
            n += 1;
        }
        proof {
            crate::nesting::a_program_visits_nothing_twice(m, m.body);
            assert forall|j: int| 0 <= j < uses@.len() implies distinct_readers(
                (#[trigger] uses@[j])@,
            ).no_duplicates() by {
                readers_come_up_once(m, ops@, n as int, ValueId::at(j));
            }
        }
        UseMap { uses }
    }

    /// Every read of a value.
    pub fn uses_of(&self, value: ValueId) -> (r: &[Use])
        ensures
            r@ == reads_of(self@, value),
    {
        let i: usize = value.index();
        if i < self.uses.len() {
            self.uses[i].as_slice()
        } else {
            let r: &[Use] = &[];
            assert(r@ =~= Seq::empty());
            r
        }
    }

    /// Whether anything reads the value.
    pub fn is_used(&self, value: ValueId) -> (r: bool)
        ensures
            r == (reads_of(self@, value).len() > 0),
    {
        self.uses_of(value).len() > 0
    }

    /// How many operand slots read the value.
    pub fn use_count(&self, value: ValueId) -> (r: usize)
        ensures
            r == reads_of(self@, value).len(),
    {
        self.uses_of(value).len()
    }

    /// The operations that read the value, without duplicates.
    pub fn readers(&self, value: ValueId) -> (r: Vec<OperationId>)
        ensures
            r@ == distinct_readers(reads_of(self@, value)),
            are_readers(reads_of(self@, value), r@),
    {
        proof {
            use_type_invariant(self);
            if value.spec_index() < self.uses@.len() {
                assert(distinct_readers(
                    self.uses@[value.spec_index()]@,
                ).no_duplicates());
            }
            readers_are_listed(reads_of(self@, value));
        }
        let uses = self.uses_of(value);
        let mut readers: Vec<OperationId> = Vec::new();
        let mut i: usize = 0;
        assert(uses@.take(0) =~= Seq::empty());
        while i < uses.len()
            invariant
                i <= uses@.len(),
                readers@ == distinct_readers(uses@.take(i as int)),
            decreases uses@.len() - i,
        {
            assert(uses@.take(i + 1).drop_last() =~= uses@.take(i as int));
            let op = uses[i].op;
            if readers.len() == 0 || readers[readers.len() - 1] != op {
                readers.push(op);
            }
            i += 1;
        }
        assert(uses@.take(i as int) =~= uses@);
        readers
    }

    /// Whether none of an operation's results is read: the dataflow half of the
    /// condition for dead-action elimination.
    pub fn results_are_unread(&self, module: &Module, op: OperationId) -> (r: bool)
        requires
            module@.has_op(op),
        ensures
            r == unread(self@, module@, op),
    {
        let results = &module.op(op).results;
        let mut i: usize = 0;
        while i < results.len()
            invariant
                i <= results@.len(),
                results@ == module@.op(op).results,
                forall|j: int| 0 <= j < i ==> reads_of(self@, #[trigger] results@[j]).len() == 0,
            decreases results@.len() - i,
        {
            if self.is_used(results[i]) {
                assert(reads_of(self@, results@[i as int]).len() > 0);
                return false;
            }
            i += 1;
        }
        true
    }
}

/// Whether a map records no read of any result of an operation.
pub open spec fn unread(map: Seq<Seq<Use>>, m: ModuleView, op: OperationId) -> bool {
    forall|i: int|
        0 <= i < m.op(op).results.len() ==> reads_of(map, #[trigger] m.op(op).results[i]).len()
            == 0
}

} // verus!
