//! Effect summaries: what an operation does to the world, nested regions
//! included.
//!
//! An operation's own `effect` field describes only itself. A `control.loop`
//! is declared `#pure`, but running it may delete a database forty times. Every
//! pass condition that talks about "the effect of this operation" means the
//! summary, not the declaration, and reading the declaration instead is the
//! single easiest way to build an unsound pass.

use vstd::prelude::*;

use crate::assoc::sorted;
use crate::effect::{Effect, EffectView};
use crate::ids::{OperationId, RegionId};
use crate::module::{Module, ModuleView};
use crate::text::{
    same_text, text_less, text_lt, text_lt_irreflexive, text_lt_total, text_lt_transitive,
};

verus! {

/// The printed forms of some effects.
pub open spec fn effect_texts(effects: Seq<EffectView>) -> Seq<Seq<char>> {
    Seq::new(effects.len(), |i: int| effects[i].text())
}

/// The content of each effect of a list.
pub open spec fn effect_views(effects: Seq<Effect>) -> Seq<EffectView> {
    Seq::new(effects.len(), |i: int| effects[i]@)
}

/// Whether some operation among these declares the effect.
pub open spec fn declared_by(m: ModuleView, ops: Seq<OperationId>, effect: EffectView) -> bool {
    exists|i: int| 0 <= i < ops.len() && m.op(#[trigger] ops[i]).effect == effect
}

/// Whether a list holds exactly the effects that some operations declare, each
/// once, in the order of their printed forms.
pub open spec fn summarizes(m: ModuleView, ops: Seq<OperationId>, effects: Seq<EffectView>) -> bool {
    &&& sorted(effect_texts(effects))
    &&& forall|e: EffectView| #[trigger] effects.contains(e) <==> declared_by(m, ops, e)
}

/// An effect is determined by its printed form.
pub proof fn effect_texts_are_distinct(a: EffectView, b: EffectView)
    requires
        a.text() == b.text(),
    ensures
        a == b,
{
    reveal_strlit("#");
    reveal_strlit("<");
    reveal_strlit(">");
    reveal_strlit("pure");
    reveal_strlit("read_external");
    reveal_strlit("write_external");
    reveal_strlit("irreversible");
    reveal_strlit("stochastic");
    let ca = a.class().text();
    let cb = b.class().text();
    assert(a.text()[1] == ca[0]);
    assert(b.text()[1] == cb[0]);
    assert(a.class() == b.class());
    let n = ca.len() as int;
    if let Some(Some(x)) = a.scope() {
        assert(a.text().len() == n + x.len() + 3);
        if let Some(Some(y)) = b.scope() {
            assert(b.text().len() == n + y.len() + 3);
            assert forall|i: int| 0 <= i < x.len() implies x[i] == y[i] by {
                assert(a.text()[n + 2 + i] == x[i]);
                assert(b.text()[n + 2 + i] == y[i]);
            }
            assert(x =~= y);
        } else {
            assert(b.text().len() == n + 1);
        }
    } else {
        assert(a.text().len() == n + 1);
        if let Some(Some(y)) = b.scope() {
            assert(b.text().len() == n + y.len() + 3);
        }
    }
}

/// A summary is unique: two lists that summarize the same operations are equal.
pub proof fn summaries_are_unique(
    m: ModuleView,
    ops: Seq<OperationId>,
    a: Seq<EffectView>,
    b: Seq<EffectView>,
)
    requires
        summarizes(m, ops, a),
        summarizes(m, ops, b),
    ensures
        a == b,
{
    lemma_sorted_equal(a, b);
}

proof fn lemma_sorted_equal(a: Seq<EffectView>, b: Seq<EffectView>)
    requires
        sorted(effect_texts(a)),
        sorted(effect_texts(b)),
        forall|e: EffectView| #[trigger] a.contains(e) <==> b.contains(e),
    ensures
        a == b,
    decreases a.len(),
{
    let ta = effect_texts(a);
    let tb = effect_texts(b);
    if a.len() == 0 {
        if b.len() > 0 {
            assert(b.contains(b[0]));
            assert(a.contains(b[0]));
        }
        assert(a =~= b);
    } else {
        let x = a.last();
        assert(a.contains(x));
        assert(b.contains(x));
        let y = b.last();
        assert(b.contains(y));
        assert(a.contains(y));
        let i = choose|i: int| 0 <= i < b.len() && b[i] == x;
        let j = choose|j: int| 0 <= j < a.len() && a[j] == y;
        if x != y {
            assert(text_lt(tb[i], tb[b.len() - 1]));
            assert(text_lt(ta[j], ta[a.len() - 1]));
            text_lt_transitive(x.text(), y.text(), x.text());
            text_lt_irreflexive(x.text());
        }
        let a2 = a.drop_last();
        let b2 = b.drop_last();
        assert(sorted(effect_texts(a2))) by {
            assert(effect_texts(a2) =~= ta.drop_last());
        }
        assert(sorted(effect_texts(b2))) by {
            assert(effect_texts(b2) =~= tb.drop_last());
        }
        assert forall|e: EffectView| #[trigger] a2.contains(e) <==> b2.contains(e) by {
            if a2.contains(e) {
                let k = choose|k: int| 0 <= k < a2.len() && a2[k] == e;
                assert(a[k] == e);
                assert(text_lt(ta[k], ta[a.len() - 1]));
                text_lt_irreflexive(x.text());
                assert(e != x);
                assert(a.contains(e));
                assert(b.contains(e));
                let l = choose|l: int| 0 <= l < b.len() && b[l] == e;
                assert(b2[l] == e);
            }
            if b2.contains(e) {
                let k = choose|k: int| 0 <= k < b2.len() && b2[k] == e;
                assert(b[k] == e);
                assert(text_lt(tb[k], tb[b.len() - 1]));
                text_lt_irreflexive(x.text());
                assert(e != x);
                assert(b.contains(e));
                assert(a.contains(e));
                let l = choose|l: int| 0 <= l < a.len() && a[l] == e;
                assert(a2[l] == e);
            }
        }
        lemma_sorted_equal(a2, b2);
        assert(a =~= a2.push(x));
        assert(b =~= b2.push(y));
    }
}

/// Adds an effect to a list, in its place, unless it is there.
fn add_effect(list: &mut Vec<Effect>, effect: &Effect)
    requires
        sorted(effect_texts(effect_views(old(list)@))),
    ensures
        sorted(effect_texts(effect_views(final(list)@))),
        forall|e: EffectView| #[trigger]
            effect_views(final(list)@).contains(e) <==> (effect_views(old(list)@).contains(e) || e
                == effect@),
{
    let ghost before = effect_views(list@);
    let ghost keys = effect_texts(before);
    let text = effect.to_string();
    let mut p: usize = 0;
    while p < list.len() && text_less(list[p].to_string().as_str(), text.as_str())
        invariant
            p <= list@.len(),
            text@ == effect@.text(),
            before == effect_views(list@),
            keys == effect_texts(before),
            forall|j: int| 0 <= j < p ==> text_lt(#[trigger] keys[j], text@),
        decreases list@.len() - p,
    {
        assert(keys[p as int] == list@[p as int]@.text());
        p += 1;
    }
    if p < list.len() && same_text(list[p].to_string().as_str(), text.as_str()) {
        proof {
            effect_texts_are_distinct(list@[p as int]@, effect@);
            assert(before[p as int] == effect@);
        }
        return;
    }
    list.insert(p, effect.clone());
    let ghost after = effect_views(list@);
    proof {
        assert(after =~= before.insert(p as int, effect@));
        let ks = effect_texts(after);
        assert(ks =~= keys.insert(p as int, text@));
        assert forall|i: int, j: int| 0 <= i < j < ks.len() implies text_lt(
            #[trigger] ks[i],
            #[trigger] ks[j],
        ) by {
            if j == p {
                assert(ks[i] == keys[i]);
            } else if i == p {
                assert(ks[j] == keys[j - 1]);
                text_lt_total(keys[p as int], text@);
                if j - 1 > p {
                    assert(text_lt(keys[p as int], keys[j - 1]));
                    text_lt_transitive(text@, keys[p as int], keys[j - 1]);
                }
            } else {
                let a = if i < p {
                    i
                } else {
                    i - 1
                };
                let b = if j < p {
                    j
                } else {
                    j - 1
                };
                assert(ks[i] == keys[a] && ks[j] == keys[b]);
            }
        }
        assert forall|e: EffectView| #[trigger] after.contains(e) <==> (before.contains(e) || e
            == effect@) by {
            if after.contains(e) {
                let k = choose|k: int| 0 <= k < after.len() && after[k] == e;
                if k < p {
                    assert(before[k] == e);
                } else if k > p {
                    assert(before[k - 1] == e);
                }
            }
            if before.contains(e) {
                let k = choose|k: int| 0 <= k < before.len() && before[k] == e;
                if k < p {
                    assert(after[k] == e);
                } else {
                    assert(after[k + 1] == e);
                }
            }
            assert(after[p as int] == effect@);
        }
    }
}

/// The effects each operation performs, transitively.
#[derive(Debug)]
pub struct EffectSummary {
    summaries: Vec<Vec<Effect>>,
}

impl View for EffectSummary {
    type V = Seq<Seq<EffectView>>;

    closed spec fn view(&self) -> Seq<Seq<EffectView>> {
        Seq::new(self.summaries@.len(), |i: int| effect_views(self.summaries@[i]@))
    }
}

impl Clone for EffectSummary {
    /// A copy of the summary.
    fn clone(&self) -> (r: EffectSummary)
        ensures
            r@ == self@,
    {
        let mut summaries: Vec<Vec<Effect>> = Vec::new();
        let mut i: usize = 0;
        while i < self.summaries.len()
            invariant
                i <= self.summaries@.len(),
                summaries@.len() == i,
                forall|j: int|
                    0 <= j < i ==> effect_views((#[trigger] summaries@[j])@) == effect_views(
                        self.summaries@[j]@,
                    ),
            decreases self.summaries@.len() - i,
        {
            let effects = copy_effects(&self.summaries[i]);
            summaries.push(effects);
            i += 1;
        }
        let r = EffectSummary { summaries };
        assert(r@ =~= self@);
        r
    }
}

impl Default for EffectSummary {
    /// A summary that knows no operation.
    fn default() -> (r: EffectSummary)
        ensures
            r@ == Seq::<Seq<EffectView>>::empty(),
    {
        let r = EffectSummary { summaries: Vec::new() };
        assert(r@ =~= Seq::empty());
        r
    }
}

/// The effects a table of summaries records for an operation.
pub open spec fn recorded(table: Seq<Seq<EffectView>>, op: OperationId) -> Seq<EffectView> {
    if op.spec_index() < table.len() {
        table[op.spec_index()]
    } else {
        Seq::empty()
    }
}

/// Whether some effect of a list has a property.
pub open spec fn any_effect(effects: Seq<EffectView>, p: spec_fn(EffectView) -> bool) -> bool {
    exists|i: int| 0 <= i < effects.len() && p(#[trigger] effects[i])
}

/// Whether every effect of a list has a property.
pub open spec fn all_effects(effects: Seq<EffectView>, p: spec_fn(EffectView) -> bool) -> bool {
    forall|i: int| 0 <= i < effects.len() ==> p(#[trigger] effects[i])
}

/// Whether some effect of one list conflicts with some effect of another.
pub open spec fn lists_conflict(a: Seq<EffectView>, b: Seq<EffectView>) -> bool {
    exists|i: int, j: int|
        0 <= i < a.len() && 0 <= j < b.len() && (#[trigger] a[i]).conflicts_with(#[trigger] b[j])
}

/// Whether a table records the summary of every operation of the program, and
/// nothing of any other.
pub open spec fn table_of(m: ModuleView, table: Seq<Seq<EffectView>>) -> bool {
    &&& table.len() == m.ops.len()
    &&& forall|i: int|
        0 <= i < m.ops.len() ==> (if m.program_order(m.body).contains(OperationId::at(i)) {
            summarizes(m, m.subtree(OperationId::at(i)), #[trigger] table[i])
        } else {
            table[i].len() == 0
        })
}

/// The summary of every operation of a module.
pub open spec fn effect_table(m: ModuleView) -> Seq<Seq<EffectView>> {
    choose|table: Seq<Seq<EffectView>>| #[trigger] table_of(m, table)
}

/// Any operations have a summary.
pub proof fn summaries_exist(m: ModuleView, ops: Seq<OperationId>)
    ensures
        exists|effects: Seq<EffectView>| summarizes(m, ops, effects),
    decreases ops.len(),
{
    if ops.len() == 0 {
        let none = Seq::<EffectView>::empty();
        assert(summarizes(m, ops, none));
    } else {
        let rest = ops.drop_last();
        summaries_exist(m, rest);
        let before = choose|effects: Seq<EffectView>| summarizes(m, rest, effects);
        let own = m.op(ops.last()).effect;
        let pairs = Seq::new(before.len(), |i: int| (before[i].text(), before[i]));
        assert(crate::assoc::keys(pairs) =~= effect_texts(before));
        let all = crate::assoc::insert(pairs, own.text(), own);
        crate::assoc::insert_keeps_sorted(pairs, own.text(), own);
        crate::assoc::slot_separates(crate::assoc::keys(pairs), own.text());
        let p = crate::assoc::slot(crate::assoc::keys(pairs), own.text()) as int;
        let after = Seq::new(all.len(), |i: int| all[i].1);
        let replaced = p < pairs.len() && pairs[p].0 == own.text();
        if replaced {
            effect_texts_are_distinct(before[p], own);
        }
        assert(effect_texts(after) =~= crate::assoc::keys(all));
        assert forall|e: EffectView| #[trigger] after.contains(e) <==> declared_by(m, ops, e) by {
            assert(ops =~= rest + seq![ops.last()]);
            lemma_declared_concat(m, rest, seq![ops.last()], e);
            assert(declared_by(m, seq![ops.last()], e) == (e == own)) by {
                if e == own {
                    assert(m.op(seq![ops.last()][0]).effect == e);
                }
            }
            assert(before.contains(e) <==> declared_by(m, rest, e));
            if after.contains(e) {
                let k = choose|k: int| 0 <= k < after.len() && after[k] == e;
                if !replaced {
                    if k < p {
                        assert(before[k] == e);
                    } else if k > p {
                        assert(before[k - 1] == e);
                    }
                } else {
                    assert(before[k] == e);
                }
            }
            if before.contains(e) {
                let k = choose|k: int| 0 <= k < before.len() && before[k] == e;
                if !replaced && k >= p {
                    assert(after[k + 1] == e);
                } else {
                    assert(after[k] == e);
                }
            }
            if e == own {
                assert(after[p] == e);
            }
        }
        assert(summarizes(m, ops, after));
    }
}

/// Every module has a table of summaries.
pub proof fn effect_table_exists(m: ModuleView)
    ensures
        table_of(m, effect_table(m)),
{
    let order = m.program_order(m.body);
    let table = Seq::new(
        m.ops.len(),
        |i: int|
            if order.contains(OperationId::at(i)) {
                choose|effects: Seq<EffectView>|
                    summarizes(m, m.subtree(OperationId::at(i)), effects)
            } else {
                Seq::empty()
            },
    );
    assert forall|i: int| 0 <= i < m.ops.len() implies (if order.contains(OperationId::at(i)) {
        summarizes(m, m.subtree(OperationId::at(i)), #[trigger] table[i])
    } else {
        table[i].len() == 0
    }) by {
        summaries_exist(m, m.subtree(OperationId::at(i)));
    }
    assert(table_of(m, table));
}

/// There is only one table of a module.
pub proof fn effect_tables_are_unique(
    m: ModuleView,
    a: Seq<Seq<EffectView>>,
    b: Seq<Seq<EffectView>>,
)
    requires
        table_of(m, a),
        table_of(m, b),
    ensures
        a == b,
{
    assert forall|i: int| 0 <= i < a.len() implies a[i] == b[i] by {
        if m.program_order(m.body).contains(OperationId::at(i)) {
            summaries_are_unique(m, m.subtree(OperationId::at(i)), a[i], b[i]);
        } else {
            assert(a[i].len() == 0 && b[i].len() == 0);
            assert(a[i] =~= b[i]);
        }
    }
    assert(a =~= b);
}

impl EffectSummary {
    /// Every effect the operation performs, itself and its regions.
    pub fn of(&self, op: OperationId) -> (r: &[Effect])
        ensures
            effect_views(r@) == recorded(self@, op),
    {
        let i: usize = op.index();
        if i < self.summaries.len() {
            self.summaries[i].as_slice()
        } else {
            let r: &[Effect] = &[];
            assert(effect_views(r@) =~= Seq::empty());
            r
        }
    }
}

proof fn lemma_declared_concat(m: ModuleView, a: Seq<OperationId>, b: Seq<OperationId>, e: EffectView)
    ensures
        declared_by(m, a + b, e) == (declared_by(m, a, e) || declared_by(m, b, e)),
{
    if declared_by(m, a, e) {
        let i = choose|i: int| 0 <= i < a.len() && m.op(#[trigger] a[i]).effect == e;
        assert((a + b)[i] == a[i]);
    }
    if declared_by(m, b, e) {
        let i = choose|i: int| 0 <= i < b.len() && m.op(#[trigger] b[i]).effect == e;
        assert((a + b)[a.len() + i] == b[i]);
    }
    if declared_by(m, a + b, e) {
        let i = choose|i: int| 0 <= i < (a + b).len() && m.op(#[trigger] (a + b)[i]).effect == e;
        if i < a.len() {
            assert(a[i] == (a + b)[i]);
        } else {
            assert(b[i - a.len()] == (a + b)[i]);
        }
    }
}

/// Whether the table has an entry for each of some operations.
spec fn all_recorded(table: Seq<Seq<EffectView>>, ops: Seq<OperationId>) -> bool {
    forall|i: int|
        0 <= i < ops.len() ==> recorded(table, #[trigger] ops[i]).len() > 0
}

/// Whether two tables differ in the entries of some operations at most.
spec fn changed_within(
    a: Seq<Seq<EffectView>>,
    b: Seq<Seq<EffectView>>,
    ops: Seq<OperationId>,
) -> bool {
    &&& a.len() == b.len()
    &&& forall|i: int|
        0 <= i < a.len() ==> #[trigger] b[i] == a[i] || ops.contains(OperationId::at(i))
}

/// Whether every entry is either empty or the right summary.
spec fn sound_table(m: ModuleView, table: Seq<Seq<EffectView>>) -> bool {
    &&& table.len() == m.ops.len()
    &&& forall|i: int|
        0 <= i < m.ops.len() ==> (#[trigger] table[i]).len() == 0 || summarizes(
            m,
            m.subtree(OperationId::at(i)),
            table[i],
        )
}

proof fn lemma_recorded_stays(
    m: ModuleView,
    a: Seq<Seq<EffectView>>,
    b: Seq<Seq<EffectView>>,
    more: Seq<OperationId>,
    ops: Seq<OperationId>,
)
    requires
        changed_within(a, b, more),
        all_recorded(a, ops),
        all_recorded(b, more),
        forall|i: int| 0 <= i < ops.len() ==> m.has_op(#[trigger] ops[i]),
        a.len() == m.ops.len(),
    ensures
        all_recorded(b, ops + more),
{
    assert forall|i: int| 0 <= i < (ops + more).len() implies recorded(
        b,
        #[trigger] (ops + more)[i],
    ).len() > 0 by {
        if i < ops.len() {
            let op = ops[i];
            assert((ops + more)[i] == op);
            assert(recorded(a, op).len() > 0);
            let k = op.spec_index();
            assert(m.has_op(op));
            if b[k] != a[k] {
                assert(more.contains(OperationId::at(k)));
                let j = choose|j: int| 0 <= j < more.len() && more[j] == op;
                assert(recorded(b, more[j]).len() > 0);
            }
        } else {
            assert((ops + more)[i] == more[i - ops.len()]);
        }
    }
}

proof fn lemma_changed_concat(
    a: Seq<Seq<EffectView>>,
    b: Seq<Seq<EffectView>>,
    c: Seq<Seq<EffectView>>,
    x: Seq<OperationId>,
    y: Seq<OperationId>,
)
    requires
        changed_within(a, b, x),
        changed_within(b, c, y),
    ensures
        changed_within(a, c, x + y),
{
    assert forall|i: int| 0 <= i < a.len() implies #[trigger] c[i] == a[i] || (x + y).contains(
        OperationId::at(i),
    ) by {
        if c[i] != b[i] {
            let j = choose|j: int| 0 <= j < y.len() && y[j] == OperationId::at(i);
            assert((x + y)[x.len() + j] == OperationId::at(i));
        } else if b[i] != a[i] {
            let j = choose|j: int| 0 <= j < x.len() && x[j] == OperationId::at(i);
            assert((x + y)[j] == OperationId::at(i));
        }
    }
}

impl EffectSummary {
    /// Adds the effects of one list to another.
    fn merge(into: &mut Vec<Effect>, from: &Vec<Effect>)
        requires
            sorted(effect_texts(effect_views(old(into)@))),
        ensures
            sorted(effect_texts(effect_views(final(into)@))),
            forall|e: EffectView| #[trigger]
                effect_views(final(into)@).contains(e) <==> (effect_views(old(into)@).contains(e)
                    || effect_views(from@).contains(e)),
    {
        let ghost added = effect_views(from@);
        let mut i: usize = 0;
        while i < from.len()
            invariant
                i <= from@.len(),
                added == effect_views(from@),
                sorted(effect_texts(effect_views(into@))),
                forall|e: EffectView| #[trigger]
                    effect_views(into@).contains(e) <==> (effect_views(old(into)@).contains(e)
                        || added.take(i as int).contains(e)),
            decreases from@.len() - i,
        {
            let ghost before = effect_views(into@);
            add_effect(into, &from[i]);
            assert forall|e: EffectView| #[trigger] effect_views(into@).contains(e) <==> (
            effect_views(old(into)@).contains(e) || added.take(i + 1).contains(e)) by {
                let x = added.take(i as int);
                let y = added.take(i + 1);
                assert(y =~= x.push(added[i as int]));
                if x.contains(e) {
                    let k = choose|k: int| 0 <= k < x.len() && x[k] == e;
                    assert(y[k] == e);
                }
                if e == added[i as int] {
                    assert(y[i as int] == e);
                }
                if y.contains(e) && e != added[i as int] {
                    let k = choose|k: int| 0 <= k < y.len() && y[k] == e;
                    assert(x[k] == e);
                }
                assert(before.contains(e) <==> (effect_views(old(into)@).contains(e)
                    || x.contains(e)));
            }
            i += 1;
        }
        assert(added.take(i as int) =~= added);
    }

    fn visit(
        &mut self,
        module: &Module,
        op: OperationId,
        Ghost(levels): Ghost<Seq<nat>>,
        Ghost(level): Ghost<nat>,
        Ghost(fuel): Ghost<nat>,
    ) -> (r: Vec<Effect>)
        requires
            module@.in_bounds(),
            module@.leveled(levels),
            module@.has_op(op),
            !module@.op(op).erased,
            forall|n: int|
                0 <= n < module@.op(op).regions.len() ==> levels[(
                #[trigger] module@.op(op).regions[n]).spec_index()] > level,
            fuel + level >= module@.regions.len(),
            sound_table(module@, old(self)@),
        ensures
            sound_table(module@, final(self)@),
            summarizes(module@, module@.subtree(op), effect_views(r@)),
            changed_within(old(self)@, final(self)@, module@.subtree(op)),
            all_recorded(final(self)@, module@.subtree(op)),
        decreases fuel, 1int,
    {
        let ghost m = module@;
        let ghost inner = m.walk_regions(m.op(op).regions, 0, fuel);
        proof {
            crate::traversal::op_walks_agree(m, levels, op, level, 0, fuel, m.regions.len() + 1);
            assert(m.subtree(op) == seq![op] + inner);
            assert(m.op_in_bounds(m.ops[op.spec_index()]));
        }
        let operation = module.op(op);
        let mut effects: Vec<Effect> = Vec::new();
        effects.push(operation.effect.clone());
        let ghost own = m.op(op).effect;
        proof {
            assert(effect_views(effects@) =~= seq![own]);
            assert(effect_views(effects@)[0] == own);
        }
        let regions = &operation.regions;
        let ghost mut done: Seq<OperationId> = Seq::empty();
        assert(done + inner =~= inner);
        let mut n: usize = 0;
        while n < regions.len()
            invariant
                n <= regions@.len(),
                m == module@,
                m.in_bounds(),
                m.leveled(levels),
                m.has_op(op),
                m.op_in_bounds(m.op(op)),
                regions@ == m.op(op).regions,
                forall|n: int|
                    0 <= n < m.op(op).regions.len() ==> levels[(
                    #[trigger] m.op(op).regions[n]).spec_index()] > level,
                fuel + level >= m.regions.len(),
                sound_table(m, self@),
                sorted(effect_texts(effect_views(effects@))),
                forall|e: EffectView| #[trigger]
                    effect_views(effects@).contains(e) <==> (e == own || declared_by(m, done, e)),
                changed_within(old(self)@, self@, done),
                all_recorded(self@, done),
                crate::traversal::all_live(m, done),
                done + m.walk_regions(m.op(op).regions, n as int, fuel) == inner,
            decreases regions@.len() - n,
        {
            let region = regions[n];
            assert(m.has_region(regions@[n as int]));
            assert(levels[m.op(op).regions[n as int].spec_index()] > level);
            assert(levels[region.spec_index()] < m.regions.len());
            let ghost before = effect_views(effects@);
            let ghost table = self@;
            let ghost walked = m.walk_blocks(m.region(region).blocks, 0, (fuel - 1) as nat);
            self.visit_region(
                module,
                region,
                &mut effects,
                Ghost(levels),
                Ghost((fuel - 1) as nat),
            );
            proof {
                crate::traversal::walks_agree(
                    m,
                    levels,
                    region,
                    0,
                    (fuel - 1) as nat,
                    m.regions.len(),
                );
                crate::traversal::walks_are_live(m, region);
                lemma_recorded_stays(m, table, self@, walked, done);
                lemma_changed_concat(old(self)@, table, self@, done, walked);
                assert forall|e: EffectView| #[trigger]
                    effect_views(effects@).contains(e) <==> (e == own || declared_by(
                        m,
                        done + walked,
                        e,
                    )) by {
                    lemma_declared_concat(m, done, walked, e);
                    assert(before.contains(e) <==> (e == own || declared_by(m, done, e)));
                }
                assert(done + m.walk_regions(m.op(op).regions, n as int, fuel) =~= (done + walked)
                    + m.walk_regions(m.op(op).regions, n + 1, fuel));
                done = done + walked;
            }
            n += 1;
        }
        proof {
            assert(done =~= inner);
            let views = effect_views(effects@);
            assert forall|e: EffectView| #[trigger] views.contains(e) <==> declared_by(
                m,
                m.subtree(op),
                e,
            ) by {
                lemma_declared_concat(m, seq![op], inner, e);
                assert(declared_by(m, seq![op], e) == (e == own)) by {
                    if e == own {
                        assert(m.op(seq![op][0]).effect == e);
                    }
                }
            }
        }
        let copy = copy_effects(&effects);
        let ghost table = self@;
        let i: usize = op.index();
        self.summaries[i] = copy;
        proof {
            assert(self@ =~= table.update(i as int, effect_views(effects@)));
            assert(OperationId::at(i as int) == op);
            assert(effect_views(effects@).contains(own));
            lemma_recorded_stays(m, table, self@, seq![op], inner);
            assert forall|k: int| 0 <= k < m.subtree(op).len() implies recorded(
                self@,
                #[trigger] m.subtree(op)[k],
            ).len() > 0 by {
                if k > 0 {
                    assert(m.subtree(op)[k] == inner[k - 1]);
                    assert((inner + seq![op])[k - 1] == inner[k - 1]);
                }
            }
            assert forall|k: int| 0 <= k < self@.len() implies #[trigger] self@[k]
                == old(self)@[k] || m.subtree(op).contains(OperationId::at(k)) by {
                if k == i {
                    assert(m.subtree(op)[0] == op);
                } else if self@[k] != old(self)@[k] {
                    assert(inner.contains(OperationId::at(k)));
                    let j = choose|j: int| 0 <= j < inner.len() && inner[j] == OperationId::at(k);
                    assert(m.subtree(op)[j + 1] == OperationId::at(k));
                }
            }
        }
        effects
    }

    /// Visits the operations of a region, and adds their effects to a list.
    fn visit_region(
        &mut self,
        module: &Module,
        region: RegionId,
        effects: &mut Vec<Effect>,
        Ghost(levels): Ghost<Seq<nat>>,
        Ghost(fuel): Ghost<nat>,
    )
        requires
            module@.in_bounds(),
            module@.leveled(levels),
            module@.has_region(region),
            fuel + levels[region.spec_index()] >= module@.regions.len(),
            sound_table(module@, old(self)@),
            sorted(effect_texts(effect_views(old(effects)@))),
        ensures
            sound_table(module@, final(self)@),
            sorted(effect_texts(effect_views(final(effects)@))),
            ({
                let walked = module@.walk_blocks(module@.region(region).blocks, 0, fuel);
                &&& forall|e: EffectView| #[trigger]
                    effect_views(final(effects)@).contains(e) <==> (effect_views(
                        old(effects)@,
                    ).contains(e) || declared_by(module@, walked, e))
                &&& changed_within(old(self)@, final(self)@, walked)
                &&& all_recorded(final(self)@, walked)
            }),
        decreases fuel, 2int,
    {
        let ghost m = module@;
        let ghost r = region.spec_index();
        let ghost start = effect_views(effects@);
        let blocks = &module.region(region).blocks;
        let ghost block_ids = m.region(region).blocks;
        let ghost total = m.walk_blocks(block_ids, 0, fuel);
        let ghost mut done: Seq<OperationId> = Seq::empty();
        proof {
            assert(m.region_in_bounds(m.regions[r]));
            assert(done + total =~= total);
        }
        let mut b: usize = 0;
        while b < blocks.len()
            invariant
                b <= blocks@.len(),
                m == module@,
                r == region.spec_index(),
                blocks@ == block_ids,
                block_ids == m.region(region).blocks,
                m.in_bounds(),
                m.leveled(levels),
                m.has_region(region),
                m.region_in_bounds(m.region(region)),
                fuel + levels[r] >= m.regions.len(),
                sound_table(m, self@),
                sorted(effect_texts(effect_views(effects@))),
                forall|e: EffectView| #[trigger]
                    effect_views(effects@).contains(e) <==> (start.contains(e) || declared_by(
                        m,
                        done,
                        e,
                    )),
                changed_within(old(self)@, self@, done),
                all_recorded(self@, done),
                crate::traversal::all_live(m, done),
                done + m.walk_blocks(block_ids, b as int, fuel) == total,
            decreases blocks@.len() - b,
        {
            let block_id = blocks[b];
            assert(m.has_block(block_ids[b as int]));
            let ops = &module.block(block_id).ops;
            let ghost op_ids = m.block(block_id).ops;
            let ghost after = m.walk_blocks(block_ids, b + 1, fuel);
            assert(m.block_in_bounds(m.blocks[block_id.spec_index()]));
            assert(done + m.walk_ops(op_ids, 0, fuel) + after =~= total);
            let mut o: usize = 0;
            while o < ops.len()
                invariant
                    o <= ops@.len(),
                    b < block_ids.len(),
                    m == module@,
                    r == region.spec_index(),
                    ops@ == op_ids,
                    block_id == block_ids[b as int],
                    op_ids == m.block(block_id).ops,
                    block_ids == m.region(region).blocks,
                    m.in_bounds(),
                    m.leveled(levels),
                    m.has_region(region),
                    m.block_in_bounds(m.block(block_id)),
                    fuel + levels[r] >= m.regions.len(),
                    sound_table(m, self@),
                    sorted(effect_texts(effect_views(effects@))),
                    forall|e: EffectView| #[trigger]
                        effect_views(effects@).contains(e) <==> (start.contains(e)
                            || declared_by(m, done, e)),
                    changed_within(old(self)@, self@, done),
                    all_recorded(self@, done),
                    crate::traversal::all_live(m, done),
                    done + m.walk_ops(op_ids, o as int, fuel) + after == total,
                decreases ops@.len() - o,
            {
                let op = ops[o];
                assert(m.has_op(op_ids[o as int]));
                if !module.op(op).erased {
                    let ghost before = effect_views(effects@);
                    let ghost table = self@;
                    let ghost sub = m.subtree(op);
                    proof {
                        assert forall|n: int| 0 <= n < m.op(op).regions.len() implies levels[(
                        #[trigger] m.op(op).regions[n]).spec_index()] > levels[r] by {
                            assert(m.has_child(r, b as int, o as int, n));
                            assert(m.child(r, b as int, o as int, n) == m.op(op).regions[n]);
                        }
                        crate::traversal::op_walks_agree(
                            m,
                            levels,
                            op,
                            levels[r],
                            0,
                            fuel,
                            m.regions.len() + 1,
                        );
                        crate::traversal::subtrees_are_live(m, op);
                    }
                    let nested = self.visit(
                        module,
                        op,
                        Ghost(levels),
                        Ghost(levels[r]),
                        Ghost(fuel),
                    );
                    EffectSummary::merge(effects, &nested);
                    proof {
                        lemma_recorded_stays(m, table, self@, sub, done);
                        lemma_changed_concat(old(self)@, table, self@, done, sub);
                        assert forall|e: EffectView| #[trigger]
                            effect_views(effects@).contains(e) <==> (start.contains(e)
                                || declared_by(m, done + sub, e)) by {
                            lemma_declared_concat(m, done, sub, e);
                            assert(before.contains(e) <==> (start.contains(e) || declared_by(
                                m,
                                done,
                                e,
                            )));
                            assert(effect_views(nested@).contains(e) <==> declared_by(m, sub, e));
                        }
                        assert(done + m.walk_ops(op_ids, o as int, fuel) + after =~= (done + sub)
                            + m.walk_ops(op_ids, o + 1, fuel) + after);
                        done = done + sub;
                    }
                }
                o += 1;
            }
            assert(done + after =~= total);
            b += 1;
        }
        assert(done =~= total);
    }

    /// Computes a summary for every live operation in the module.
    pub fn build(module: &Module) -> (r: EffectSummary)
        requires
            module@.well_formed(),
        ensures
            r@ == effect_table(module@),
            table_of(module@, r@),
    {
        let ghost m = module@;
        let mut summaries: Vec<Vec<Effect>> = Vec::new();
        let mut i: usize = 0;
        while i < module.op_capacity()
            invariant
                i <= module@.ops.len(),
                summaries@.len() == i,
                forall|j: int| 0 <= j < i ==> (#[trigger] summaries@[j])@.len() == 0,
            decreases module@.ops.len() - i,
        {
            summaries.push(Vec::new());
            i += 1;
        }
        let mut summary = EffectSummary { summaries };
        let mut all: Vec<Effect> = Vec::new();
        let ghost levels = choose|levels: Seq<nat>| m.leveled(levels);
        assert(forall|j: int| 0 <= j < m.ops.len() ==> (#[trigger] summary@[j]).len() == 0);
        summary.visit_region(
            module,
            module.body(),
            &mut all,
            Ghost(levels),
            Ghost(m.regions.len()),
        );
        proof {
            let walked = m.program_order(m.body);
            assert forall|j: int| 0 <= j < m.ops.len() implies (if walked.contains(
                OperationId::at(j),
            ) {
                summarizes(m, m.subtree(OperationId::at(j)), #[trigger] summary@[j])
            } else {
                summary@[j].len() == 0
            }) by {
                if walked.contains(OperationId::at(j)) {
                    let k = choose|k: int| 0 <= k < walked.len() && walked[k] == OperationId::at(j);
                    assert(recorded(summary@, walked[k]).len() > 0);
                }
            }
            effect_tables_are_unique(m, summary@, effect_table(m));
        }
        summary
    }

    /// Whether the operation touches nothing outside the program.
    pub fn is_pure(&self, op: OperationId) -> (r: bool)
        ensures
            r == all_effects(recorded(self@, op), |e: EffectView| e is Pure),
    {
        let effects = self.of(op);
        let ghost views = effect_views(effects@);
        let mut i: usize = 0;
        while i < effects.len()
            invariant
                i <= effects@.len(),
                views == effect_views(effects@),
                views == recorded(self@, op),
                forall|j: int| 0 <= j < i ==> (#[trigger] views[j]) is Pure,
            decreases effects@.len() - i,
        {
            if !effects[i].is_pure() {
                assert(!(views[i as int] is Pure));
                return false;
            }
            i += 1;
        }
        true
    }

    /// Whether re-running the operation is observationally free: the
    /// precondition for dead-action elimination, result reuse and
    /// deduplication.
    pub fn is_replayable(&self, op: OperationId) -> (r: bool)
        ensures
            r == all_effects(recorded(self@, op), |e: EffectView| e.is_replayable()),
    {
        let effects = self.of(op);
        let ghost views = effect_views(effects@);
        let mut i: usize = 0;
        while i < effects.len()
            invariant
                i <= effects@.len(),
                views == effect_views(effects@),
                views == recorded(self@, op),
                forall|j: int| 0 <= j < i ==> (#[trigger] views[j]).is_replayable(),
            decreases effects@.len() - i,
        {
            if !effects[i].is_replayable() {
                assert(!views[i as int].is_replayable());
                return false;
            }
            i += 1;
        }
        true
    }

    /// Whether the operation can perform an effect that cannot be undone.
    pub fn is_irreversible(&self, op: OperationId) -> (r: bool)
        ensures
            r == any_effect(recorded(self@, op), |e: EffectView| e is Irreversible),
    {
        let effects = self.of(op);
        let ghost views = effect_views(effects@);
        let mut i: usize = 0;
        while i < effects.len()
            invariant
                i <= effects@.len(),
                views == effect_views(effects@),
                views == recorded(self@, op),
                forall|j: int| 0 <= j < i ==> !((#[trigger] views[j]) is Irreversible),
            decreases effects@.len() - i,
        {
            if effects[i].is_irreversible() {
                assert(views[i as int] is Irreversible);
                return true;
            }
            i += 1;
        }
        false
    }

    /// Whether the operation writes anything outside the program.
    pub fn writes(&self, op: OperationId) -> (r: bool)
        ensures
            r == any_effect(recorded(self@, op), |e: EffectView| e.is_write()),
    {
        let effects = self.of(op);
        let ghost views = effect_views(effects@);
        let mut i: usize = 0;
        while i < effects.len()
            invariant
                i <= effects@.len(),
                views == effect_views(effects@),
                views == recorded(self@, op),
                forall|j: int| 0 <= j < i ==> !(#[trigger] views[j]).is_write(),
            decreases effects@.len() - i,
        {
            if effects[i].is_write() {
                assert(views[i as int].is_write());
                return true;
            }
            i += 1;
        }
        false
    }

    /// Whether the operation's outcome is non-deterministic.
    pub fn is_stochastic(&self, op: OperationId) -> (r: bool)
        ensures
            r == any_effect(recorded(self@, op), |e: EffectView| e is Stochastic),
    {
        let effects = self.of(op);
        let ghost views = effect_views(effects@);
        let mut i: usize = 0;
        while i < effects.len()
            invariant
                i <= effects@.len(),
                views == effect_views(effects@),
                views == recorded(self@, op),
                forall|j: int| 0 <= j < i ==> !((#[trigger] views[j]) is Stochastic),
            decreases effects@.len() - i,
        {
            if matches!(effects[i], Effect::Stochastic) {
                assert(views[i as int] is Stochastic);
                return true;
            }
            i += 1;
        }
        false
    }

    /// Whether two operations may not run concurrently: some effect of one
    /// conflicts with some effect of the other.
    pub fn conflict(&self, a: OperationId, b: OperationId) -> (r: bool)
        ensures
            r == lists_conflict(recorded(self@, a), recorded(self@, b)),
    {
        let left = self.of(a);
        let right = self.of(b);
        let ghost ls = effect_views(left@);
        let ghost rs = effect_views(right@);
        let mut i: usize = 0;
        while i < left.len()
            invariant
                i <= left@.len(),
                ls == effect_views(left@),
                rs == effect_views(right@),
                ls == recorded(self@, a),
                rs == recorded(self@, b),
                forall|x: int, y: int|
                    0 <= x < i && 0 <= y < rs.len() ==> !(#[trigger] ls[x]).conflicts_with(
                        #[trigger] rs[y],
                    ),
            decreases left@.len() - i,
        {
            let mut j: usize = 0;
            while j < right.len()
                invariant
                    i < left@.len(),
                    j <= right@.len(),
                    ls == effect_views(left@),
                    rs == effect_views(right@),
                    ls == recorded(self@, a),
                    rs == recorded(self@, b),
                    forall|y: int|
                        0 <= y < j ==> !ls[i as int].conflicts_with(#[trigger] rs[y]),
                decreases right@.len() - j,
            {
                if left[i].conflicts_with(&right[j]) {
                    assert(ls[i as int].conflicts_with(rs[j as int]));
                    return true;
                }
                assert(!ls[i as int].conflicts_with(rs[j as int]));
                j += 1;
            }
            i += 1;
        }
        false
    }

    /// The effects of the operation that need a capability.
    pub fn capability_demanding(&self, op: OperationId) -> (r: Vec<&Effect>)
        ensures
            Seq::new(r@.len(), |i: int| r@[i]@) == recorded(self@, op).filter(
                |e: EffectView| !(e is Pure),
            ),
    {
        let effects = self.of(op);
        let ghost views = effect_views(effects@);
        let ghost keep = |e: EffectView| !(e is Pure);
        let mut r: Vec<&Effect> = Vec::new();
        let mut i: usize = 0;
        proof {
            reveal(Seq::filter);
            assert(views.take(0).filter(keep) =~= Seq::empty());
        }
        while i < effects.len()
            invariant
                i <= effects@.len(),
                views == effect_views(effects@),
                views == recorded(self@, op),
                keep == |e: EffectView| !(e is Pure),
                Seq::new(r@.len(), |i: int| r@[i]@) =~= views.take(i as int).filter(keep),
            decreases effects@.len() - i,
        {
            let ghost before = r@;
            proof {
                reveal(Seq::filter);
                assert(views.take(i + 1).drop_last() =~= views.take(i as int));
            }
            if effects[i].requires_capability() {
                r.push(&effects[i]);
                assert(Seq::new(r@.len(), |i: int| r@[i]@) =~= Seq::new(
                    before.len(),
                    |i: int| before[i]@,
                ).push(views[i as int]));
            }
            i += 1;
        }
        assert(views.take(i as int) =~= views);
        r
    }
}

fn copy_effects(effects: &Vec<Effect>) -> (r: Vec<Effect>)
    ensures
        effect_views(r@) == effect_views(effects@),
{
    let mut r: Vec<Effect> = Vec::new();
    let mut i: usize = 0;
    while i < effects.len()
        invariant
            i <= effects@.len(),
            r@.len() == i,
            forall|j: int| 0 <= j < i ==> (#[trigger] r@[j])@ == effects@[j]@,
        decreases effects@.len() - i,
    {
        r.push(effects[i].clone());
        i += 1;
    }
    assert(effect_views(r@) =~= effect_views(effects@));
    r
}

} // verus!
