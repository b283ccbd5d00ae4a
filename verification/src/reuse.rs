//! What reusing a result comes to.
//!
//! Deduplication reports every value it rewrote into another, and the uses in
//! the module it leaves are exactly those rewritten as reported. Each pair is a
//! result of an earlier operation of the same block and the same result of a
//! later one that computes the same thing: both only read, and nothing between
//! them changes what they read.

use vstd::prelude::*;

use crate::assoc::{keys, sorted};
use crate::attribute::AttributeView;
use crate::dedup::{
    blocks_exist, blocks_of, cached, dedup_blocks, dedup_op, dedup_ops, interferer, is_cacheable,
    lemma_only_operands, lemma_reuse_only_operands, only_operands, reuse, reuse_is_not_stale, Dedup,
    Seen, ToolCallDeduplication,
};
use crate::dependency::lemma_live_distinct;
use crate::dominance::{lemma_position, position_from};
use crate::effect::EffectView;
use crate::effects::{effect_table, lists_conflict, recorded};
use crate::identity::{a_key_stands_for_a_computation, same_computation};
use crate::ids::{BlockId, OperationId, ValueId};
use crate::judgement::{conflicts_are_races, race};
use crate::module::{occurrences, replaced, CacheKeyView, ModuleView, OperationView};
use crate::pass::{Pass, PassReportView};
use crate::printer::lemma_filter_member;

verus! {

/// The live operations of a block, in order.
pub open spec fn standing(m: ModuleView, block: BlockId) -> Seq<OperationId> {
    m.live(m.block(block).ops)
}

/// What a value became once the first `n` of some rewrites were made, in order.
pub open spec fn followed(pairs: Seq<(ValueId, ValueId)>, value: ValueId, n: int) -> ValueId
    decreases n,
{
    if n <= 0 {
        value
    } else {
        let before = followed(pairs, value, n - 1);
        if before == pairs[n - 1].0 {
            pairs[n - 1].1
        } else {
            before
        }
    }
}

/// Whether a module is another one with some values rewritten into others, and
/// nothing else changed.
pub open spec fn is_rewritten(
    m: ModuleView,
    out: ModuleView,
    pairs: Seq<(ValueId, ValueId)>,
) -> bool {
    &&& only_operands(m, out)
    &&& forall|i: int|
        0 <= i < m.ops.len() && !m.ops[i].erased ==> (#[trigger] out.ops[i]).operands.len()
            == m.ops[i].operands.len() && forall|p: int|
            0 <= p < m.ops[i].operands.len() ==> #[trigger] out.ops[i].operands[p] == followed(
                pairs,
                m.ops[i].operands[p],
                pairs.len() as int,
            )
}

/// Whether no live operation of a block reads a result of itself or of one that
/// comes later in the block.
pub open spec fn reads_in_order(m: ModuleView, block: BlockId) -> bool {
    forall|i: int, j: int, p: int, q: int|
        0 <= i <= j < standing(m, block).len() && 0 <= p < m.op(
            standing(m, block)[i],
        ).operands.len() && 0 <= q < m.op(standing(m, block)[j]).results.len()
            ==> #[trigger] m.op(standing(m, block)[i]).operands[p] != #[trigger] m.op(
            standing(m, block)[j],
        ).results[q]
}

/// Whether the result of an operation may be reused: it has one, owns no
/// region, does not opt out, and whatever it is recorded to do leaves the world
/// as it is.
pub open spec fn may_be_reused(m: ModuleView, op: OperationId) -> bool {
    &&& m.op(op).results.len() > 0
    &&& m.op(op).regions.len() == 0
    &&& m.op(op).attr("no_cache"@) != Some(AttributeView::Bool(true))
    &&& forall|k: int|
        0 <= k < recorded(effect_table(m), op).len() ==> {
            let e = #[trigger] recorded(effect_table(m), op)[k];
            e is Pure || e is ReadExternal
        }
}

/// Whether rewriting the `x`-th result of the `j`-th operation of a block into
/// that of the `i`-th is a reuse.
pub open spec fn is_reuse(
    m: ModuleView,
    out: ModuleView,
    block: BlockId,
    i: int,
    j: int,
    x: int,
    pair: (ValueId, ValueId),
) -> bool {
    let ops = standing(m, block);
    &&& m.has_block(block)
    &&& 0 <= i < j < ops.len()
    &&& may_be_reused(m, ops[i])
    &&& may_be_reused(m, ops[j])
    &&& m.op(ops[i]).results.len() == m.op(ops[j]).results.len()
    &&& 0 <= x < m.op(ops[j]).results.len()
    &&& pair.0 == m.op(ops[j]).results[x]
    &&& pair.1 == m.op(ops[i]).results[x]
    &&& m.value(pair.0).ty == m.value(pair.1).ty
    &&& forall|l: int|
        i < l < j ==> !lists_conflict(
            recorded(effect_table(m), #[trigger] ops[l]),
            recorded(effect_table(m), ops[j]),
        )
    &&& reads_in_order(m, block) ==> out.op(ops[i]).cache_key() == out.op(ops[j]).cache_key()
}

/// Whether a pair of values is a reuse.
pub open spec fn is_justified(m: ModuleView, out: ModuleView, pair: (ValueId, ValueId)) -> bool {
    exists|block: BlockId, i: int, j: int, x: int| #[trigger]
        is_reuse(m, out, block, i, j, x, pair)
}

/// Where deduplication stands: the module is the one it began with, with the
/// reported values rewritten, each of them a reuse.
spec fn stands(m: ModuleView, now: ModuleView, pairs: Seq<(ValueId, ValueId)>) -> bool {
    &&& is_rewritten(m, now, pairs)
    &&& forall|k: int| 0 <= k < pairs.len() ==> is_justified(m, now, #[trigger] pairs[k])
    &&& forall|block: BlockId|
        m.has_block(block) && reads_in_order(m, block) ==> #[trigger] reads_in_order(now, block)
}

proof fn same_standing(m: ModuleView, now: ModuleView, block: BlockId)
    requires
        only_operands(m, now),
        m.in_bounds(),
        m.has_block(block),
    ensures
        standing(now, block) == standing(m, block),
        all_stand(m, block),
        standing(m, block).no_duplicates(),
{
    let ops = m.block(block).ops;
    let b = block.spec_index() as int;
    assert(m.block_in_bounds(m.blocks[b]));
    assert(m.blocks[b].id == BlockId::at(b));
    assert(now.block(block) == m.block(block));
    alike_live(m, now, ops);
    lemma_live_distinct(m, ops);
    crate::traversal::lemma_live(m, ops);
    assert forall|i: int| 0 <= i < standing(m, block).len() implies m.has_op(
        #[trigger] standing(m, block)[i],
    ) && !m.op(standing(m, block)[i]).erased && m.op(standing(m, block)[i]).parent == Some(block) by {
        let live = |op: OperationId| !m.op(op).erased;
        lemma_filter_member(ops, live, i);
        let k = choose|k: int| 0 <= k < ops.len() && ops[k] == ops.filter(live)[i] && live(ops[k]);
        assert(m.has_op(ops[k]));
    }
}

/// Whether the operations that stand in a block are live operations of it.
spec fn all_stand(m: ModuleView, block: BlockId) -> bool {
    forall|i: int|
        0 <= i < standing(m, block).len() ==> m.has_op(#[trigger] standing(m, block)[i]) && !m.op(
            standing(m, block)[i],
        ).erased && m.op(standing(m, block)[i]).parent == Some(block)
}

proof fn alike_live(m: ModuleView, now: ModuleView, ops: Seq<OperationId>)
    requires
        only_operands(m, now),
        forall|i: int| 0 <= i < ops.len() ==> m.has_op(#[trigger] ops[i]),
    ensures
        now.live(ops) == m.live(ops),
    decreases ops.len(),
{
    reveal(Seq::filter);
    if ops.len() > 0 {
        assert(m.has_op(ops[ops.len() - 1]));
        let rest = ops.drop_last();
        assert forall|i: int| 0 <= i < rest.len() implies m.has_op(#[trigger] rest[i]) by {
            assert(m.has_op(ops[i]));
        }
        alike_live(m, now, rest);
        let last = ops.last();
        assert(now.ops[last.spec_index() as int].erased == m.ops[last.spec_index() as int].erased);
    }
}

/// What an operation is in a module that differs in operands alone.
proof fn same_but_operands(m: ModuleView, now: ModuleView, op: OperationId)
    requires
        only_operands(m, now),
        m.has_op(op),
    ensures
        now.has_op(op),
        now.op(op) == (OperationView { operands: now.op(op).operands, ..m.op(op) }),
{
    assert(now.ops[op.spec_index() as int] == (OperationView {
        operands: now.ops[op.spec_index() as int].operands,
        ..m.ops[op.spec_index() as int]
    }));
}

/// A rewrite turns the operands of every live operation alike.
proof fn rewriting_is_uniform(m: ModuleView, a: ValueId, b: ValueId, op: OperationId)
    requires
        m.has_op(op),
        !m.op(op).erased,
    ensures
        m.replace_all_uses(a, b).op(op) == (OperationView {
            operands: replaced(m.op(op).operands, a, b),
            ..m.op(op)
        }),
        only_operands(m, m.replace_all_uses(a, b)),
{
}

/// One more rewrite, of a result of one operation of a block into that of an
/// earlier one that computes the same.
proof fn one_more_rewrite(
    m: ModuleView,
    now: ModuleView,
    pairs: Seq<(ValueId, ValueId)>,
    block: BlockId,
    i: int,
    j: int,
    x: int,
    pair: (ValueId, ValueId),
)
    requires
        m.in_bounds(),
        stands(m, now, pairs),
        is_reuse(m, now, block, i, j, x, pair),
    ensures
        stands(m, now.replace_all_uses(pair.0, pair.1), pairs.push(pair)),
        is_reuse(m, now.replace_all_uses(pair.0, pair.1), block, i, j, x, pair),
        reads_in_order(m, block) ==> forall|e: int|
            0 <= e <= j ==> #[trigger] now.replace_all_uses(pair.0, pair.1).op(
                standing(m, block)[e],
            ).cache_key() == now.op(standing(m, block)[e]).cache_key(),
{
    let (a, b) = pair;
    let next = now.replace_all_uses(a, b);
    let after = pairs.push(pair);
    let n = pairs.len() as int;
    let ops = standing(m, block);
    same_standing(m, now, block);
    assert(only_operands(now, next));
    lemma_only_operands(m, now, next);
    // The operands follow one more rewrite.
    assert forall|v: ValueId| #[trigger] followed(after, v, n + 1) == if followed(pairs, v, n) == a {
        b
    } else {
        followed(pairs, v, n)
    } by {
        follows_alike(pairs, after, v, n);
    }
    assert forall|k: int| 0 <= k < m.ops.len() && !m.ops[k].erased implies (
    #[trigger] next.ops[k]).operands.len() == m.ops[k].operands.len() && forall|p: int|
        0 <= p < m.ops[k].operands.len() ==> #[trigger] next.ops[k].operands[p] == followed(
            after,
            m.ops[k].operands[p],
            n + 1,
        ) by {
        assert(now.ops[k].operands.len() == m.ops[k].operands.len());
        assert forall|p: int| 0 <= p < m.ops[k].operands.len() implies #[trigger] next.ops[k].operands[p]
            == followed(after, m.ops[k].operands[p], n + 1) by {
            assert(now.ops[k].operands[p] == followed(pairs, m.ops[k].operands[p], n));
        }
    }
    // Equal computations stay equal.
    assert forall|k: int| 0 <= k < after.len() implies is_justified(m, next, #[trigger] after[k]) by {
        let old = if k < n {
            pairs[k]
        } else {
            pair
        };
        if k < n {
            assert(is_justified(m, now, pairs[k]));
        } else {
            assert(is_justified(m, now, pair));
        }
        let (c, u, v, y) = choose|c: BlockId, u: int, v: int, y: int| #[trigger]
            is_reuse(m, now, c, u, v, y, old);
        keys_stay_equal(m, now, c, u, v, y, old, a, b);
        assert(is_reuse(m, next, c, u, v, y, after[k]));
    }
    keys_stay_equal(m, now, block, i, j, x, pair, a, b);
    // What is read still comes first.
    assert forall|c: BlockId|
        m.has_block(c) && reads_in_order(m, c) implies #[trigger] reads_in_order(next, c) by {
        assert(reads_in_order(now, c));
        reading_stays_in_order(m, now, block, i, j, x, pair, c);
    }
    if reads_in_order(m, block) {
        assert(reads_in_order(now, block));
        assert forall|e: int| 0 <= e <= j implies #[trigger] next.op(ops[e]).cache_key() == now.op(
            ops[e],
        ).cache_key() by {
            same_but_operands(m, now, ops[e]);
            same_but_operands(m, now, ops[j]);
            rewriting_is_uniform(now, a, b, ops[e]);
            let old = now.op(ops[e]).operands;
            assert forall|p: int| 0 <= p < old.len() implies old[p] != a by {
                assert(standing(now, block)[e] == ops[e]);
                assert(standing(now, block)[j] == ops[j]);
                assert(now.op(standing(now, block)[e]).operands[p] != now.op(
                    standing(now, block)[j],
                ).results[x]);
            }
            assert(replaced(old, a, b) =~= old);
        }
    }
}

proof fn follows_alike(
    pairs: Seq<(ValueId, ValueId)>,
    after: Seq<(ValueId, ValueId)>,
    v: ValueId,
    n: int,
)
    requires
        0 <= n <= pairs.len(),
        n <= after.len(),
        forall|k: int| 0 <= k < n ==> #[trigger] pairs[k] == after[k],
    ensures
        followed(pairs, v, n) == followed(after, v, n),
    decreases n,
{
    if n > 0 {
        follows_alike(pairs, after, v, n - 1);
        assert(pairs[n - 1] == after[n - 1]);
    }
}

proof fn keys_stay_equal(
    m: ModuleView,
    now: ModuleView,
    block: BlockId,
    i: int,
    j: int,
    x: int,
    pair: (ValueId, ValueId),
    a: ValueId,
    b: ValueId,
)
    requires
        m.in_bounds(),
        only_operands(m, now),
        is_reuse(m, now, block, i, j, x, pair),
    ensures
        is_reuse(m, now.replace_all_uses(a, b), block, i, j, x, pair),
{
    let ops = standing(m, block);
    same_standing(m, now, block);
    same_but_operands(m, now, ops[i]);
    same_but_operands(m, now, ops[j]);
    rewriting_is_uniform(now, a, b, ops[i]);
    rewriting_is_uniform(now, a, b, ops[j]);
}

proof fn reading_stays_in_order(
    m: ModuleView,
    now: ModuleView,
    block: BlockId,
    i: int,
    j: int,
    x: int,
    pair: (ValueId, ValueId),
    other: BlockId,
)
    requires
        m.in_bounds(),
        only_operands(m, now),
        is_reuse(m, now, block, i, j, x, pair),
        m.has_block(other),
        reads_in_order(now, other),
    ensures
        reads_in_order(now.replace_all_uses(pair.0, pair.1), other),
{
    let (a, b) = pair;
    let next = now.replace_all_uses(a, b);
    let ops = standing(m, block);
    let there = standing(m, other);
    same_standing(m, now, block);
    same_standing(m, now, other);
    assert(only_operands(now, next));
    lemma_only_operands(m, now, next);
    same_standing(m, next, other);
    assert(m.op_in_bounds(m.ops[ops[i].spec_index() as int]));
    assert(m.op_in_bounds(m.ops[ops[j].spec_index() as int]));
    assert forall|u: int, v: int, p: int, q: int|
        0 <= u <= v < standing(next, other).len() && 0 <= p < next.op(
            standing(next, other)[u],
        ).operands.len() && 0 <= q < next.op(
            standing(next, other)[v],
        ).results.len() implies #[trigger] next.op(standing(next, other)[u]).operands[p]
        != #[trigger] next.op(standing(next, other)[v]).results[q] by {
        same_but_operands(m, now, there[u]);
        same_but_operands(m, now, there[v]);
        same_but_operands(m, now, ops[j]);
        rewriting_is_uniform(now, a, b, there[u]);
        rewriting_is_uniform(now, a, b, there[v]);
        assert(standing(now, other)[u] == there[u] && standing(now, other)[v] == there[v]);
        assert(now.op(standing(now, other)[u]).operands[p] != now.op(
            standing(now, other)[v],
        ).results[q]);
        if now.op(there[u]).operands[p] == a && now.op(there[v]).results[q] == b {
            assert(m.op_in_bounds(m.ops[there[v].spec_index() as int]));
            assert(m.ops[there[v].spec_index() as int].id == there[v]);
            assert(m.ops[ops[i].spec_index() as int].id == ops[i]);
            assert(m.is_result(m.op(there[v]).results[q], there[v]));
            assert(m.is_result(m.op(ops[i]).results[x], ops[i]));
            assert(there[v] == ops[i]);
            assert(other == block);
            assert(v == i);
            assert(standing(now, other)[u] == there[u] && standing(now, other)[j] == ops[j]);
            assert(now.op(standing(now, other)[u]).operands[p] != now.op(
                standing(now, other)[j],
            ).results[x]);
        }
    }
}

/// The results of one operation rewritten into those of an earlier one.
proof fn results_are_reused(
    m: ModuleView,
    now: ModuleView,
    report: PassReportView,
    block: BlockId,
    i: int,
    j: int,
    n: int,
)
    requires
        m.in_bounds(),
        stands(m, now, report.rewritten),
        m.has_block(block),
        0 <= i < j < standing(m, block).len(),
        may_be_reused(m, standing(m, block)[i]),
        may_be_reused(m, standing(m, block)[j]),
        m.op(standing(m, block)[i]).results.len() == m.op(standing(m, block)[j]).results.len(),
        0 <= n <= m.op(standing(m, block)[j]).results.len(),
        forall|l: int|
            i < l < j ==> !lists_conflict(
                recorded(effect_table(m), #[trigger] standing(m, block)[l]),
                recorded(effect_table(m), standing(m, block)[j]),
            ),
        reads_in_order(m, block) ==> now.op(standing(m, block)[i]).cache_key() == now.op(
            standing(m, block)[j],
        ).cache_key(),
    ensures
        ({
            let from = m.op(standing(m, block)[j]).results;
            let to = m.op(standing(m, block)[i]).results;
            let (next, after) = reuse(now, report, from, to, n);
            &&& stands(m, next, after.rewritten)
            &&& reads_in_order(m, block) ==> next.op(standing(m, block)[i]).cache_key() == next.op(
                standing(m, block)[j],
            ).cache_key()
            &&& reads_in_order(m, block) ==> forall|e: int|
                0 <= e <= j ==> #[trigger] next.op(standing(m, block)[e]).cache_key() == now.op(
                    standing(m, block)[e],
                ).cache_key()
        }),
    decreases n,
{
    if n > 0 {
        let from = m.op(standing(m, block)[j]).results;
        let to = m.op(standing(m, block)[i]).results;
        results_are_reused(m, now, report, block, i, j, n - 1);
        let (mid, made) = reuse(now, report, from, to, n - 1);
        let pair = (from[n - 1], to[n - 1]);
        if mid.value(pair.0).ty == mid.value(pair.1).ty {
            assert(is_reuse(m, mid, block, i, j, n - 1, pair));
            one_more_rewrite(m, mid, made.rewritten, block, i, j, n - 1, pair);
        }
    }
}

/// Whether what was met of a block is known where it stands: each entry is an
/// operation that comes before position `n`, with the key that it has now.
spec fn is_known(m: ModuleView, now: ModuleView, seen: Seen, block: BlockId, n: int) -> bool {
    forall|k: int|
        0 <= k < seen.len() ==> exists|i: int|
            0 <= i < n && #[trigger] standing(m, block)[i] == (#[trigger] seen[k]).1
                && may_be_reused(m, standing(m, block)[i]) && (reads_in_order(m, block)
                ==> seen[k].0 == now.op(standing(m, block)[i]).cache_key())
}

proof fn found_was_met(seen: Seen, key: CacheKeyView)
    ensures
        cached(seen, key) matches Some(op) ==> exists|k: int|
            0 <= k < seen.len() && (#[trigger] seen[k]).1 == op && seen[k].0 == key,
    decreases seen.len(),
{
    if seen.len() > 0 {
        if seen.last().0 == key {
            assert(seen[seen.len() - 1].1 == seen.last().1);
        } else {
            let rest = seen.drop_last();
            found_was_met(rest, key);
            if let Some(op) = cached(rest, key) {
                let k = choose|k: int|
                    0 <= k < rest.len() && (#[trigger] rest[k]).1 == op && rest[k].0 == key;
                assert(seen[k].1 == op);
            }
        }
    }
}

/// What may be reused does not depend on operands.
proof fn reusable_alike(m: ModuleView, now: ModuleView, op: OperationId)
    requires
        only_operands(m, now),
        m.has_op(op),
    ensures
        is_cacheable(now, effect_table(m), op) == may_be_reused(m, op),
{
    same_but_operands(m, now, op);
    let effects = recorded(effect_table(m), op);
    if is_cacheable(now, effect_table(m), op) {
        assert forall|k: int| 0 <= k < effects.len() implies {
            let e = #[trigger] effects[k];
            e is Pure || e is ReadExternal
        } by {
            assert(effects[k].is_replayable());
        }
    }
    if may_be_reused(m, op) {
        assert forall|k: int| 0 <= k < effects.len() implies (
        #[trigger] effects[k]).is_replayable() by {
            let e = effects[k];
            assert(e is Pure || e is ReadExternal);
        }
    }
}

proof fn a_block_stands(m: ModuleView, s: Dedup, block: BlockId, n: int)
    requires
        m.in_bounds(),
        m.has_block(block),
        stands(m, s.m, s.report.rewritten),
        s.seen.len() == 0,
        0 <= n <= standing(m, block).len(),
    ensures
        ({
            let t = dedup_ops(s, effect_table(m), standing(m, block), n);
            stands(m, t.m, t.report.rewritten) && is_known(m, t.m, t.seen, block, n)
        }),
    decreases n,
{
    if n > 0 {
        let table = effect_table(m);
        let ops = standing(m, block);
        a_block_stands(m, s, block, n - 1);
        let t = dedup_ops(s, table, ops, n - 1);
        let u = dedup_op(t, table, ops, n - 1);
        let op = ops[n - 1];
        let o = t.m.op(op);
        let j = n - 1;
        same_standing(m, t.m, block);
        assert(m.has_op(ops[j]));
        same_but_operands(m, t.m, op);
        reusable_alike(m, t.m, op);
        assert(is_known(m, t.m, t.seen, block, n)) by {
            assert forall|k: int| 0 <= k < t.seen.len() implies exists|i: int|
                0 <= i < n && #[trigger] standing(m, block)[i] == (#[trigger] t.seen[k]).1
                    && may_be_reused(m, standing(m, block)[i]) && (reads_in_order(m, block)
                    ==> t.seen[k].0 == t.m.op(standing(m, block)[i]).cache_key()) by {
                let i = choose|i: int|
                    0 <= i < n - 1 && #[trigger] standing(m, block)[i] == t.seen[k].1
                        && may_be_reused(m, standing(m, block)[i]) && (reads_in_order(m, block)
                        ==> t.seen[k].0 == t.m.op(standing(m, block)[i]).cache_key());
                assert(standing(m, block)[i] == t.seen[k].1);
            }
        }
        if is_cacheable(t.m, table, op) {
            let key = o.cache_key();
            let pushed = t.seen.push((key, op));
            assert(is_known(m, t.m, pushed, block, n)) by {
                assert forall|k: int| 0 <= k < pushed.len() implies exists|i: int|
                    0 <= i < n && #[trigger] standing(m, block)[i] == (#[trigger] pushed[k]).1
                        && may_be_reused(m, standing(m, block)[i]) && (reads_in_order(m, block)
                        ==> pushed[k].0 == t.m.op(standing(m, block)[i]).cache_key()) by {
                    if k < t.seen.len() {
                        assert(pushed[k] == t.seen[k]);
                        let i = choose|i: int|
                            0 <= i < n && #[trigger] standing(m, block)[i] == t.seen[k].1
                                && may_be_reused(m, standing(m, block)[i]) && (reads_in_order(
                                m,
                                block,
                            ) ==> t.seen[k].0 == t.m.op(standing(m, block)[i]).cache_key());
                        assert(standing(m, block)[i] == pushed[k].1);
                    } else {
                        assert(standing(m, block)[j] == pushed[k].1);
                    }
                }
            }
            found_was_met(t.seen, key);
            if let Some(earlier) = cached(t.seen, key) {
                let k = choose|k: int|
                    0 <= k < t.seen.len() && (#[trigger] t.seen[k]).1 == earlier && t.seen[k].0
                        == key;
                let i = choose|i: int|
                    0 <= i < n - 1 && #[trigger] standing(m, block)[i] == t.seen[k].1
                        && may_be_reused(m, standing(m, block)[i]) && (reads_in_order(m, block)
                        ==> t.seen[k].0 == t.m.op(standing(m, block)[i]).cache_key());
                same_but_operands(m, t.m, ops[i]);
                assert(position_from(ops, earlier, 0) == Some(i)) by {
                    assert forall|l: int| 0 <= l < i implies ops[l] != earlier by {
                        assert(ops[l] != ops[i]);
                    }
                    lemma_position(ops, earlier, i, 0);
                }
                let between = interferer(t.m, table, ops, i + 1, j, op);
                if between is None && t.m.op(earlier).results.len() == o.results.len() {
                    assert forall|l: int| i < l < j implies !lists_conflict(
                        recorded(table, #[trigger] standing(m, block)[l]),
                        recorded(table, standing(m, block)[j]),
                    ) by {
                        reuse_is_not_stale(t.m, table, ops, i + 1, j, op, l);
                        same_but_operands(m, t.m, ops[l]);
                    }
                    results_are_reused(
                        m,
                        t.m,
                        t.report,
                        block,
                        i,
                        j,
                        o.results.len() as int,
                    );
                    let (next, made) = reuse(
                        t.m,
                        t.report,
                        o.results,
                        t.m.op(earlier).results,
                        o.results.len() as int,
                    );
                    assert(u.m == next && u.seen == t.seen);
                    assert(u.report.rewritten == made.rewritten);
                    assert forall|l: int| 0 <= l < u.seen.len() implies exists|e: int|
                        0 <= e < n && #[trigger] standing(m, block)[e] == (#[trigger] u.seen[l]).1
                            && may_be_reused(m, standing(m, block)[e]) && (reads_in_order(m, block)
                            ==> u.seen[l].0 == next.op(standing(m, block)[e]).cache_key()) by {
                        let e = choose|e: int|
                            0 <= e < n - 1 && #[trigger] standing(m, block)[e] == t.seen[l].1
                                && may_be_reused(m, standing(m, block)[e]) && (reads_in_order(
                                m,
                                block,
                            ) ==> t.seen[l].0 == t.m.op(standing(m, block)[e]).cache_key());
                        assert(standing(m, block)[e] == u.seen[l].1);
                    }
                }
            }
        }
    }
}

proof fn the_pass_stands(m: ModuleView, report: PassReportView, blocks: Seq<BlockId>, n: int)
    requires
        m.in_bounds(),
        report.rewritten.len() == 0,
        0 <= n <= blocks.len(),
        forall|i: int| 0 <= i < blocks.len() ==> m.has_block(#[trigger] blocks[i]),
    ensures
        ({
            let (out, made) = dedup_blocks(m, report, effect_table(m), blocks, n);
            stands(m, out, made.rewritten)
        }),
    decreases n,
{
    let table = effect_table(m);
    if n > 0 {
        the_pass_stands(m, report, blocks, n - 1);
        let (now, made) = dedup_blocks(m, report, table, blocks, n - 1);
        let block = blocks[n - 1];
        assert(m.has_block(blocks[n - 1]));
        same_standing(m, now, block);
        let s = Dedup { m: now, report: made, seen: Seq::empty() };
        a_block_stands(m, s, block, standing(m, block).len() as int);
    } else {
        assert(is_rewritten(m, m, report.rewritten));
    }
}

/// Deduplication rewrites uses exactly as it reports: every operand of the
/// module it leaves is what the reported rewrites, in order, make of it, and
/// nothing else changed.
pub proof fn uses_are_rewritten_as_reported(m: ModuleView)
    requires
        m.well_formed(),
    ensures
        is_rewritten(
            m,
            ToolCallDeduplication.outcome(m).0,
            ToolCallDeduplication.outcome(m).1.rewritten,
        ),
{
    let blocks = blocks_of(m, m.regions.len() as int);
    blocks_exist(m, m.regions.len() as int);
    the_pass_stands(
        m,
        PassReportView::empty("tool-call-deduplication"@),
        blocks,
        blocks.len() as int,
    );
}

/// Every value that deduplication rewrites into another is a result of an
/// operation that repeats an earlier one of its block. Both have the same
/// results of the same type, own no region, do not opt out and only read; in the
/// module it leaves they compute the same thing; and nothing between them races
/// with what they read.
pub proof fn reused_results_are_the_same(m: ModuleView, k: int)
    requires
        m.well_formed(),
        0 <= k < ToolCallDeduplication.outcome(m).1.rewritten.len(),
    ensures
        ({
            let (out, report) = ToolCallDeduplication.outcome(m);
            let order = m.program_order(m.body);
            exists|block: BlockId, i: int, j: int, x: int|
                {
                    let ops = standing(m, block);
                    &&& #[trigger] is_reuse(m, out, block, i, j, x, report.rewritten[k])
                    &&& order.contains(ops[i]) ==> m.op(ops[i]).effect is Pure || m.op(
                        ops[i],
                    ).effect is ReadExternal
                    &&& order.contains(ops[j]) ==> m.op(ops[j]).effect is Pure || m.op(
                        ops[j],
                    ).effect is ReadExternal
                    &&& forall|l: int|
                        i < l < j && order.contains(#[trigger] ops[l]) && order.contains(ops[j])
                            ==> !race(m, ops[l], ops[j])
                    &&& reads_in_order(m, block) && sorted(keys(m.op(ops[i]).attributes)) && sorted(
                        keys(m.op(ops[j]).attributes),
                    ) ==> same_computation(out.op(ops[i]), out.op(ops[j]))
                }
        }),
{
    let (out, report) = ToolCallDeduplication.outcome(m);
    let order = m.program_order(m.body);
    let blocks = blocks_of(m, m.regions.len() as int);
    blocks_exist(m, m.regions.len() as int);
    the_pass_stands(
        m,
        PassReportView::empty("tool-call-deduplication"@),
        blocks,
        blocks.len() as int,
    );
    let pair = report.rewritten[k];
    assert(is_justified(m, out, pair));
    let (block, i, j, x) = choose|block: BlockId, i: int, j: int, x: int| #[trigger]
        is_reuse(m, out, block, i, j, x, pair);
    let ops = standing(m, block);
    same_standing(m, out, block);
    same_but_operands(m, out, ops[i]);
    same_but_operands(m, out, ops[j]);
    only_reads(m, ops[i]);
    only_reads(m, ops[j]);
    assert forall|l: int|
        i < l < j && order.contains(#[trigger] ops[l]) && order.contains(ops[j]) implies !race(
        m,
        ops[l],
        ops[j],
    ) by {
        conflicts_are_races(m, ops[l], ops[j]);
    }
    if reads_in_order(m, block) && sorted(keys(m.op(ops[i]).attributes)) && sorted(
        keys(m.op(ops[j]).attributes),
    ) {
        a_key_stands_for_a_computation(out.op(ops[i]), out.op(ops[j]));
    }
    assert(is_reuse(m, out, block, i, j, x, report.rewritten[k]));
}

proof fn only_reads(m: ModuleView, op: OperationId)
    requires
        m.well_formed(),
        may_be_reused(m, op),
    ensures
        m.program_order(m.body).contains(op) ==> m.op(op).effect is Pure || m.op(op).effect
            is ReadExternal,
{
    if m.program_order(m.body).contains(op) {
        crate::judgement::recorded_effects(m, op);
        let effects = recorded(effect_table(m), op);
        assert(m.subtree(op)[0] == op);
        assert(effects.contains(m.op(op).effect));
        let k = choose|k: int| 0 <= k < effects.len() && effects[k] == m.op(op).effect;
        let e = effects[k];
        assert(e is Pure || e is ReadExternal);
    }
}

proof fn live_keeps_order(m: ModuleView, ops: Seq<OperationId>, i: int, j: int)
    requires
        0 <= i < j < m.live(ops).len(),
    ensures
        exists|a: int, b: int|
            0 <= a < b < ops.len() && #[trigger] ops[a] == m.live(ops)[i] && #[trigger] ops[b]
                == m.live(ops)[j],
    decreases ops.len(),
{
    reveal(Seq::filter);
    if ops.len() > 0 {
        let rest = ops.drop_last();
        let all = m.live(ops);
        let before = m.live(rest);
        if !m.op(ops.last()).erased && j == all.len() - 1 {
            assert(all[i] == before[i]);
            lemma_filter_member(rest, |op: OperationId| !m.op(op).erased, i);
            let a = choose|a: int|
                0 <= a < rest.len() && rest[a] == rest.filter(
                    |op: OperationId| !m.op(op).erased,
                )[i] && !m.op(rest[a]).erased;
            assert(ops[a] == all[i] && ops[ops.len() - 1] == all[j]);
        } else {
            live_keeps_order(m, rest, i, j);
            let (a, b) = choose|a: int, b: int|
                0 <= a < b < rest.len() && #[trigger] rest[a] == before[i] && #[trigger] rest[b]
                    == before[j];
            assert(ops[a] == all[i] && ops[b] == all[j]);
        }
    }
}

/// In an accepted program no operation of a block reads a result of itself or of
/// one that comes later in the block.
pub proof fn accepted_programs_read_in_order(
    m: ModuleView,
    registry: Seq<crate::dialects::SignatureView>,
    threshold: crate::number::Number,
    block: BlockId,
)
    requires
        m.well_formed(),
        m.capabilities.well_formed(),
        !crate::diagnostic::rejects(
            crate::rules::all_findings(m, registry, effect_table(m), threshold),
        ),
        m.has_block(block),
        forall|i: int|
            0 <= i < standing(m, block).len() ==> m.program_order(m.body).contains(
                #[trigger] standing(m, block)[i],
            ),
    ensures
        reads_in_order(m, block),
{
    let ops = standing(m, block);
    let order = m.program_order(m.body);
    assert(only_operands(m, m));
    same_standing(m, m, block);
    crate::judgement::the_verdict_is_exact(m, registry, threshold);
    crate::nesting::a_program_visits_nothing_twice(m, m.body);
    assert forall|i: int, j: int, p: int, q: int|
        0 <= i <= j < ops.len() && 0 <= p < m.op(ops[i]).operands.len() && 0 <= q < m.op(
            ops[j],
        ).results.len() implies #[trigger] m.op(ops[i]).operands[p] != #[trigger] m.op(
        ops[j],
    ).results[q] by {
        let value = m.op(ops[i]).operands[p];
        if value == m.op(ops[j]).results[q] {
            assert(order.contains(ops[i]) && order.contains(ops[j]));
            let at = choose|at: int| 0 <= at < order.len() && order[at] == ops[i];
            assert(crate::judgement::keeps_the_rules(m, registry, threshold, order[at]));
            assert(crate::precedence::is_produced_before(m, m.op(ops[i]).operands[p], ops[i]));
            assert(m.op_in_bounds(m.ops[ops[j].spec_index() as int]));
            assert(m.ops[ops[j].spec_index() as int].id == ops[j]);
            assert(m.is_result(m.op(ops[j]).results[q], ops[j]));
            assert(crate::precedence::ran_before(m, ops[j], ops[i]));
            crate::precedence::what_ran_before_comes_before(m, ops[j], ops[i]);
            if i < j {
                live_keeps_order(m, m.block(block).ops, i, j);
                assert(crate::precedence::stands_before(m, ops[i], ops[j]));
                assert(crate::precedence::holds(m, ops[j], ops[j], 0));
                assert(crate::precedence::ran_before(m, ops[i], ops[j]));
                crate::precedence::what_ran_before_comes_before(m, ops[i], ops[j]);
            }
        }
    }
}

// ------------------------------------------------------------- completeness

/// Whether the results of an operation of a block were reused as far as they
/// could be: those of an earlier one stand for them where the types agree; or a
/// reuse was declined, because something after an earlier operation whose result
/// may be reused conflicts with it, or the earlier one gives another number of
/// results.
pub open spec fn is_settled(
    m: ModuleView,
    block: BlockId,
    j: int,
    pairs: Seq<(ValueId, ValueId)>,
) -> bool {
    let ops = standing(m, block);
    exists|e: int|
        0 <= e < j && may_be_reused(m, #[trigger] ops[e]) && {
            ||| exists|l: int|
                e < l < j && lists_conflict(
                    recorded(effect_table(m), #[trigger] ops[l]),
                    recorded(effect_table(m), ops[j]),
                )
            ||| m.op(ops[e]).results.len() != m.op(ops[j]).results.len()
            ||| forall|x: int|
                0 <= x < m.op(ops[j]).results.len() && m.value(
                    m.op(ops[j]).results[x],
                ).ty == m.value(m.op(ops[e]).results[x]).ty ==> pairs.contains(
                    (#[trigger] m.op(ops[j]).results[x], m.op(ops[e]).results[x]),
                )
        }
}

/// Whether a list of rewrites begins with another one.
spec fn goes_on_from(more: Seq<(ValueId, ValueId)>, pairs: Seq<(ValueId, ValueId)>) -> bool {
    pairs.len() <= more.len() && forall|k: int|
        0 <= k < pairs.len() ==> #[trigger] more[k] == pairs[k]
}

proof fn settled_stays(
    m: ModuleView,
    block: BlockId,
    j: int,
    pairs: Seq<(ValueId, ValueId)>,
    more: Seq<(ValueId, ValueId)>,
)
    requires
        is_settled(m, block, j, pairs),
        goes_on_from(more, pairs),
    ensures
        is_settled(m, block, j, more),
{
    let ops = standing(m, block);
    let e = choose|e: int|
        0 <= e < j && may_be_reused(m, #[trigger] ops[e]) && {
            ||| exists|l: int|
                e < l < j && lists_conflict(
                    recorded(effect_table(m), #[trigger] ops[l]),
                    recorded(effect_table(m), ops[j]),
                )
            ||| m.op(ops[e]).results.len() != m.op(ops[j]).results.len()
            ||| forall|x: int|
                0 <= x < m.op(ops[j]).results.len() && m.value(
                    m.op(ops[j]).results[x],
                ).ty == m.value(m.op(ops[e]).results[x]).ty ==> pairs.contains(
                    (#[trigger] m.op(ops[j]).results[x], m.op(ops[e]).results[x]),
                )
        };
    assert forall|pair: (ValueId, ValueId)| pairs.contains(pair) implies #[trigger] more.contains(
        pair,
    ) by {
        let k = choose|k: int| 0 <= k < pairs.len() && pairs[k] == pair;
        assert(more[k] == pair);
    }
    assert(may_be_reused(m, ops[e]));
}

proof fn reuse_reports(
    m: ModuleView,
    now: ModuleView,
    report: PassReportView,
    from: Seq<ValueId>,
    to: Seq<ValueId>,
    n: int,
)
    requires
        only_operands(m, now),
        0 <= n <= from.len(),
        from.len() == to.len(),
    ensures
        goes_on_from(reuse(now, report, from, to, n).1.rewritten, report.rewritten),
        forall|x: int|
            0 <= x < n && m.value(from[x]).ty == m.value(to[x]).ty ==> reuse(
                now,
                report,
                from,
                to,
                n,
            ).1.rewritten.contains((#[trigger] from[x], to[x])),
    decreases n,
{
    if n > 0 {
        reuse_reports(m, now, report, from, to, n - 1);
        lemma_reuse_only_operands(now, report, from, to, n - 1);
        let (mid, made) = reuse(now, report, from, to, n - 1);
        let last = reuse(now, report, from, to, n).1.rewritten;
        assert(mid.value(from[n - 1]) == m.value(from[n - 1]));
        assert(mid.value(to[n - 1]) == m.value(to[n - 1]));
        assert forall|x: int|
            0 <= x < n && m.value(from[x]).ty == m.value(to[x]).ty implies last.contains(
            (#[trigger] from[x], to[x]),
        ) by {
            if x < n - 1 {
                let k = choose|k: int|
                    0 <= k < made.rewritten.len() && made.rewritten[k] == (from[x], to[x]);
                assert(last[k] == (from[x], to[x]));
            } else {
                assert(last[last.len() - 1] == (from[x], to[x]));
            }
        }
    }
}

/// Whether every operation before position `n` that may be reused is found by
/// its key.
spec fn all_found(m: ModuleView, now: ModuleView, seen: Seen, block: BlockId, n: int) -> bool {
    forall|i: int|
        0 <= i < n && may_be_reused(m, #[trigger] standing(m, block)[i]) ==> cached(
            seen,
            now.op(standing(m, block)[i]).cache_key(),
        ) is Some
}

/// Whether every operation before position `n` that repeats an earlier one was
/// settled.
spec fn all_settled(m: ModuleView, block: BlockId, n: int, pairs: Seq<(ValueId, ValueId)>) -> bool {
    forall|i: int, j: int|
        0 <= i < j < n && may_be_reused(m, #[trigger] standing(m, block)[i]) && may_be_reused(
            m,
            #[trigger] standing(m, block)[j],
        ) && m.op(standing(m, block)[i]).cache_key() == m.op(standing(m, block)[j]).cache_key()
            ==> is_settled(m, block, j, pairs)
}

proof fn pushed_is_found(seen: Seen, key: CacheKeyView, op: OperationId, other: CacheKeyView)
    ensures
        cached(seen.push((key, op)), key) is Some,
        cached(seen, other) is Some ==> cached(seen.push((key, op)), other) is Some,
{
    assert(seen.push((key, op)).drop_last() =~= seen);
}

/// Equal computations are still equal once both were rewritten.
proof fn rewritten_alike(
    m: ModuleView,
    now: ModuleView,
    pairs: Seq<(ValueId, ValueId)>,
    a: OperationId,
    b: OperationId,
)
    requires
        is_rewritten(m, now, pairs),
        m.has_op(a),
        m.has_op(b),
        !m.op(a).erased,
        !m.op(b).erased,
        m.op(a).cache_key() == m.op(b).cache_key(),
    ensures
        now.op(a).cache_key() == now.op(b).cache_key(),
{
    same_but_operands(m, now, a);
    same_but_operands(m, now, b);
    let x = now.op(a).operands;
    let y = now.op(b).operands;
    let i = a.spec_index() as int;
    let j = b.spec_index() as int;
    assert(now.ops[i].operands.len() == m.ops[i].operands.len());
    assert(now.ops[j].operands.len() == m.ops[j].operands.len());
    assert(m.op(a).operands == m.op(b).operands);
    assert forall|p: int| 0 <= p < x.len() implies x[p] == y[p] by {
        assert(now.ops[i].operands[p] == followed(pairs, m.ops[i].operands[p], pairs.len() as int));
        assert(now.ops[j].operands[p] == followed(pairs, m.ops[j].operands[p], pairs.len() as int));
    }
    assert(x =~= y);
}

proof fn a_block_is_settled(m: ModuleView, s: Dedup, block: BlockId, n: int)
    requires
        m.in_bounds(),
        m.has_block(block),
        reads_in_order(m, block),
        stands(m, s.m, s.report.rewritten),
        s.seen.len() == 0,
        0 <= n <= standing(m, block).len(),
    ensures
        ({
            let t = dedup_ops(s, effect_table(m), standing(m, block), n);
            &&& all_found(m, t.m, t.seen, block, n)
            &&& all_settled(m, block, n, t.report.rewritten)
            &&& goes_on_from(t.report.rewritten, s.report.rewritten)
        }),
    decreases n,
{
    if n > 0 {
        let table = effect_table(m);
        let ops = standing(m, block);
        a_block_is_settled(m, s, block, n - 1);
        a_block_stands(m, s, block, n - 1);
        a_block_stands(m, s, block, n);
        let t = dedup_ops(s, table, ops, n - 1);
        let u = dedup_op(t, table, ops, n - 1);
        assert(u == dedup_ops(s, table, ops, n));
        let j = n - 1;
        let op = ops[j];
        let o = t.m.op(op);
        let key = o.cache_key();
        same_standing(m, t.m, block);
        assert(m.has_op(ops[j]));
        same_but_operands(m, t.m, op);
        reusable_alike(m, t.m, op);
        // What the new operation does to what was found before.
        if is_cacheable(t.m, table, op) {
            found_was_met(t.seen, key);
            match cached(t.seen, key) {
                None => {
                    assert forall|i: int|
                        0 <= i < n && may_be_reused(m, #[trigger] ops[i]) implies cached(
                        u.seen,
                        u.m.op(ops[i]).cache_key(),
                    ) is Some by {
                        pushed_is_found(t.seen, key, op, t.m.op(ops[i]).cache_key());
                    }
                },
                Some(earlier) => {
                    let k = choose|k: int|
                        0 <= k < t.seen.len() && (#[trigger] t.seen[k]).1 == earlier && t.seen[k].0
                            == key;
                    let e = choose|e: int|
                        0 <= e < n - 1 && #[trigger] standing(m, block)[e] == t.seen[k].1
                            && may_be_reused(m, standing(m, block)[e]) && (reads_in_order(m, block)
                            ==> t.seen[k].0 == t.m.op(standing(m, block)[e]).cache_key());
                    same_but_operands(m, t.m, ops[e]);
                    assert(position_from(ops, earlier, 0) == Some(e)) by {
                        assert forall|l: int| 0 <= l < e implies ops[l] != earlier by {
                            assert(ops[l] != ops[e]);
                        }
                        lemma_position(ops, earlier, e, 0);
                    }
                    let between = interferer(t.m, table, ops, e + 1, j, op);
                    let results = o.results;
                    let to = t.m.op(earlier).results;
                    if between is Some {
                        assert forall|i: int|
                            0 <= i < n && may_be_reused(m, #[trigger] ops[i]) implies cached(
                            u.seen,
                            u.m.op(ops[i]).cache_key(),
                        ) is Some by {
                            pushed_is_found(t.seen, key, op, t.m.op(ops[i]).cache_key());
                        }
                        interferer_conflicts(t.m, table, ops, e + 1, j, op);
                        let l = choose|l: int|
                            e + 1 <= l < j && lists_conflict(
                                recorded(table, #[trigger] ops[l]),
                                recorded(table, op),
                            );
                        assert(may_be_reused(m, ops[e]));
                        assert(lists_conflict(recorded(table, ops[l]), recorded(table, ops[j])));
                        assert(is_settled(m, block, j, u.report.rewritten));
                    } else if to.len() != results.len() {
                        assert(may_be_reused(m, ops[e]));
                        assert(is_settled(m, block, j, u.report.rewritten));
                        assert forall|i: int|
                            0 <= i < n && may_be_reused(m, #[trigger] ops[i]) implies cached(
                            u.seen,
                            u.m.op(ops[i]).cache_key(),
                        ) is Some by {}
                    } else {
                        assert forall|l: int| e < l < j implies !lists_conflict(
                            recorded(table, #[trigger] standing(m, block)[l]),
                            recorded(table, standing(m, block)[j]),
                        ) by {
                            reuse_is_not_stale(t.m, table, ops, e + 1, j, op, l);
                            same_but_operands(m, t.m, ops[l]);
                        }
                        results_are_reused(m, t.m, t.report, block, e, j, results.len() as int);
                        reuse_reports(m, t.m, t.report, results, to, results.len() as int);
                        assert(may_be_reused(m, ops[e]));
                        assert(is_settled(m, block, j, u.report.rewritten));
                        assert forall|i: int|
                            0 <= i < n && may_be_reused(m, #[trigger] ops[i]) implies cached(
                            u.seen,
                            u.m.op(ops[i]).cache_key(),
                        ) is Some by {
                            assert(u.m.op(ops[i]).cache_key() == t.m.op(ops[i]).cache_key());
                        }
                    }
                },
            }
        }
        assert(goes_on_from(u.report.rewritten, t.report.rewritten));
        assert forall|a: int, b: int|
            0 <= a < b < n && may_be_reused(m, #[trigger] standing(m, block)[a]) && may_be_reused(
                m,
                #[trigger] standing(m, block)[b],
            ) && m.op(standing(m, block)[a]).cache_key() == m.op(
                standing(m, block)[b],
            ).cache_key() implies is_settled(m, block, b, u.report.rewritten) by {
            if b < j {
                assert(is_settled(m, block, b, t.report.rewritten));
                settled_stays(m, block, b, t.report.rewritten, u.report.rewritten);
            } else {
                rewritten_alike(m, t.m, t.report.rewritten, ops[a], ops[b]);
                assert(cached(t.seen, t.m.op(ops[a]).cache_key()) is Some);
            }
        }
    }
}

proof fn interferer_conflicts(
    m: ModuleView,
    table: Seq<Seq<EffectView>>,
    ops: Seq<OperationId>,
    from: int,
    to: int,
    op: OperationId,
)
    requires
        interferer(m, table, ops, from, to, op) is Some,
    ensures
        exists|l: int|
            from <= l < to && lists_conflict(
                recorded(table, #[trigger] ops[l]),
                recorded(table, op),
            ),
    decreases to - from,
{
    if from < to {
        if !m.op(ops[from]).erased && lists_conflict(
            recorded(table, ops[from]),
            recorded(table, op),
        ) {
            assert(lists_conflict(recorded(table, ops[from]), recorded(table, op)));
        } else {
            interferer_conflicts(m, table, ops, from + 1, to, op);
            let l = choose|l: int|
                from + 1 <= l < to && lists_conflict(
                    recorded(table, #[trigger] ops[l]),
                    recorded(table, op),
                );
            assert(lists_conflict(recorded(table, ops[l]), recorded(table, op)));
        }
    }
}

proof fn reports_go_on(s: Dedup, table: Seq<Seq<EffectView>>, ops: Seq<OperationId>, n: int)
    ensures
        goes_on_from(dedup_ops(s, table, ops, n).report.rewritten, s.report.rewritten),
    decreases n,
{
    if n > 0 {
        reports_go_on(s, table, ops, n - 1);
        let t = dedup_ops(s, table, ops, n - 1);
        let o = t.m.op(ops[n - 1]);
        if let Some(earlier) = cached(t.seen, o.cache_key()) {
            if t.m.op(earlier).results.len() == o.results.len() {
                assert(only_operands(t.m, t.m));
                reuse_reports(
                    t.m,
                    t.m,
                    t.report,
                    o.results,
                    t.m.op(earlier).results,
                    o.results.len() as int,
                );
            }
        }
    }
}

proof fn blocks_are_settled(
    m: ModuleView,
    report: PassReportView,
    blocks: Seq<BlockId>,
    n: int,
    k: int,
)
    requires
        m.in_bounds(),
        report.rewritten.len() == 0,
        0 <= k < n <= blocks.len(),
        forall|i: int| 0 <= i < blocks.len() ==> m.has_block(#[trigger] blocks[i]),
        reads_in_order(m, blocks[k]),
    ensures
        all_settled(
            m,
            blocks[k],
            standing(m, blocks[k]).len() as int,
            dedup_blocks(m, report, effect_table(m), blocks, n).1.rewritten,
        ),
    decreases n,
{
    let table = effect_table(m);
    the_pass_stands(m, report, blocks, n - 1);
    let (now, made) = dedup_blocks(m, report, table, blocks, n - 1);
    let last = blocks[n - 1];
    let block = blocks[k];
    assert(m.has_block(blocks[n - 1]) && m.has_block(blocks[k]));
    same_standing(m, now, last);
    let s = Dedup { m: now, report: made, seen: Seq::empty() };
    let after = dedup_blocks(m, report, table, blocks, n).1.rewritten;
    if k == n - 1 {
        a_block_is_settled(m, s, block, standing(m, block).len() as int);
    } else {
        blocks_are_settled(m, report, blocks, n - 1, k);
        reports_go_on(s, table, standing(m, last), standing(m, last).len() as int);
        assert forall|i: int, j: int|
            0 <= i < j < standing(m, block).len() && may_be_reused(
                m,
                #[trigger] standing(m, block)[i],
            ) && may_be_reused(m, #[trigger] standing(m, block)[j]) && m.op(
                standing(m, block)[i],
            ).cache_key() == m.op(standing(m, block)[j]).cache_key() implies is_settled(
            m,
            block,
            j,
            after,
        ) by {
            assert(is_settled(m, block, j, made.rewritten));
            settled_stays(m, block, j, made.rewritten, after);
        }
    }
}

proof fn block_is_listed(m: ModuleView, n: int, r: int, b: int)
    requires
        0 <= r < n <= m.regions.len(),
        0 <= b < m.regions[r].blocks.len(),
    ensures
        blocks_of(m, n).contains(m.regions[r].blocks[b]),
    decreases n,
{
    let before = blocks_of(m, n - 1);
    let all = blocks_of(m, n);
    if r < n - 1 {
        block_is_listed(m, n - 1, r, b);
        let k = choose|k: int| 0 <= k < before.len() && before[k] == m.regions[r].blocks[b];
        assert(all[k] == m.regions[r].blocks[b]);
    } else {
        assert(all[before.len() + b] == m.regions[r].blocks[b]);
    }
}

/// Repeated computations are reused: where a live operation of a block repeats
/// an earlier one and both may be reused, its results are rewritten into those of
/// an earlier operation wherever the types agree, unless something in between
/// conflicts with it or the number of results differs.
pub proof fn repeated_computations_are_reused(
    m: ModuleView,
    r: int,
    b: int,
    i: int,
    j: int,
)
    requires
        m.well_formed(),
        0 <= r < m.regions.len(),
        0 <= b < m.regions[r].blocks.len(),
        reads_in_order(m, m.regions[r].blocks[b]),
        0 <= i < j < standing(m, m.regions[r].blocks[b]).len(),
        may_be_reused(m, standing(m, m.regions[r].blocks[b])[i]),
        may_be_reused(m, standing(m, m.regions[r].blocks[b])[j]),
        sorted(keys(m.op(standing(m, m.regions[r].blocks[b])[i]).attributes)),
        sorted(keys(m.op(standing(m, m.regions[r].blocks[b])[j]).attributes)),
        same_computation(
            m.op(standing(m, m.regions[r].blocks[b])[i]),
            m.op(standing(m, m.regions[r].blocks[b])[j]),
        ),
    ensures
        is_settled(
            m,
            m.regions[r].blocks[b],
            j,
            ToolCallDeduplication.outcome(m).1.rewritten,
        ),
{
    let block = m.regions[r].blocks[b];
    let blocks = blocks_of(m, m.regions.len() as int);
    let ops = standing(m, block);
    blocks_exist(m, m.regions.len() as int);
    block_is_listed(m, m.regions.len() as int, r, b);
    let k = choose|k: int| 0 <= k < blocks.len() && blocks[k] == block;
    a_key_stands_for_a_computation(m.op(ops[i]), m.op(ops[j]));
    blocks_are_settled(
        m,
        PassReportView::empty("tool-call-deduplication"@),
        blocks,
        blocks.len() as int,
        k,
    );
}

// ------------------------------------------------------------------- counts

proof fn replacing_counts(operands: Seq<ValueId>, a: ValueId, b: ValueId, v: ValueId, n: int)
    requires
        a != b,
        0 <= n <= operands.len(),
    ensures
        occurrences(replaced(operands, a, b), v, n) == if v == a {
            0
        } else if v == b {
            occurrences(operands, a, n) + occurrences(operands, b, n)
        } else {
            occurrences(operands, v, n)
        },
    decreases n,
{
    if n > 0 {
        replacing_counts(operands, a, b, v, n - 1);
    }
}

/// Replacing a value by another moves every use of it: none is left, the other
/// gains as many, and no other value gains or loses one.
pub proof fn replacing_moves_every_use(m: ModuleView, a: ValueId, b: ValueId, v: ValueId, n: int)
    requires
        a != b,
        0 <= n <= m.ops.len(),
    ensures
        m.replace_all_uses(a, b).use_count(v, n) == if v == a {
            0
        } else if v == b {
            m.use_count(a, n) + m.use_count(b, n)
        } else {
            m.use_count(v, n)
        },
    decreases n,
{
    if n > 0 {
        replacing_moves_every_use(m, a, b, v, n - 1);
        let operands = m.ops[n - 1].operands;
        replacing_counts(operands, a, b, v, operands.len() as int);
    }
}

proof fn counted_is_read(operands: Seq<ValueId>, v: ValueId, n: int)
    requires
        0 <= n <= operands.len(),
    ensures
        occurrences(operands, v, n) > 0 <==> exists|p: int|
            0 <= p < n && #[trigger] operands[p] == v,
    decreases n,
{
    if n > 0 {
        counted_is_read(operands, v, n - 1);
        if exists|p: int| 0 <= p < n && #[trigger] operands[p] == v {
            let p = choose|p: int| 0 <= p < n && #[trigger] operands[p] == v;
            if p < n - 1 {
                assert(operands[p] == v);
            }
        }
    }
}

/// A value has a use exactly when a live operation reads it.
pub proof fn uses_are_counted(m: ModuleView, v: ValueId, n: int)
    requires
        0 <= n <= m.ops.len(),
    ensures
        m.use_count(v, n) > 0 <==> exists|i: int|
            0 <= i < n && !m.ops[i].erased && (#[trigger] m.ops[i]).operands.contains(v),
    decreases n,
{
    if n > 0 {
        uses_are_counted(m, v, n - 1);
        let operands = m.ops[n - 1].operands;
        counted_is_read(operands, v, operands.len() as int);
        if operands.contains(v) {
            let p = choose|p: int| 0 <= p < operands.len() && operands[p] == v;
            assert(operands[p] == v);
        }
        if exists|i: int|
            0 <= i < n && !m.ops[i].erased && (#[trigger] m.ops[i]).operands.contains(v) {
            let i = choose|i: int|
                0 <= i < n && !m.ops[i].erased && (#[trigger] m.ops[i]).operands.contains(v);
            if i < n - 1 {
                assert(m.ops[i].operands.contains(v));
            }
        }
    }
}

} // verus!
