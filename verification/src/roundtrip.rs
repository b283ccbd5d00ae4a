//! Printing and reading are inverse.
//!
//! What a printed program is read as prints like the program: a program that
//! was printed once is in canonical form.

use vstd::prelude::*;

use crate::assoc::{insert_at_end, keys, sorted};
use crate::attribute::AttributeView;
use crate::capability::CapabilityView;
use crate::effect::EffectClass;
use crate::emit::{
    attributes_ok, block_ok, capability_ok, class_words, emit_blocks, emit_body, emit_capabilities,
    emit_capability, emit_grants, emit_module, emit_op, emit_ops, op_ok, pieces_ok, printed_tokens,
    region_ok, result_names, scope_tok,
};
use crate::grammar::{
    asks_approval, capabilities, capability, capability_scope, declares_capability, grants, module,
    module_body, operation, operations, parsed, peek, top_level, version, Parsing,
};
use crate::ids::{BlockId, OperationId, RegionId};
use crate::lexer::{tokens_from, ErrorView, TokView, TokenView};
use crate::module::{ModuleView, ValueView};
use crate::rebuild::{
    arg_is, arg_names, block_is, blocks_defs, blocks_regions, blocks_scoped, fills, marks_of,
    names_carried, op_defs, op_distinct, op_is, op_regions, op_starts, operand_is, ops_defs,
    ops_rebuild, ops_regions, region_distinct, region_is, regions_count, regions_defs, result_is,
    scope_of, values_named, Marks,
};
use crate::reparse::{holds, holds_in_parts};
use crate::text::text_lt;
use crate::tree::{
    block_tree, free_name, is_branched, module_text, op_tree, region_tree, value_names,
    without_effect, BlockTree, ModuleTree, OpTree, RegionTree,
};

verus! {

// ------------------------------------------------------------- capabilities

proof fn grants_parse(toks: Seq<TokenView>, pos: int, gs: Seq<EffectClass>, i: int)
    requires
        0 <= i < gs.len(),
        holds(toks, pos, seq![TokView::Ident(gs[i].text())] + emit_grants(gs, i + 1)),
        peek(toks, (pos + 1 + emit_grants(gs, i + 1).len()) as int) == TokView::Punct(')'),
    ensures
        grants(toks, pos, gs.take(i)) == Ok::<(Seq<EffectClass>, int), ErrorView>(
            (gs, pos + 1 + emit_grants(gs, i + 1).len()),
        ),
    decreases gs.len() - i,
{
    let v = seq![TokView::Ident(gs[i].text())];
    let rest = emit_grants(gs, i + 1);
    holds_in_parts(toks, pos, v, rest);
    assert(toks[pos + 0].tok == v[0]);
    class_words(gs[i]);
    if i + 1 < gs.len() {
        let comma = seq![TokView::Punct(',')];
        let more = seq![TokView::Ident(gs[i + 1].text())] + emit_grants(gs, i + 2);
        assert(rest =~= comma + more);
        holds_in_parts(toks, pos + 1, comma, more);
        assert(toks[pos + 1 + 0].tok == comma[0]);
        grants_parse(toks, pos + 2, gs, i + 1);
        assert(gs.take(i).push(gs[i]) =~= gs.take(i + 1));
    } else {
        assert(gs.take(i).push(gs[i]) =~= gs);
    }
}

proof fn capability_parses(toks: Seq<TokenView>, pos: int, c: CapabilityView)
    requires
        capability_ok(c),
        holds(toks, pos, emit_capability(c)),
        !c.requires_approval ==> !asks_approval(
            toks,
            (pos + emit_capability(c).len()) as int,
        ),
        peek(toks, (pos + emit_capability(c).len()) as int) != TokView::Punct('.'),
    ensures
        capability(toks, pos) == Ok::<(CapabilityView, int), ErrorView>(
            (c, pos + emit_capability(c).len()),
        ),
        emit_capability(c).len() >= 8,
        declares_capability(toks, pos),
{
    let lead = seq![
        TokView::Ident("capability"@),
        TokView::Symbol(c.name),
        TokView::Ident("scope"@),
        TokView::Punct('('),
        scope_tok(c.scope),
        TokView::Punct(')'),
        TokView::Ident("grants"@),
        TokView::Punct('('),
    ];
    let g = emit_grants(c.grants, 0);
    let close = seq![TokView::Punct(')')];
    let a = if c.requires_approval {
        seq![TokView::Ident("requires_approval"@)]
    } else {
        Seq::<TokView>::empty()
    };
    holds_in_parts(toks, pos, lead + g + close, a);
    holds_in_parts(toks, pos, lead + g, close);
    holds_in_parts(toks, pos, lead, g);
    assert(toks[pos + 0].tok == lead[0]);
    assert(toks[pos + 1].tok == lead[1]);
    assert(toks[pos + 2].tok == lead[2]);
    assert(toks[pos + 3].tok == lead[3]);
    assert(toks[pos + 4].tok == lead[4]);
    assert(toks[pos + 5].tok == lead[5]);
    assert(toks[pos + 6].tok == lead[6]);
    assert(toks[pos + 7].tok == lead[7]);
    let end = pos + 8 + g.len();
    assert(toks[end + 0].tok == close[0]);
    if c.requires_approval {
        assert(toks[end + 1 + 0].tok == a[0]);
    }
    assert(g =~= seq![TokView::Ident(c.grants[0].text())] + emit_grants(c.grants, 1));
    grants_parse(toks, pos + 8, c.grants, 0);
    assert(c.grants.take(0) =~= Seq::empty());
    assert(capability_scope(toks, pos + 4) == Ok::<(Option<Seq<char>>, int), ErrorView>(
        (c.scope, pos + 5),
    ));
}

/// The capabilities by name.
pub open spec fn by_name(cs: Seq<CapabilityView>) -> Seq<(Seq<char>, CapabilityView)> {
    Seq::new(cs.len(), |i: int| (cs[i].name, cs[i]))
}

/// The capability declarations from position `i` on are read back.
proof fn capabilities_parse(
    toks: Seq<TokenView>,
    s: Parsing,
    cs: Seq<CapabilityView>,
    i: int,
)
    requires
        0 <= i <= cs.len(),
        holds(toks, s.pos, emit_capabilities(cs, i)),
        forall|k: int| 0 <= k < cs.len() ==> capability_ok(#[trigger] cs[k]),
        sorted(keys(by_name(cs))),
        s.module.capabilities.capabilities == by_name(cs).take(i),
        !declares_capability(toks, (s.pos + emit_capabilities(cs, i).len()) as int),
        !asks_approval(toks, (s.pos + emit_capabilities(cs, i).len()) as int),
        peek(toks, (s.pos + emit_capabilities(cs, i).len()) as int) != TokView::Punct('.'),
    ensures
        ({
            let r = capabilities(toks, s);
            let u = r->Ok_0;
            &&& r is Ok
            &&& u.pos == s.pos + emit_capabilities(cs, i).len()
            &&& u.bindings == s.bindings
            &&& u.module == (ModuleView { capabilities: u.module.capabilities, ..s.module })
            &&& u.module.capabilities.capabilities == by_name(cs)
        }),
    decreases cs.len() - i,
{
    if i == cs.len() {
        assert(by_name(cs).take(i) =~= by_name(cs));
    } else {
        let c = cs[i];
        let x = emit_capability(c);
        let rest = emit_capabilities(cs, i + 1);
        holds_in_parts(toks, s.pos, x, rest);
        let next = s.pos + x.len();
        reveal_strlit("capability");
        reveal_strlit("requires_approval");
        assert("capability"@.len() == 10 && "requires_approval"@.len() == 17);
        if i + 1 < cs.len() {
            let y = emit_capability(cs[i + 1]);
            assert(y[0] == TokView::Ident("capability"@));
            assert(rest[0] == y[0]);
            assert(toks[next + 0].tok == rest[0]);
        }
        capability_parses(toks, s.pos, c);
        let before = by_name(cs).take(i);
        assert forall|k: int| 0 <= k < before.len() implies text_lt(
            (#[trigger] before[k]).0,
            c.name,
        ) by {
            assert(text_lt(keys(by_name(cs))[k], keys(by_name(cs))[i]));
        }
        insert_at_end(before, c.name, c);
        assert(before.push((c.name, c)) =~= by_name(cs).take(i + 1));
        let s2 = Parsing {
            pos: next,
            module: ModuleView { capabilities: s.module.capabilities.grant(c), ..s.module },
            ..s
        };
        capabilities_parse(toks, s2, cs, i + 1);
    }
}

/// At the top level operations are read as in a block.
proof fn top_level_is_block(toks: Seq<TokenView>, s: Parsing, block: BlockId)
    requires
        operations(toks, s, block, false) is Ok,
        s.pos <= toks.len(),
    ensures
        top_level(toks, s, block) == operations(toks, s, block, false),
    decreases toks.len() - s.pos,
{
    if peek(toks, s.pos) != TokView::Punct('}') && peek(toks, s.pos) != TokView::Eof {
        match operation(toks, s, block) {
            Err(e) => {},
            Ok(t) => {
                if s.pos < t.pos <= toks.len() {
                    top_level_is_block(toks, t, block);
                }
            },
        }
    }
}

// -------------------------------------------------------------------- names

/// Values that carry names, all of them different, keep them.
proof fn carried_names_are_kept(values: Seq<ValueView>, defs: Seq<Seq<char>>, n: int)
    requires
        0 <= n <= defs.len(),
        values.len() == defs.len(),
        defs.no_duplicates(),
        forall|i: int| 0 <= i < defs.len() ==> (#[trigger] defs[i]).len() > 0,
        forall|i: int| 0 <= i < defs.len() ==> values[i].name == Some(#[trigger] defs[i]),
    ensures
        value_names(values, n) == defs.take(n),
    decreases n,
{
    if n > 0 {
        carried_names_are_kept(values, defs, n - 1);
        let taken = defs.take(n - 1);
        let name = defs[n - 1];
        assert(values[n - 1].name == Some(defs[n - 1]));
        assert(!taken.contains(name)) by {
            if taken.contains(name) {
                let i = choose|i: int| 0 <= i < taken.len() && taken[i] == name;
                assert(defs[i] == defs[n - 1]);
            }
        }
        assert(free_name(taken, name, name, 0) == name);
        assert(taken.push(name) =~= defs.take(n));
    } else {
        assert(defs.take(0) =~= Seq::empty());
    }
}

// -------------------------------------------------------------------- trees

/// Attributes of which none declares the effect are all printed.
proof fn nothing_left_out(attributes: Seq<(Seq<char>, AttributeView)>)
    requires
        attributes_ok(attributes),
    ensures
        without_effect(attributes) == attributes,
{
    assert forall|i: int| 0 <= i < attributes.len() implies (#[trigger] attributes[i]).0
        != "effect"@ by {}
    all_kept(attributes, |e: (Seq<char>, AttributeView)| e.0 != "effect"@);
}

/// Filtering keeps a list whose elements are all wanted.
pub proof fn all_kept<A>(s: Seq<A>, keep: spec_fn(A) -> bool)
    requires
        forall|i: int| 0 <= i < s.len() ==> keep(#[trigger] s[i]),
    ensures
        s.filter(keep) == s,
    decreases s.len(),
{
    reveal(Seq::filter);
    if s.len() > 0 {
        let front = s.drop_last();
        assert forall|i: int| 0 <= i < front.len() implies keep(#[trigger] front[i]) by {
            assert(keep(s[i]));
        }
        all_kept(front, keep);
        assert(keep(s[s.len() - 1]));
        assert(front.push(s.last()) =~= s);
    } else {
        assert(s.filter(keep) =~= s);
    }
}

/// Whether names are the ones that the values of a module carry.
pub open spec fn names_are_carried(m: ModuleView, names: Seq<Seq<char>>) -> bool {
    &&& names.len() == m.values.len()
    &&& forall|i: int| 0 <= i < names.len() ==> m.values[i].name == Some(#[trigger] names[i])
}

/// An operation that is as a tree has it has that tree.
proof fn op_has_its_tree(
    m: ModuleView,
    names: Seq<Seq<char>>,
    id: OperationId,
    t: OpTree,
    lo: Marks,
    fuel: nat,
)
    requires
        op_is(m, id, t, lo),
        op_ok(t),
        names_are_carried(m, names),
        op_regions(t) <= fuel,
        0 <= lo.values,
    ensures
        op_tree(m, names, id, fuel) == t,
    decreases t, 1int, 0int,
{
    let o = m.op(id);
    let u = op_tree(m, names, id, fuel);
    assert(u.operands =~= t.operands) by {
        assert forall|k: int| 0 <= k < t.operands.len() implies u.operands[k]
            == #[trigger] t.operands[k] by {
            assert(operand_is(m, o.operands[k], t.operands[k]));
            let i = o.operands[k].spec_index();
            assert(m.values[i].name == Some(names[i]));
        }
    }
    assert(u.results =~= t.results) by {
        assert forall|k: int| 0 <= k < t.results.len() implies u.results[k]
            == #[trigger] t.results[k] by {
            assert(result_is(m, o.results[k], t.results[k], lo));
            let i = o.results[k].spec_index();
            assert(m.values[i].name == Some(names[i]));
        }
    }
    nothing_left_out(t.attributes);
    if t.regions.len() > 0 {
        assert(regions_count(t.regions, 0) >= 1);
        regions_have_their_trees(m, names, o.regions, t.regions, 0, lo, (fuel - 1) as nat);
        assert(u.regions =~= t.regions);
    } else {
        assert(u.regions =~= t.regions);
    }
    assert(u =~= t);
}

proof fn regions_have_their_trees(
    m: ModuleView,
    names: Seq<Seq<char>>,
    ids: Seq<RegionId>,
    ts: Seq<RegionTree>,
    i: int,
    lo: Marks,
    fuel: nat,
)
    requires
        0 <= i,
        ids.len() == ts.len(),
        forall|k: int| 0 <= k < ts.len() ==> region_is(m, ids[k], #[trigger] ts[k], lo),
        forall|k: int| 0 <= k < ts.len() ==> region_ok(#[trigger] ts[k]),
        names_are_carried(m, names),
        i < ts.len() ==> regions_count(ts, i) <= fuel + 1,
        0 <= lo.values,
    ensures
        forall|k: int|
            i <= k < ts.len() ==> region_tree(m, names, ids[k], fuel) == #[trigger] ts[k],
    decreases ts, 0int, ts.len() - i,
{
    if i < ts.len() {
        assert(decreases_to!(ts => ts[i]));
        assert(region_is(m, ids[i], ts[i], lo));
        assert(region_ok(ts[i]));
        region_has_its_tree(m, names, ids[i], ts[i], lo, fuel);
        regions_have_their_trees(m, names, ids, ts, i + 1, lo, fuel);
    }
}

proof fn region_has_its_tree(
    m: ModuleView,
    names: Seq<Seq<char>>,
    id: RegionId,
    t: RegionTree,
    lo: Marks,
    fuel: nat,
)
    requires
        region_is(m, id, t, lo),
        forall|i: int| 0 <= i < t.blocks.len() ==> block_ok(#[trigger] t.blocks[i]),
        names_are_carried(m, names),
        blocks_regions(t.blocks, 0) <= fuel,
        0 <= lo.values,
    ensures
        region_tree(m, names, id, fuel) == t,
    decreases t, 0int, 0int,
{
    let u = region_tree(m, names, id, fuel);
    blocks_have_their_trees(m, names, m.region(id).blocks, t.blocks, 0, lo, fuel);
    assert(u.blocks =~= t.blocks);
    assert(u =~= t);
}

proof fn blocks_have_their_trees(
    m: ModuleView,
    names: Seq<Seq<char>>,
    ids: Seq<BlockId>,
    ts: Seq<BlockTree>,
    i: int,
    lo: Marks,
    fuel: nat,
)
    requires
        0 <= i,
        ids.len() == ts.len(),
        forall|k: int| 0 <= k < ts.len() ==> block_is(m, ids[k], #[trigger] ts[k], lo),
        forall|k: int| 0 <= k < ts.len() ==> block_ok(#[trigger] ts[k]),
        names_are_carried(m, names),
        blocks_regions(ts, i) <= fuel,
        0 <= lo.values,
    ensures
        forall|k: int|
            i <= k < ts.len() ==> block_tree(m, names, ids[k], fuel) == #[trigger] ts[k],
    decreases ts, 0int, ts.len() - i,
{
    if i < ts.len() {
        assert(decreases_to!(ts => ts[i]));
        assert(decreases_to!(ts[i] => ts[i].ops));
        let t = ts[i];
        let b = m.block(ids[i]);
        assert(block_is(m, ids[i], ts[i], lo));
        assert(block_ok(ts[i]));
        let u = block_tree(m, names, ids[i], fuel);
        assert(u.args =~= t.args) by {
            assert forall|k: int| 0 <= k < t.args.len() implies u.args[k]
                == #[trigger] t.args[k] by {
                assert(arg_is(m, b.args[k], t.args[k], lo));
                let v = b.args[k].spec_index();
                assert(m.values[v].name == Some(names[v]));
            }
        }
        assert(m.live(b.ops) == b.ops) by {
            assert forall|k: int| 0 <= k < b.ops.len() implies !m.op(#[trigger] b.ops[k]).erased by {
                assert(op_is(m, b.ops[k], t.ops[k], lo));
            }
            all_kept(b.ops, |op: OperationId| !m.op(op).erased);
        }
        ops_have_their_trees(m, names, b.ops, t.ops, 0, lo, fuel);
        assert(u.ops =~= t.ops);
        assert(u =~= t);
        blocks_have_their_trees(m, names, ids, ts, i + 1, lo, fuel);
    }
}

proof fn ops_have_their_trees(
    m: ModuleView,
    names: Seq<Seq<char>>,
    ids: Seq<OperationId>,
    ts: Seq<OpTree>,
    i: int,
    lo: Marks,
    fuel: nat,
)
    requires
        0 <= i,
        ids.len() == ts.len(),
        forall|k: int| 0 <= k < ts.len() ==> op_is(m, ids[k], #[trigger] ts[k], lo),
        forall|k: int| 0 <= k < ts.len() ==> op_ok(#[trigger] ts[k]),
        names_are_carried(m, names),
        ops_regions(ts, i) <= fuel,
        0 <= lo.values,
    ensures
        forall|k: int| i <= k < ts.len() ==> op_tree(m, names, ids[k], fuel) == #[trigger] ts[k],
    decreases ts, 0int, ts.len() - i,
{
    if i < ts.len() {
        assert(decreases_to!(ts => ts[i]));
        op_has_its_tree(m, names, ids[i], ts[i], lo, fuel);
        ops_have_their_trees(m, names, ids, ts, i + 1, lo, fuel);
    }
}

// ---------------------------------------------------------------- the whole

/// There are no more tokens than characters, but for the end of input.
pub proof fn tokens_are_bounded(chars: Seq<char>, pos: int)
    requires
        0 <= pos <= chars.len(),
    ensures
        tokens_from(chars, pos) matches Ok(toks) ==> toks.len() <= chars.len() - pos + 1,
    decreases chars.len() - pos,
{
    let start = crate::lexer::trivia_end(chars, pos);
    crate::lexer::trivia_end_bounds(chars, pos);
    if start < chars.len() {
        crate::lexer::token_end_bounds(chars, start);
        if let Ok((tok, end)) = crate::lexer::token_at(chars, start) {
            tokens_are_bounded(chars, end);
        }
    }
}

/// A list without duplicates has parts without duplicates.
proof fn parts_differ(a: Seq<Seq<char>>, b: Seq<Seq<char>>)
    requires
        (a + b).no_duplicates(),
    ensures
        a.no_duplicates(),
        b.no_duplicates(),
{
    assert forall|i: int, j: int| 0 <= i < a.len() && 0 <= j < a.len() && i != j implies a[i]
        != a[j] by {
        assert((a + b)[i] == a[i] && (a + b)[j] == a[j]);
    }
    assert forall|i: int, j: int| 0 <= i < b.len() && 0 <= j < b.len() && i != j implies b[i]
        != b[j] by {
        assert((a + b)[a.len() + i] == b[i] && (a + b)[a.len() + j] == b[j]);
    }
}

/// Where all names differ, those of the results of each operation do.
proof fn op_names_differ(t: OpTree)
    requires
        op_defs(t).no_duplicates(),
    ensures
        op_distinct(t),
    decreases t, 1int, 0int,
{
    let names = result_names(t.results);
    parts_differ(names, regions_defs(t.regions, 0));
    assert forall|i: int, j: int| 0 <= i < j < t.results.len() implies (
    #[trigger] t.results[i]).name != (#[trigger] t.results[j]).name by {
        assert(names[i] != names[j]);
    }
    regions_names_differ(t.regions, 0);
}

proof fn regions_names_differ(ts: Seq<RegionTree>, i: int)
    requires
        0 <= i,
        regions_defs(ts, i).no_duplicates(),
    ensures
        forall|k: int| i <= k < ts.len() ==> region_distinct(#[trigger] ts[k]),
    decreases ts, 0int, ts.len() - i,
{
    if i < ts.len() {
        assert(decreases_to!(ts => ts[i]));
        assert(decreases_to!(ts[i] => ts[i].blocks));
        parts_differ(blocks_defs(ts[i].blocks, 0), regions_defs(ts, i + 1));
        blocks_names_differ(ts[i].blocks, 0);
        regions_names_differ(ts, i + 1);
    }
}

proof fn blocks_names_differ(ts: Seq<BlockTree>, i: int)
    requires
        0 <= i,
        blocks_defs(ts, i).no_duplicates(),
    ensures
        forall|k: int, j: int|
            i <= k < ts.len() && 0 <= j < ts[k].ops.len() ==> op_distinct(
                #[trigger] ts[k].ops[j],
            ),
    decreases ts, 0int, ts.len() - i,
{
    if i < ts.len() {
        assert(decreases_to!(ts => ts[i]));
        assert(decreases_to!(ts[i] => ts[i].ops));
        let a = arg_names(ts[i].args);
        let b = ops_defs(ts[i].ops, 0);
        parts_differ(a + b, blocks_defs(ts, i + 1));
        parts_differ(a, b);
        ops_names_differ(ts[i].ops, 0);
        blocks_names_differ(ts, i + 1);
    }
}

proof fn ops_names_differ(ts: Seq<OpTree>, i: int)
    requires
        0 <= i,
        ops_defs(ts, i).no_duplicates(),
    ensures
        forall|k: int| i <= k < ts.len() ==> op_distinct(#[trigger] ts[k]),
    decreases ts, 0int, ts.len() - i,
{
    if i < ts.len() {
        assert(decreases_to!(ts => ts[i]));
        parts_differ(op_defs(ts[i]), ops_defs(ts, i + 1));
        op_names_differ(ts[i]);
        ops_names_differ(ts, i + 1);
    }
}

/// Whether the printed form of a tree can be read back: its pieces can, its
/// body is one block, its operations read only what is in scope, everything it
/// defines has a name of its own, and its capabilities are in name order.
pub open spec fn is_printable(t: ModuleTree) -> bool {
    &&& pieces_ok(t)
    &&& t.body.blocks.len() == 1
    &&& t.body.blocks[0].args.len() == 0
    &&& blocks_scoped(t.body.blocks, 0, Seq::empty())
    &&& blocks_defs(t.body.blocks, 0).no_duplicates()
    &&& forall|i: int|
        0 <= i < blocks_defs(t.body.blocks, 0).len() ==> (#[trigger] blocks_defs(
            t.body.blocks,
            0,
        )[i]).len() > 0
    &&& sorted(keys(by_name(t.capabilities)))
}

/// The tokens at the head of a module are read back.
proof fn module_starts(toks: Seq<TokenView>, t: ModuleTree)
    requires
        holds(toks, 0, emit_module(t)),
        t.version <= i64::MAX,
    ensures
        module(toks) == module_body(
            toks,
            Parsing {
                pos: 7,
                module: ModuleView { version: t.version, ..ModuleView::empty(t.name) },
                bindings: Seq::empty(),
            },
        ),
        holds(
            toks,
            7,
            emit_capabilities(t.capabilities, 0) + emit_body(t.body) + seq![
                TokView::Punct('}'),
            ],
        ),
{
    let lead = seq![
        TokView::Ident("module"@),
        TokView::Symbol(t.name),
        TokView::Ident("version"@),
        TokView::Punct('('),
        TokView::Int(t.version as i64),
        TokView::Punct(')'),
        TokView::Punct('{'),
    ];
    let rest = emit_capabilities(t.capabilities, 0) + emit_body(t.body) + seq![
        TokView::Punct('}'),
    ];
    assert(emit_module(t) =~= lead + rest);
    holds_in_parts(toks, 0, lead, rest);
    assert(toks[0int + 0].tok == lead[0]);
    assert(toks[0int + 1].tok == lead[1]);
    assert(toks[0int + 2].tok == lead[2]);
    assert(toks[0int + 3].tok == lead[3]);
    assert(toks[0int + 4].tok == lead[4]);
    assert(toks[0int + 5].tok == lead[5]);
    assert(toks[0int + 6].tok == lead[6]);
    assert(version(toks, 2) == Ok::<(u64, int), ErrorView>((t.version, 6)));
}

/// The tokens of a printable tree are parsed, and the module has that tree.
proof fn tokens_rebuild(toks: Seq<TokenView>, t: ModuleTree)
    requires
        is_printable(t),
        holds(toks, 0, emit_module(t)),
        toks.len() == emit_module(t).len() + 1,
        toks.last().tok == TokView::Eof,
        toks.len() < u32::MAX,
    ensures
        module(toks) is Ok,
        module(toks)->Ok_0.tree() == t,
{
    module_starts(toks, t);
    let caps = emit_capabilities(t.capabilities, 0);
    let body = emit_body(t.body);
    let close = seq![TokView::Punct('}')];
    holds_in_parts(toks, 7, caps + body, close);
    holds_in_parts(toks, 7, caps, body);
    let p5 = 7int + caps.len();
    let p6 = p5 + body.len();
    assert(toks[p6 + 0].tok == close[0]);
    let ops = t.body.blocks[0].ops;
    assert(!is_branched(t.body));
    assert(emit_blocks(t.body.blocks, 1, false) =~= Seq::empty());
    assert(body =~= emit_ops(ops, 0));
    if ops.len() > 0 {
        op_starts(ops[0]);
        assert(body[0] == emit_op(ops[0])[0]);
        assert(body[1] == emit_op(ops[0])[1]);
        assert(toks[p5 + 0].tok == body[0]);
        assert(toks[p5 + 1].tok == body[1]);
    }
    let s0 = Parsing {
        pos: 7,
        module: ModuleView { version: t.version, ..ModuleView::empty(t.name) },
        bindings: Seq::empty(),
    };
    assert(by_name(t.capabilities).take(0) =~= Seq::empty());
    capabilities_parse(toks, s0, t.capabilities, 0);
    let s1 = capabilities(toks, s0)->Ok_0;
    let m1 = s1.module;
    let block = BlockId(0);
    let lo = marks_of(m1);
    let none = Seq::<Seq<char>>::empty();
    assert(block_ok(t.body.blocks[0]));
    assert(arg_names(t.body.blocks[0].args) =~= none);
    assert(none + none =~= none);
    assert(scope_of(s1.bindings) =~= none);
    assert(none + arg_names(t.body.blocks[0].args) =~= none);
    let defs = blocks_defs(t.body.blocks, 0);
    assert(blocks_defs(t.body.blocks, 1) =~= none);
    assert(defs =~= ops_defs(ops, 0));
    ops_names_differ(ops, 0);
    assert(block.spec_index() == 0);
    assert(names_carried(m1, s1.bindings));
    ops_rebuild(toks, s1, block, ops, 0, false, lo);
    top_level_is_block(toks, s1, block);
    let u = operations(toks, s1, block, false)->Ok_0;
    let m = u.module;
    assert(module(toks) == Ok::<ModuleView, ErrorView>(m));
    whole_has_its_tree(m1, m, t);
}

/// A module whose body was filled as a tree has it has that tree.
proof fn whole_has_its_tree(m1: ModuleView, m: ModuleView, t: ModuleTree)
    requires
        is_printable(t),
        m1 == (ModuleView {
            version: t.version,
            capabilities: m1.capabilities,
            ..ModuleView::empty(t.name)
        }),
        m1.capabilities.capabilities == by_name(t.capabilities),
        fills(m1, m, BlockId(0)),
        m.block(BlockId(0)).ops.len() == t.body.blocks[0].ops.len(),
        forall|k: int|
            0 <= k < t.body.blocks[0].ops.len() ==> op_is(
                m,
                m.block(BlockId(0)).ops[m1.block(BlockId(0)).ops.len() + k - 0],
                #[trigger] t.body.blocks[0].ops[k],
                marks_of(m1),
            ),
        values_named(m, m1.values.len() as int, ops_defs(t.body.blocks[0].ops, 0)),
        m.regions.len() == m1.regions.len() + ops_regions(t.body.blocks[0].ops, 0),
    ensures
        m.tree() == t,
{
    reveal(fills);
    let block = BlockId(0);
    let ops = t.body.blocks[0].ops;
    let lo = marks_of(m1);
    let zero = Marks { ops: 0, values: 0, blocks: 0, regions: 0 };
    assert(m.regions[0] == m1.regions[0]);
    assert(m.body == RegionId(0));
    assert(m.region(m.body).blocks =~= seq![block]);
    assert(crate::rebuild::keeps(m, m, lo));
    assert forall|k: int| 0 <= k < ops.len() implies op_is(
        m,
        m.block(block).ops[k],
        #[trigger] ops[k],
        zero,
    ) by {
        assert(op_is(m, m.block(block).ops[m1.block(block).ops.len() + k - 0], t.body.blocks[0].ops[k], lo));
        crate::rebuild::op_is_kept(m, m, m.block(block).ops[k], ops[k], zero, lo);
    }
    assert(block_is(m, block, t.body.blocks[0], zero));
    assert(region_is(m, m.body, t.body, zero));
    let none = Seq::<Seq<char>>::empty();
    let defs = blocks_defs(t.body.blocks, 0);
    assert(arg_names(t.body.blocks[0].args) =~= none);
    assert(blocks_defs(t.body.blocks, 1) =~= none);
    assert(defs =~= ops_defs(ops, 0));
    assert forall|i: int| 0 <= i < defs.len() implies m.values[i].name == Some(
        #[trigger] defs[i],
    ) by {
        let all = ops_defs(ops, 0);
        assert(m.values[m1.values.len() + i].name == Some(all[i]));
    }
    carried_names_are_kept(m.values, defs, defs.len() as int);
    assert(defs.take(defs.len() as int) =~= defs);
    assert(m.names() == defs);
    assert(blocks_regions(t.body.blocks, 1) == 0);
    region_has_its_tree(m, defs, m.body, t.body, zero, m.regions.len());
    assert(m.tree().capabilities =~= t.capabilities);
    assert(m.tree() =~= t);
}

/// The parser accepts what is printed: the text of a program is read as that
/// program, down to every name, number and attribute. So printing, reading and
/// printing again gives the same text.
pub proof fn printing_is_stable(t: ModuleTree)
    requires
        is_printable(t),
        module_text(t).len() + 1 < u32::MAX,
    ensures
        parsed(module_text(t)) is Ok,
        parsed(module_text(t))->Ok_0.tree() == t,
        module_text(parsed(module_text(t))->Ok_0.tree()) == module_text(t),
{
    printed_tokens(t);
    let toks = tokens_from(module_text(t), 0)->Ok_0;
    tokens_are_bounded(module_text(t), 0);
    let out = emit_module(t);
    assert forall|i: int| 0 <= i < out.len() implies toks[0int + i].tok == #[trigger] out[i] by {
        assert(toks[i].tok == out.push(TokView::Eof)[i]);
    }
    tokens_rebuild(toks, t);
}

} // verus!
