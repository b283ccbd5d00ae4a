//! Canonical form.
//!
//! A program that was read and printed once is in canonical form: reading and
//! printing it again changes nothing.

use vstd::prelude::*;

use crate::assoc::{insert_keeps_sorted, keys, sorted};
use crate::attribute::AttributeView;
use crate::capability::CapabilityView;
use crate::emit::{
    attributes_ok, block_ok, capability_ok, op_ok, pieces_ok, region_ok, result_names, result_ok,
};
use crate::grammar::{
    declares_capability, capabilities, capability, module, module_body, operation, operations,
    parsed, peek, regions, top_level, version, Parsing,
};
use crate::ids::{BlockId, OperationId, RegionId, ValueId};
use crate::lexer::{is_ident_continue, tokens_from, TokView, TokenView};
use crate::module::{ModuleView, ValueView};
use crate::readable::{
    all_names, capability_reads, ids_of, matched, module_read, op_read, stored, tokens_are_ok,
    toks_ok, value_read,
};
use crate::reading::operations_frame;
use crate::rebuild::{
    arg_names, blocks_defs, blocks_scoped, brought, fills, keeps, marks_of, op_scoped, ops_scoped,
    region_scoped, Marks,
};
use crate::relex::{decimals, is_name};
use crate::roundtrip::{
    all_kept, by_name, is_printable, printing_is_stable, tokens_are_bounded,
};
use crate::shape::{
    between, block_trees, block_within, op_is_unchanged, op_trees, op_within, operations_shape,
    ops_shaped, region_within,
};
use crate::text::{nat_text, nat_text_injective};
use crate::tree::{
    block_tree, candidate, free_name, module_text, names_of, op_tree, preferred_name, region_tree,
    unnamed_count, value_names,
};

verus! {

// -------------------------------------------------------------------- names

/// Different candidates for a name are different.
proof fn candidates_differ(preferred: Seq<char>, first: Seq<char>, a: nat, b: nat)
    requires
        a < b,
        first.len() <= preferred.len() || (preferred.len() == 0 && forall|i: int|
            0 <= i < first.len() ==> first[i] != '_'),
    ensures
        candidate(preferred, first, a) != candidate(preferred, first, b),
{
    reveal_strlit("_");
    let x = candidate(preferred, first, a);
    let y = candidate(preferred, first, b);
    let n = preferred.len() as int;
    if x == y {
        assert(y[n] == '_');
        decimals(b);
        if a == 0 {
            assert(x[n] == '_');
        } else {
            assert(x.skip(n + 1) =~= nat_text(a));
            assert(y.skip(n + 1) =~= nat_text(b));
            nat_text_injective(a, b);
        }
    }
}

/// The name that is chosen is not taken.
proof fn chosen_name_is_free(
    taken: Seq<Seq<char>>,
    preferred: Seq<char>,
    first: Seq<char>,
    k: nat,
)
    requires
        k <= taken.len() + 1,
        first.len() <= preferred.len() || (preferred.len() == 0 && forall|i: int|
            0 <= i < first.len() ==> first[i] != '_'),
        forall|j: nat| j < k ==> taken.contains(#[trigger] candidate(preferred, first, j)),
    ensures
        !taken.contains(free_name(taken, preferred, first, k)),
        exists|j: nat| free_name(taken, preferred, first, k) == candidate(preferred, first, j),
    decreases taken.len() + 1 - k,
{
    if k > taken.len() {
        // More candidates than taken names cannot all be taken.
        let tried = Seq::new(k, |j: int| candidate(preferred, first, j as nat));
        assert(tried.no_duplicates()) by {
            assert forall|a: int, b: int|
                0 <= a < tried.len() && 0 <= b < tried.len() && a != b implies tried[a]
                != tried[b] by {
                if a < b {
                    candidates_differ(preferred, first, a as nat, b as nat);
                } else {
                    candidates_differ(preferred, first, b as nat, a as nat);
                }
            }
        }
        tried.unique_seq_to_set();
        taken.lemma_cardinality_of_set();
        assert(tried.to_set().subset_of(taken.to_set())) by {
            assert forall|x: Seq<char>| tried.to_set().contains(x) implies taken.to_set().contains(
                x,
            ) by {
                let j = choose|j: int| 0 <= j < tried.len() && tried[j] == x;
                assert(taken.contains(candidate(preferred, first, j as nat)));
            }
        }
        vstd::set_lib::lemma_len_subset(tried.to_set(), taken.to_set());
    } else if taken.contains(candidate(preferred, first, k)) {
        chosen_name_is_free(taken, preferred, first, k + 1);
    }
}

/// Every value is printed under a name of its own.
pub proof fn printed_names_are_distinct(values: Seq<ValueView>, n: int)
    requires
        0 <= n <= values.len(),
    ensures
        value_names(values, n).len() == n,
        value_names(values, n).no_duplicates(),
    decreases n,
{
    if n > 0 {
        printed_names_are_distinct(values, n - 1);
        let taken = value_names(values, n - 1);
        let preferred = preferred_name(values[n - 1]);
        let first = if preferred.len() == 0 {
            nat_text(unnamed_count(values, n - 1))
        } else {
            preferred
        };
        if preferred.len() == 0 {
            decimals(unnamed_count(values, n - 1));
        }
        chosen_name_is_free(taken, preferred, first, 0);
        let name = free_name(taken, preferred, first, 0);
        let all = taken.push(name);
        assert forall|a: int, b: int|
            0 <= a < all.len() && 0 <= b < all.len() && a != b implies all[a] != all[b] by {
            if a == n - 1 {
                assert(taken[b] == all[b]);
            } else if b == n - 1 {
                assert(taken[a] == all[a]);
            }
        }
    }
}

/// The values of a module that was read are printed under names.
proof fn printed_names_are_names(values: Seq<ValueView>, n: int)
    requires
        0 <= n <= values.len(),
        forall|i: int| 0 <= i < values.len() ==> value_read(#[trigger] values[i]),
    ensures
        all_names(value_names(values, n)),
    decreases n,
{
    if n > 0 {
        printed_names_are_names(values, n - 1);
        let taken = value_names(values, n - 1);
        assert(value_read(values[n - 1]));
        let preferred = preferred_name(values[n - 1]);
        chosen_name_is_free(taken, preferred, preferred, 0);
        let name = free_name(taken, preferred, preferred, 0);
        let j = choose|j: nat| name == candidate(preferred, preferred, j);
        assert(is_name(name)) by {
            reveal_strlit("_");
            decimals(j);
            assert forall|i: int| 0 <= i < name.len() implies is_ident_continue(
                #[trigger] name[i],
            ) by {
                if i < preferred.len() {
                    assert(name[i] == preferred[i]);
                } else if i > preferred.len() {
                    assert(name[i] == nat_text(j)[i - preferred.len() - 1]);
                }
            }
        }
    }
}

// ------------------------------------------------------------------- pieces

/// No marks: everything comes after them.
spec fn origin_marks() -> Marks {
    Marks { ops: 0, values: 0, blocks: 0, regions: 0 }
}

proof fn names_join(a: Seq<Seq<char>>, b: Seq<Seq<char>>)
    requires
        all_names(a),
        all_names(b),
    ensures
        all_names(a + b),
{
    let all = a + b;
    assert forall|i: int| 0 <= i < all.len() implies is_name(#[trigger] all[i]) by {
        if i < a.len() {
            assert(all[i] == a[i]);
        } else {
            assert(all[i] == b[i - a.len()]);
        }
    }
}

proof fn op_is_ok(
    m: ModuleView,
    names: Seq<Seq<char>>,
    id: OperationId,
    fuel: nat,
    scope: Seq<Seq<char>>,
)
    requires
        module_read(m),
        names.len() == m.values.len(),
        all_names(names),
        all_names(scope),
        op_within(m, id, origin_marks(), fuel),
        op_scoped(op_tree(m, names, id, fuel), scope),
    ensures
        op_ok(op_tree(m, names, id, fuel)),
        all_names(result_names(op_tree(m, names, id, fuel).results)),
    decreases fuel, 0int, 0int,
{
    let t = op_tree(m, names, id, fuel);
    let o = m.op(id);
    assert(op_read(m.ops[id.spec_index()]));
    assert forall|k: int| 0 <= k < t.results.len() implies result_ok(#[trigger] t.results[k]) by {
        let v = o.results[k].spec_index();
        assert(0 <= v < m.values.len());
        assert(value_read(m.values[v]));
        assert(is_name(names[v]));
    }
    let rn = result_names(t.results);
    assert forall|k: int| 0 <= k < rn.len() implies is_name(#[trigger] rn[k]) by {
        assert(result_ok(t.results[k]));
    }
    assert forall|k: int| 0 <= k < t.operands.len() implies is_name(#[trigger] t.operands[k]) by {
        assert(scope.contains(t.operands[k]));
        let j = choose|j: int| 0 <= j < scope.len() && scope[j] == t.operands[k];
        assert(is_name(scope[j]));
    }
    let attributes = o.attributes;
    assert forall|k: int| 0 <= k < attributes.len() implies (#[trigger] attributes[k]).0
        != "effect"@ by {}
    all_kept(attributes, |e: (Seq<char>, AttributeView)| e.0 != "effect"@);
    assert(t.attributes == attributes);
    assert(attributes_ok(t.attributes));
    assert forall|k: int| 0 <= k < t.regions.len() implies region_ok(#[trigger] t.regions[k]) by {
        let f = (fuel - 1) as nat;
        assert(region_within(m, o.regions[k], origin_marks(), f));
        assert(t.regions[k] == region_tree(m, names, o.regions[k], f));
        region_is_ok(m, names, o.regions[k], f, scope);
    }
}

proof fn region_is_ok(
    m: ModuleView,
    names: Seq<Seq<char>>,
    id: RegionId,
    fuel: nat,
    scope: Seq<Seq<char>>,
)
    requires
        module_read(m),
        names.len() == m.values.len(),
        all_names(names),
        all_names(scope),
        region_within(m, id, origin_marks(), fuel),
        region_scoped(region_tree(m, names, id, fuel), scope),
    ensures
        region_ok(region_tree(m, names, id, fuel)),
    decreases fuel, 3int, 0int,
{
    let t = region_tree(m, names, id, fuel);
    let ids = m.region(id).blocks;
    assert(t.blocks =~= block_trees(m, names, ids, fuel));
    blocks_are_ok(m, names, ids, 0, fuel, scope);
}

proof fn blocks_are_ok(
    m: ModuleView,
    names: Seq<Seq<char>>,
    ids: Seq<BlockId>,
    i: int,
    fuel: nat,
    scope: Seq<Seq<char>>,
)
    requires
        0 <= i <= ids.len(),
        module_read(m),
        names.len() == m.values.len(),
        all_names(names),
        all_names(scope),
        forall|k: int|
            0 <= k < ids.len() ==> block_within(m, #[trigger] ids[k], origin_marks(), fuel),
        blocks_scoped(block_trees(m, names, ids, fuel), i, scope),
    ensures
        forall|k: int|
            i <= k < ids.len() ==> block_ok(#[trigger] block_trees(m, names, ids, fuel)[k]),
    decreases fuel, 2int, ids.len() - i,
{
    if i < ids.len() {
        let ts = block_trees(m, names, ids, fuel);
        let t = ts[i];
        let b = m.block(ids[i]);
        assert(block_within(m, ids[i], origin_marks(), fuel));
        let an = arg_names(t.args);
        assert forall|k: int| 0 <= k < t.args.len() implies is_name((#[trigger] t.args[k]).0)
            && crate::emit::type_ok(t.args[k].1) by {
            let v = b.args[k].spec_index();
            assert(0 <= v < m.values.len());
            assert(value_read(m.values[v]));
            assert(is_name(names[v]));
        }
        assert forall|k: int| 0 <= k < an.len() implies is_name(#[trigger] an[k]) by {
            assert(is_name(t.args[k].0));
        }
        assert forall|k: int| 0 <= k < b.ops.len() implies !m.op(#[trigger] b.ops[k]).erased by {
            assert(op_within(m, b.ops[k], origin_marks(), fuel));
        }
        all_kept(b.ops, |op: OperationId| !m.op(op).erased);
        assert(t.ops =~= op_trees(m, names, b.ops, fuel));
        names_join(scope, an);
        ops_are_ok(m, names, b.ops, 0, fuel, scope + an);
        blocks_are_ok(m, names, ids, i + 1, fuel, scope + an + brought(t.ops, 0));
        assert(block_ok(t));
    }
}

proof fn ops_are_ok(
    m: ModuleView,
    names: Seq<Seq<char>>,
    ids: Seq<OperationId>,
    i: int,
    fuel: nat,
    scope: Seq<Seq<char>>,
)
    requires
        0 <= i <= ids.len(),
        module_read(m),
        names.len() == m.values.len(),
        all_names(names),
        all_names(scope),
        forall|k: int|
            0 <= k < ids.len() ==> op_within(m, #[trigger] ids[k], origin_marks(), fuel),
        ops_scoped(op_trees(m, names, ids, fuel), i, scope),
    ensures
        forall|k: int| i <= k < ids.len() ==> op_ok(#[trigger] op_trees(m, names, ids, fuel)[k]),
        all_names(scope + brought(op_trees(m, names, ids, fuel), i)),
    decreases fuel, 1int, ids.len() - i,
{
    let ts = op_trees(m, names, ids, fuel);
    if i < ids.len() {
        assert(op_within(m, ids[i], origin_marks(), fuel));
        op_is_ok(m, names, ids[i], fuel, scope);
        let rn = result_names(ts[i].results);
        names_join(scope, rn);
        ops_are_ok(m, names, ids, i + 1, fuel, scope + rn);
        assert(scope + rn + brought(ts, i + 1) =~= scope + brought(ts, i));
    } else {
        assert(scope + brought(ts, i) =~= scope);
    }
}

// -------------------------------------------------------------- capabilities

/// What the capabilities of a module that was read are.
spec fn capabilities_read(list: Seq<(Seq<char>, CapabilityView)>) -> bool {
    &&& sorted(keys(list))
    &&& forall|i: int|
        0 <= i < list.len() ==> (#[trigger] list[i]).0 == list[i].1.name && capability_ok(list[i].1)
}

proof fn capabilities_frame(toks: Seq<TokenView>, s: Parsing)
    requires
        toks_ok(toks),
        0 <= s.pos < toks.len(),
        capabilities_read(s.module.capabilities.capabilities),
    ensures
        capabilities(toks, s) matches Ok(u) ==> {
            &&& s.pos <= u.pos < toks.len()
            &&& u.bindings == s.bindings
            &&& u.module == (ModuleView { capabilities: u.module.capabilities, ..s.module })
            &&& capabilities_read(u.module.capabilities.capabilities)
        },
    decreases toks.len() - s.pos,
{
    if declares_capability(toks, s.pos) {
        capability_reads(toks, s.pos);
        if let Ok((c, p)) = capability(toks, s.pos) {
            let list = s.module.capabilities.capabilities;
            let s1 = Parsing {
                pos: p,
                module: ModuleView {
                    capabilities: s.module.capabilities.grant(c),
                    ..s.module
                },
                ..s
            };
            let more = s1.module.capabilities.capabilities;
            insert_keeps_sorted(list, c.name, c);
            stored(list, c.name, c);
            assert forall|i: int| 0 <= i < more.len() implies (#[trigger] more[i]).0
                == more[i].1.name && capability_ok(more[i].1) by {
                if more[i] != (c.name, c) {
                    let j = choose|j: int| 0 <= j < list.len() && list[j] == more[i];
                    assert(list[j].0 == list[j].1.name);
                }
            }
            capabilities_frame(toks, s1);
        }
    }
}

// ---------------------------------------------------------------- the whole

/// At the top level operations are read as in a block.
proof fn top_level_was_block(toks: Seq<TokenView>, s: Parsing, block: BlockId)
    requires
        top_level(toks, s, block) is Ok,
        s.pos <= toks.len(),
    ensures
        operations(toks, s, block, false) == top_level(toks, s, block),
    decreases toks.len() - s.pos,
{
    if peek(toks, s.pos) != TokView::Punct('}') && peek(toks, s.pos) != TokView::Eof {
        if let Ok(t) = operation(toks, s, block) {
            if s.pos < t.pos <= toks.len() {
                top_level_was_block(toks, t, block);
            }
        }
    }
}

/// What a module was read as can be printed and read again.
proof fn body_is_printable(toks: Seq<TokenView>, s: Parsing)
    requires
        toks_ok(toks),
        toks.len() < u32::MAX,
        1 <= s.pos < toks.len(),
        s.bindings.len() == 0,
        is_name(s.module.name),
        s.module.version <= i64::MAX,
        s.module == (ModuleView {
            version: s.module.version,
            ..ModuleView::empty(s.module.name)
        }),
        module_body(toks, s) is Ok,
    ensures
        is_printable(module_body(toks, s)->Ok_0.tree()),
{
    assert(capabilities_read(s.module.capabilities.capabilities));
    capabilities_frame(toks, s);
    let s1 = capabilities(toks, s)->Ok_0;
    let m1 = s1.module;
    let block = BlockId(0);
    top_level_was_block(toks, s1, block);
    let u = operations(toks, s1, block, false)->Ok_0;
    let m = u.module;
    let t = m.tree();
    assert(m == module_body(toks, s)->Ok_0);
    assert(module_read(m1));
    assert(m1.has_block(block));
    operations_frame(toks, s1, block, false);
    let names = m.names();
    printed_names_are_distinct(m.values, m.values.len() as int);
    printed_names_are_names(m.values, m.values.len() as int);
    let fuel = m.regions.len();
    operations_shape(toks, s1, block, false, names, fuel);
    assert(ids_of(s1.bindings) =~= Seq::empty());
    body_comes_together(m1, m, ids_of(u.bindings));
}

/// The tree of a module that was read, from what is known of its body.
proof fn body_comes_together(m1: ModuleView, m: ModuleView, after: Seq<ValueId>)
    requires
        m1 == (ModuleView {
            version: m1.version,
            capabilities: m1.capabilities,
            ..ModuleView::empty(m1.name)
        }),
        is_name(m1.name),
        m1.version <= i64::MAX,
        capabilities_read(m1.capabilities.capabilities),
        fills(m1, m, BlockId(0)),
        module_read(m),
        m.names().len() == m.values.len(),
        m.names().no_duplicates(),
        all_names(m.names()),
        ops_shaped(m, m.names(), BlockId(0), m.regions.len(), Seq::empty(), after, m1),
    ensures
        is_printable(m.tree()),
{
    reveal(fills);
    let block = BlockId(0);
    let names = m.names();
    let fuel = m.regions.len();
    let t = m.tree();
    let ids = m.block(block).ops;
    assert(m1.block(block).ops.len() == 0);
    assert(m1.block(block).args.len() == 0);
    assert(m.regions[0] == m1.regions[0]);
    assert(m.body == RegionId(0));
    assert(m.region(m.body).blocks =~= seq![block]);
    let b = t.body.blocks[0];
    assert(t.body.blocks.len() == 1);
    assert(b == block_tree(m, names, block, fuel));
    assert forall|k: int| 0 <= k < ids.len() implies op_within(
        m,
        #[trigger] ids[k],
        origin_marks(),
        fuel,
    ) && !m.op(ids[k]).erased by {
        assert(op_within(m, ids[k], marks_of(m1), fuel));
        assert(keeps(m, m, marks_of(m1)));
        op_is_unchanged(m, m, names, ids[k], origin_marks(), marks_of(m1), fuel);
    }
    all_kept(ids, |op: OperationId| !m.op(op).erased);
    let ts = op_trees(m, names, ids, fuel);
    assert(b.ops =~= ts);
    let none = Seq::<Seq<char>>::empty();
    assert(names_of(names, Seq::<ValueId>::empty()) =~= none);
    assert(arg_names(b.args) =~= none);
    assert(none + none =~= none);
    ops_are_ok(m, names, ids, 0, fuel, none);
    assert(b.args =~= Seq::empty());
    assert(block_ok(b));
    let bs = t.body.blocks;
    assert(blocks_defs(bs, 1) =~= none);
    assert(between(names, m1, m) =~= names);
    assert(blocks_defs(bs, 0) =~= names);
    assert(blocks_scoped(bs, 1, none + brought(b.ops, 0)));
    assert(blocks_scoped(bs, 0, none));
    assert forall|i: int| 0 <= i < names.len() implies (#[trigger] names[i]).len() > 0 by {
        assert(is_name(names[i]));
    }
    let list = m.capabilities.capabilities;
    assert(by_name(t.capabilities) =~= list) by {
        assert forall|i: int| 0 <= i < list.len() implies by_name(t.capabilities)[i]
            == list[i] by {
            assert(list[i].0 == list[i].1.name);
        }
    }
    assert forall|k: int| 0 <= k < t.capabilities.len() implies capability_ok(
        #[trigger] t.capabilities[k],
    ) by {
        assert(capability_ok(list[k].1));
    }
    assert(pieces_ok(t));
}

/// Whatever a text is read as can be printed and read again.
pub proof fn what_is_read_is_printable(source: Seq<char>)
    requires
        parsed(source) is Ok,
        source.len() + 1 < u32::MAX,
    ensures
        is_printable(parsed(source)->Ok_0.tree()),
{
    tokens_are_ok(source, 0);
    tokens_are_bounded(source, 0);
    let toks = tokens_from(source, 0)->Ok_0;
    matched(toks, 0);
    matched(toks, 1);
    matched(toks, 2);
    matched(toks, 3);
    matched(toks, 4);
    matched(toks, 5);
    matched(toks, 6);
    if let TokView::Symbol(name) = peek(toks, 1) {
        if let Ok((number, p3)) = version(toks, 2) {
            matched(toks, p3);
            body_is_printable(
                toks,
                Parsing {
                    pos: p3 + 1,
                    module: ModuleView { version: number, ..ModuleView::empty(name) },
                    bindings: Seq::empty(),
                },
            );
        }
    }
}

/// A program that was read and printed once is in canonical form: the printed
/// text is read as the same program, and printing that gives the same text.
pub proof fn canonical_form_is_stable(source: Seq<char>)
    requires
        parsed(source) is Ok,
        source.len() + 1 < u32::MAX,
        module_text(parsed(source)->Ok_0.tree()).len() + 1 < u32::MAX,
    ensures
        ({
            let printed = module_text(parsed(source)->Ok_0.tree());
            &&& parsed(printed) is Ok
            &&& parsed(printed)->Ok_0.tree() == parsed(source)->Ok_0.tree()
            &&& module_text(parsed(printed)->Ok_0.tree()) == printed
        }),
{
    what_is_read_is_printable(source);
    printing_is_stable(parsed(source)->Ok_0.tree());
}

} // verus!
