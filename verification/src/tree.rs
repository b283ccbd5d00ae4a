//! The program as it is written down.
//!
//! A tree says of a module what its text says: operations in order with
//! everything nested in them, and values by name instead of by handle. Two
//! modules with the same tree print alike.

use vstd::prelude::*;

use crate::attribute::{escaped, AttributeView};
use crate::capability::CapabilityView;
use crate::effect::{EffectClass, EffectView};
use crate::ids::{BlockId, OperationId, RegionId, ValueId};
use crate::module::{ModuleView, OpNameView, ValueView};
use crate::number::{number_eq, Number};
use crate::provenance::{Source, Validity};
use crate::text::nat_text;
use crate::types::TypeView;

verus! {

/// A result of an operation.
#[verifier::ext_equal]
pub ghost struct ResultTree {
    pub name: Seq<char>,
    pub ty: TypeView,
    pub source: Source,
    pub confidence: Number,
    pub validity: Validity,
}

/// An operation with everything nested in it.
#[verifier::ext_equal]
pub ghost struct OpTree {
    pub results: Seq<ResultTree>,
    pub name: OpNameView,
    pub literal: Option<Seq<char>>,
    pub operands: Seq<Seq<char>>,
    pub regions: Seq<RegionTree>,
    pub effect: EffectView,
    pub attributes: Seq<(Seq<char>, AttributeView)>,
}

/// A region: its blocks in order.
#[verifier::ext_equal]
pub ghost struct RegionTree {
    pub blocks: Seq<BlockTree>,
}

/// A block: its arguments and its operations, in order.
#[verifier::ext_equal]
pub ghost struct BlockTree {
    pub args: Seq<(Seq<char>, TypeView)>,
    pub ops: Seq<OpTree>,
}

/// A module.
#[verifier::ext_equal]
pub ghost struct ModuleTree {
    pub name: Seq<char>,
    pub version: u64,
    pub capabilities: Seq<CapabilityView>,
    pub body: RegionTree,
}

// ------------------------------------------------------------------ naming

/// The `k`-th name tried for a value: the preferred one, then the same with a
/// numeric suffix.
pub open spec fn candidate(preferred: Seq<char>, first: Seq<char>, k: nat) -> Seq<char> {
    if k == 0 {
        first
    } else {
        preferred + "_"@ + nat_text(k)
    }
}

/// The first candidate from the `k`-th on that is not taken.
pub open spec fn free_name(
    taken: Seq<Seq<char>>,
    preferred: Seq<char>,
    first: Seq<char>,
    k: nat,
) -> Seq<char>
    decreases taken.len() + 1 - k,
{
    if k <= taken.len() && taken.contains(candidate(preferred, first, k)) {
        free_name(taken, preferred, first, k + 1)
    } else {
        candidate(preferred, first, k)
    }
}

/// The name a value carries, or the empty text.
pub open spec fn preferred_name(value: ValueView) -> Seq<char> {
    match value.name {
        Some(name) => name,
        None => Seq::empty(),
    }
}

/// How many of the first `n` values carry no name.
pub open spec fn unnamed_count(values: Seq<ValueView>, n: int) -> nat
    decreases n,
{
    if n <= 0 {
        0
    } else {
        unnamed_count(values, n - 1) + if preferred_name(values[n - 1]).len() == 0 {
            1nat
        } else {
            0
        }
    }
}

/// The names of the first `n` values: each keeps the name it carries, unless
/// it is taken; unnamed ones are numbered.
pub open spec fn value_names(values: Seq<ValueView>, n: int) -> Seq<Seq<char>>
    decreases n,
{
    if n <= 0 {
        Seq::empty()
    } else {
        let taken = value_names(values, n - 1);
        let preferred = preferred_name(values[n - 1]);
        let first = if preferred.len() == 0 {
            nat_text(unnamed_count(values, n - 1))
        } else {
            preferred
        };
        taken.push(free_name(taken, preferred, first, 0))
    }
}

impl ModuleView {
    /// The names of all values.
    pub open spec fn names(self) -> Seq<Seq<char>> {
        value_names(self.values, self.values.len() as int)
    }
}

// ------------------------------------------------------------ from a module

/// The names of some values.
pub open spec fn names_of(names: Seq<Seq<char>>, ids: Seq<ValueId>) -> Seq<Seq<char>> {
    Seq::new(ids.len(), |i: int| names[ids[i].spec_index()])
}

/// A value as a result.
pub open spec fn result_tree(m: ModuleView, names: Seq<Seq<char>>, id: ValueId) -> ResultTree {
    let v = m.value(id);
    ResultTree {
        name: names[id.spec_index()],
        ty: v.ty,
        source: v.provenance.source,
        confidence: v.provenance.confidence,
        validity: v.provenance.validity,
    }
}

/// The attributes but for the declared effect.
pub open spec fn without_effect(attributes: Seq<(Seq<char>, AttributeView)>) -> Seq<
    (Seq<char>, AttributeView),
> {
    attributes.filter(|e: (Seq<char>, AttributeView)| e.0 != "effect"@)
}

/// The tree of an operation, with regions at most `fuel` deep.
pub open spec fn op_tree(m: ModuleView, names: Seq<Seq<char>>, id: OperationId, fuel: nat) -> OpTree
    decreases fuel, 0int,
{
    let op = m.op(id);
    OpTree {
        results: Seq::new(op.results.len(), |i: int| result_tree(m, names, op.results[i])),
        name: op.name,
        literal: op.literal,
        operands: names_of(names, op.operands),
        regions: if fuel == 0 {
            Seq::empty()
        } else {
            Seq::new(
                op.regions.len(),
                |i: int| region_tree(m, names, op.regions[i], (fuel - 1) as nat),
            )
        },
        effect: op.effect,
        attributes: without_effect(op.attributes),
    }
}

/// The tree of a region.
pub open spec fn region_tree(m: ModuleView, names: Seq<Seq<char>>, id: RegionId, fuel: nat) -> RegionTree
    decreases fuel, 2int,
{
    let blocks = m.region(id).blocks;
    RegionTree { blocks: Seq::new(blocks.len(), |i: int| block_tree(m, names, blocks[i], fuel)) }
}

/// The tree of a block: erased operations are not part of it.
pub open spec fn block_tree(m: ModuleView, names: Seq<Seq<char>>, id: BlockId, fuel: nat) -> BlockTree
    decreases fuel, 1int,
{
    let block = m.block(id);
    let ops = m.live(block.ops);
    BlockTree {
        args: Seq::new(
            block.args.len(),
            |i: int| (names[block.args[i].spec_index()], m.value(block.args[i]).ty),
        ),
        ops: Seq::new(ops.len(), |i: int| op_tree(m, names, ops[i], fuel)),
    }
}

impl ModuleView {
    /// The tree of the module.
    pub open spec fn tree(self) -> ModuleTree {
        ModuleTree {
            name: self.name,
            version: self.version,
            capabilities: Seq::new(
                self.capabilities.capabilities.len(),
                |i: int| self.capabilities.capabilities[i].1,
            ),
            body: region_tree(self, self.names(), self.body, self.regions.len()),
        }
    }
}

// ----------------------------------------------------------------- printing

/// Two spaces for every level.
pub open spec fn indent_text(level: nat) -> Seq<char>
    decreases level,
{
    if level == 0 {
        Seq::empty()
    } else {
        indent_text((level - 1) as nat) + "  "@
    }
}

/// A comma and a space, before every item of a list but the first.
pub open spec fn separator(i: int) -> Seq<char> {
    if i > 0 {
        ", "@
    } else {
        Seq::empty()
    }
}

/// The result names from position `i` on.
pub open spec fn result_names_text(results: Seq<ResultTree>, i: int) -> Seq<char>
    decreases results.len() - i,
{
    if i < 0 || i >= results.len() {
        Seq::empty()
    } else {
        separator(i) + "%"@ + results[i].name + result_names_text(results, i + 1)
    }
}

/// The value names from position `i` on.
pub open spec fn operands_text(operands: Seq<Seq<char>>, i: int) -> Seq<char>
    decreases operands.len() - i,
{
    if i < 0 || i >= operands.len() {
        Seq::empty()
    } else {
        separator(i) + "%"@ + operands[i] + operands_text(operands, i + 1)
    }
}

/// The result types from position `i` on.
pub open spec fn result_types_text(results: Seq<ResultTree>, i: int) -> Seq<char>
    decreases results.len() - i,
{
    if i < 0 || i >= results.len() {
        Seq::empty()
    } else {
        separator(i) + results[i].ty.text() + result_types_text(results, i + 1)
    }
}

/// The attributes from position `i` on, each after a comma and a space.
pub open spec fn attributes_text(attributes: Seq<(Seq<char>, AttributeView)>, i: int) -> Seq<char>
    decreases attributes.len() - i,
{
    if i < 0 || i >= attributes.len() {
        Seq::empty()
    } else {
        ", "@ + attributes[i].0 + " = "@ + attributes[i].1.text() + attributes_text(
            attributes,
            i + 1,
        )
    }
}

/// Whether a result carries something other than the default provenance.
pub open spec fn is_interesting(r: ResultTree) -> bool {
    r.source != Source::Derived || !number_eq(r.confidence, Number::spec_one()) || r.validity
        != Validity::Valid
}

/// The results with a provenance worth printing.
pub open spec fn interesting(results: Seq<ResultTree>) -> Seq<ResultTree> {
    results.filter(|r: ResultTree| is_interesting(r))
}

/// One provenance entry.
pub open spec fn origin_text(r: ResultTree) -> Seq<char> {
    "%"@ + r.name + " = "@ + r.source.text() + (if number_eq(r.confidence, Number::spec_one()) {
        Seq::empty()
    } else {
        " confidence("@ + r.confidence.literal_text() + ")"@
    }) + (if r.validity == Validity::Valid {
        Seq::empty()
    } else {
        " "@ + r.validity.text()
    })
}

/// The provenance entries from position `i` on.
pub open spec fn origins_text(results: Seq<ResultTree>, i: int) -> Seq<char>
    decreases results.len() - i,
{
    if i < 0 || i >= results.len() {
        Seq::empty()
    } else {
        separator(i) + origin_text(results[i]) + origins_text(results, i + 1)
    }
}

/// What is printed before the regions of an operation.
pub open spec fn head_text(t: OpTree) -> Seq<char> {
    (if t.results.len() == 0 {
        Seq::empty()
    } else {
        result_names_text(t.results, 0) + " = "@
    }) + t.name.text() + (match t.literal {
        Some(s) => " \""@ + escaped(s) + "\""@,
        None => Seq::empty(),
    }) + (if t.operands.len() == 0 {
        Seq::empty()
    } else {
        "("@ + operands_text(t.operands, 0) + ")"@
    })
}

/// What is printed after the regions of an operation.
pub open spec fn tail_text(t: OpTree) -> Seq<char> {
    " {effect = "@ + t.effect.text() + attributes_text(t.attributes, 0) + "}"@ + (
    if t.results.len() == 0 {
        Seq::empty()
    } else if t.results.len() == 1 {
        " : "@ + t.results[0].ty.text()
    } else {
        " : ("@ + result_types_text(t.results, 0) + ")"@
    }) + (if interesting(t.results).len() == 0 {
        Seq::empty()
    } else {
        " provenance("@ + origins_text(interesting(t.results), 0) + ")"@
    }) + "\n"@
}

/// An operation, on lines of its own.
pub open spec fn op_text(t: OpTree, level: nat) -> Seq<char>
    decreases t, 1int,
{
    indent_text(level) + head_text(t) + regions_text(t.regions, 0, level) + tail_text(t)
}

/// The regions from position `i` on, each in braces.
pub open spec fn regions_text(regions: Seq<RegionTree>, i: int, level: nat) -> Seq<char>
    decreases regions, regions.len() - i,
    via regions_text_decreases
{
    if i < 0 || i >= regions.len() {
        Seq::empty()
    } else {
        " {\n"@ + region_text(regions[i], level + 1) + indent_text(level) + "}"@ + regions_text(
            regions,
            i + 1,
            level,
        )
    }
}

#[via_fn]
proof fn regions_text_decreases(regions: Seq<RegionTree>, i: int, level: nat) {
    if 0 <= i < regions.len() {
        assert(decreases_to!(regions => regions[i]));
    }
}

/// Whether the blocks of a module body are printed with labels.
pub open spec fn is_branched(t: RegionTree) -> bool {
    t.blocks.len() > 1 || (t.blocks.len() == 1 && t.blocks[0].args.len() > 0)
}

/// Whether the blocks of a region of an operation are printed with labels. One
/// with nothing in it is, since an empty pair of braces is a dictionary.
pub open spec fn is_labelled(t: RegionTree) -> bool {
    is_branched(t) || (t.blocks.len() == 1 && t.blocks[0].ops.len() == 0)
}

/// The body of a module.
pub open spec fn body_text(t: RegionTree) -> Seq<char> {
    blocks_text(t.blocks, 0, 1, is_branched(t))
}

/// The blocks of a region of an operation, without the surrounding braces.
pub open spec fn region_text(t: RegionTree, level: nat) -> Seq<char>
    decreases t, 0int,
{
    blocks_text(t.blocks, 0, level, is_labelled(t))
}

/// The blocks from position `i` on.
pub open spec fn blocks_text(blocks: Seq<BlockTree>, i: int, level: nat, labelled: bool) -> Seq<char>
    decreases blocks, blocks.len() - i,
    via blocks_text_decreases
{
    if i < 0 || i >= blocks.len() {
        Seq::empty()
    } else {
        (if labelled {
            label_text(blocks[i], i, level)
        } else {
            Seq::empty()
        }) + ops_text(blocks[i].ops, 0, level) + blocks_text(blocks, i + 1, level, labelled)
    }
}

#[via_fn]
proof fn blocks_text_decreases(blocks: Seq<BlockTree>, i: int, level: nat, labelled: bool) {
    if 0 <= i < blocks.len() {
        assert(decreases_to!(blocks => blocks[i]));
        assert(decreases_to!(blocks[i] => blocks[i].ops));
    }
}

/// The label of a block: its position in the region, and its arguments.
pub open spec fn label_text(block: BlockTree, i: int, level: nat) -> Seq<char> {
    indent_text(
        if level > 0 {
            (level - 1) as nat
        } else {
            0
        },
    ) + "^bb"@ + nat_text(i as nat) + (if block.args.len() == 0 {
        Seq::empty()
    } else {
        "("@ + args_text(block.args, 0) + ")"@
    }) + ":\n"@
}

/// The block arguments from position `i` on.
pub open spec fn args_text(args: Seq<(Seq<char>, TypeView)>, i: int) -> Seq<char>
    decreases args.len() - i,
{
    if i < 0 || i >= args.len() {
        Seq::empty()
    } else {
        separator(i) + "%"@ + args[i].0 + ": "@ + args[i].1.text() + args_text(args, i + 1)
    }
}

/// The operations from position `i` on.
pub open spec fn ops_text(ops: Seq<OpTree>, i: int, level: nat) -> Seq<char>
    decreases ops, ops.len() - i,
    via ops_text_decreases
{
    if i < 0 || i >= ops.len() {
        Seq::empty()
    } else {
        op_text(ops[i], level) + ops_text(ops, i + 1, level)
    }
}

#[via_fn]
proof fn ops_text_decreases(ops: Seq<OpTree>, i: int, level: nat) {
    if 0 <= i < ops.len() {
        assert(decreases_to!(ops => ops[i]));
    }
}

/// The effect classes from position `i` on.
pub open spec fn grants_text(grants: Seq<EffectClass>, i: int) -> Seq<char>
    decreases grants.len() - i,
{
    if i < 0 || i >= grants.len() {
        Seq::empty()
    } else {
        separator(i) + grants[i].text() + grants_text(grants, i + 1)
    }
}

/// A capability declaration, on a line of its own.
pub open spec fn capability_text(c: CapabilityView) -> Seq<char> {
    "  capability @"@ + c.name + (match c.scope {
        Some(s) => " scope(\""@ + escaped(s) + "\")"@,
        None => " scope(*)"@,
    }) + " grants("@ + grants_text(c.grants, 0) + ")"@ + (if c.requires_approval {
        " requires_approval"@
    } else {
        Seq::empty()
    }) + "\n"@
}

/// The capability declarations from position `i` on.
pub open spec fn capabilities_text(capabilities: Seq<CapabilityView>, i: int) -> Seq<char>
    decreases capabilities.len() - i,
{
    if i < 0 || i >= capabilities.len() {
        Seq::empty()
    } else {
        capability_text(capabilities[i]) + capabilities_text(capabilities, i + 1)
    }
}

/// A module in the canonical textual syntax.
pub open spec fn module_text(t: ModuleTree) -> Seq<char> {
    "module @"@ + t.name + " version("@ + nat_text(t.version as nat) + ") {\n"@
        + capabilities_text(t.capabilities, 0) + (if t.capabilities.len() == 0 {
        Seq::empty()
    } else {
        "\n"@
    }) + body_text(t.body) + "}\n"@
}

} // verus!
