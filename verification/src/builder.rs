//! A fluent builder for constructing modules.
//!
//! The parser and the LLM-facing front end both end up calling the same
//! primitives on [`Module`]; this builder is the ergonomic face of them, and is
//! what tests and the SDK use to write programs by hand.

use vstd::prelude::*;
use vstd::string::*;

use crate::assoc::insert;
use crate::attribute::{Attribute, AttributeView, Attributes};
use crate::effect::{Effect, EffectView};
use crate::ids::{BlockId, OperationId, RegionId, ValueId};
use crate::module::{op_name_of, result_views, Module, ModuleView, OpName, OpNameView, ResultView};
use crate::provenance::Provenance;
use crate::structure::{
    add_block_arg_keeps, append_new_op_keeps, create_block_keeps, create_op_region_keeps,
    levels_with_region,
};
use crate::text::optional_text;
use crate::types::Type;

verus! {

/// Builds operations into a module at a chosen insertion point.
pub struct Builder<'m> {
    /// The module being built.
    pub module: &'m mut Module,
    /// The block operations are currently appended to.
    pub insertion: BlockId,
}

/// The parts of an operation to be built.
#[verifier::ext_equal]
pub ghost struct DraftView {
    pub name: OpNameView,
    pub literal: Option<Seq<char>>,
    pub operands: Seq<ValueId>,
    pub results: Seq<ResultView>,
    pub attributes: Seq<(Seq<char>, AttributeView)>,
    pub effect: EffectView,
}

impl DraftView {
    /// The draft of an operation that only has a name.
    pub open spec fn named(name: OpNameView) -> DraftView {
        DraftView {
            name,
            literal: None,
            operands: Seq::empty(),
            results: Seq::empty(),
            attributes: Seq::empty(),
            effect: EffectView::Pure,
        }
    }

    /// The module with the operation created and appended to a block.
    pub open spec fn built(self, m: ModuleView, block: BlockId) -> ModuleView {
        m.create_op(
            self.name,
            self.literal,
            self.operands,
            self.results,
            self.attributes,
            self.effect,
        ).append_to_block(block, m.next_op())
    }

    /// Whether the module has room for the operation.
    pub open spec fn fits(self, m: ModuleView, block: BlockId) -> bool {
        &&& m.has_block(block)
        &&& m.ops.len() <= u32::MAX
        &&& m.values.len() + self.results.len() <= u32::MAX + 1
    }
}

/// Building an operation from values of the module keeps the module well
/// formed.
pub proof fn building_keeps_modules_well_formed(d: DraftView, m: ModuleView, block: BlockId)
    requires
        m.well_formed(),
        d.fits(m, block),
        forall|i: int| 0 <= i < d.operands.len() ==> m.has_value(#[trigger] d.operands[i]),
    ensures
        d.built(m, block).well_formed(),
{
    let levels = choose|levels: Seq<nat>| m.leveled(levels);
    append_new_op_keeps(
        m,
        levels,
        block,
        d.name,
        d.literal,
        d.operands,
        d.results,
        d.attributes,
        d.effect,
    );
    assert(d.built(m, block).leveled(levels));
}

/// The module with the first `n` of some arguments added to a block.
pub open spec fn with_args(
    m: ModuleView,
    block: BlockId,
    args: Seq<(String, Type)>,
    provenance: Provenance,
    n: int,
) -> ModuleView
    decreases n,
{
    if n <= 0 {
        m
    } else {
        with_args(m, block, args, provenance, n - 1).add_block_arg(
            block,
            Some(args[n - 1].0@),
            args[n - 1].1@,
            provenance,
        )
    }
}

/// The module with a region added to an operation: it has one block, with some
/// arguments.
pub open spec fn with_region(
    m: ModuleView,
    op: OperationId,
    args: Seq<(String, Type)>,
    provenance: Provenance,
) -> ModuleView {
    with_args(
        m.create_op_region(op).create_block(m.next_region()),
        m.next_block(),
        args,
        provenance,
        args.len() as int,
    )
}

/// The draft of a function of a name.
pub open spec fn func_draft(name: Seq<char>) -> DraftView {
    DraftView {
        literal: Some(name),
        ..DraftView::named(OpNameView { dialect: "agent"@, name: "func"@ })
    }
}

/// Adding arguments to a block adds values and nothing else.
proof fn args_add_values(
    m: ModuleView,
    block: BlockId,
    args: Seq<(String, Type)>,
    provenance: Provenance,
    n: int,
)
    requires
        m.has_block(block),
        0 <= n <= args.len(),
    ensures
        ({
            let m2 = with_args(m, block, args, provenance, n);
            &&& m2.values.len() == m.values.len() + n
            &&& m2.blocks.len() == m.blocks.len()
            &&& m2.regions == m.regions
            &&& m2.ops == m.ops
        }),
    decreases n,
{
    if n > 0 {
        args_add_values(m, block, args, provenance, n - 1);
    }
}

/// Adding a region keeps the module well formed.
pub proof fn regions_keep_modules_well_formed(
    m: ModuleView,
    op: OperationId,
    args: Seq<(String, Type)>,
    provenance: Provenance,
)
    requires
        m.well_formed(),
        m.has_op(op),
        m.regions.len() <= u32::MAX,
        m.blocks.len() <= u32::MAX,
        m.values.len() + args.len() <= u32::MAX + 1,
    ensures
        with_region(m, op, args, provenance).well_formed(),
{
    let levels = choose|levels: Seq<nat>| m.leveled(levels);
    create_op_region_keeps(m, levels, op);
    let m1 = m.create_op_region(op);
    let inner = levels_with_region(m, levels, op);
    create_block_keeps(m1, inner, m.next_region());
    let m2 = m1.create_block(m.next_region());
    args_keep(m2, inner, m.next_block(), args, provenance, args.len() as int);
    assert(with_region(m, op, args, provenance).leveled(inner));
}

proof fn args_keep(
    m: ModuleView,
    levels: Seq<nat>,
    block: BlockId,
    args: Seq<(String, Type)>,
    provenance: Provenance,
    n: int,
)
    requires
        m.in_bounds(),
        m.leveled(levels),
        m.has_block(block),
        0 <= n <= args.len(),
        m.values.len() + n <= u32::MAX + 1,
    ensures
        with_args(m, block, args, provenance, n).in_bounds(),
        with_args(m, block, args, provenance, n).leveled(levels),
    decreases n,
{
    if n > 0 {
        args_keep(m, levels, block, args, provenance, n - 1);
        args_add_values(m, block, args, provenance, n - 1);
        add_block_arg_keeps(
            with_args(m, block, args, provenance, n - 1),
            levels,
            block,
            Some(args[n - 1].0@),
            args[n - 1].1@,
            provenance,
        );
    }
}

impl<'m> Builder<'m> {
    /// Builds into the module body.
    pub fn new(module: &'m mut Module) -> (r: Builder<'m>)
        requires
            old(module)@.has_region(old(module)@.body),
            old(module)@.region(old(module)@.body).blocks.len() > 0,
        ensures
            *r.module == *old(module),
            r.insertion == old(module)@.region(old(module)@.body).blocks[0],
            *final(r.module) == *final(module),
    {
        let insertion = module.body_block();
        Builder { module, insertion }
    }

    /// Builds into a specific block.
    pub fn at_block(module: &'m mut Module, block: BlockId) -> (r: Builder<'m>)
        ensures
            *r.module == *old(module),
            r.insertion == block,
            *final(r.module) == *final(module),
    {
        Builder { module, insertion: block }
    }

    /// The module being built.
    pub fn module(&mut self) -> (r: &mut Module)
        ensures
            *r == *old(self).module,
            final(self).insertion == old(self).insertion,
            *final(self).module == *final(r),
            *final(final(self).module) == *final(old(self).module),
    {
        &mut *self.module
    }

    /// The block operations are currently appended to.
    pub fn insertion_point(&self) -> (r: BlockId)
        ensures
            r == self.insertion,
    {
        self.insertion
    }

    /// Redirects the builder at another block.
    pub fn set_insertion_point(&mut self, block: BlockId)
        ensures
            final(self).insertion == block,
            *final(self).module == *old(self).module,
            *final(final(self).module) == *final(old(self).module),
    {
        self.insertion = block;
    }

    /// Starts building an operation named `dialect.name`.
    pub fn op<'b>(&'b mut self, name: &str) -> (r: OpBuilder<'b, 'm>)
        requires
            op_name_of(name@) is Some,
        ensures
            r.draft() == DraftView::named(op_name_of(name@)->0),
            *r.builder == *old(self),
            *final(r.builder) == *final(self),
    {
        let name = match OpName::from_str(name) {
            Ok(name) => name,
            Err(_) => OpName::new("", ""),
        };
        let r = OpBuilder {
            builder: self,
            name,
            literal: None,
            operands: Vec::new(),
            results: Vec::new(),
            attributes: Attributes::new(),
            effect: Effect::Pure,
        };
        assert(r.draft().results =~= Seq::empty());
        r
    }

    /// Adds a region to an operation, with one block that takes some
    /// arguments, and returns the region, the block and the arguments. Used for
    /// `control.parallel`, `control.if` and `control.loop`; a builder at the
    /// block fills it.
    pub fn region(&mut self, op: OperationId, args: Vec<(String, Type)>) -> (r: (
        RegionId,
        BlockId,
        Vec<ValueId>,
    ))
        requires
            (*old(self).module)@.has_op(op),
            (*old(self).module)@.regions.len() <= u32::MAX,
            (*old(self).module)@.blocks.len() <= u32::MAX,
            (*old(self).module)@.values.len() + args@.len() <= u32::MAX + 1,
        ensures
            (*final(self).module)@ == with_region(
                (*old(self).module)@,
                op,
                args@,
                Provenance::trusted(crate::provenance::Source::Tool),
            ),
            r.0 == (*old(self).module)@.next_region(),
            r.1 == (*old(self).module)@.next_block(),
            r.2@ == fresh_values((*old(self).module)@, args@.len()),
            final(self).insertion == old(self).insertion,
            *final(final(self).module) == *final(old(self).module),
    {
        let region = self.module.create_op_region(op);
        let block = self.module.create_block(region);
        let values = self.add_args(block, args, Provenance::from_tool());
        (region, block, values)
    }

    /// Adds arguments to a block.
    fn add_args(
        &mut self,
        block: BlockId,
        args: Vec<(String, Type)>,
        provenance: Provenance,
    ) -> (r: Vec<ValueId>)
        requires
            (*old(self).module)@.has_block(block),
            (*old(self).module)@.values.len() + args@.len() <= u32::MAX + 1,
        ensures
            (*final(self).module)@ == with_args(
                (*old(self).module)@,
                block,
                args@,
                provenance,
                args@.len() as int,
            ),
            r@ == fresh_values((*old(self).module)@, args@.len()),
            final(self).insertion == old(self).insertion,
            *final(final(self).module) == *final(old(self).module),
    {
        let ghost m = (*self.module)@;
        let ghost all = args@;
        let mut values: Vec<ValueId> = Vec::new();
        for arg in it: args
            invariant
                it.seq() == all,
                m == (*old(self).module)@,
                m.has_block(block),
                m.values.len() + all.len() <= u32::MAX + 1,
                (*self.module)@ == with_args(m, block, all, provenance, it.index()),
                values@ =~= fresh_values(m, it.index() as nat),
                self.insertion == old(self).insertion,
                *final(self.module) == *final(old(self).module),
        {
            proof {
                args_add_values(m, block, all, provenance, it.index());
            }
            let (name, ty) = arg;
            let value = self.module.add_block_arg(block, Some(name), ty, provenance);
            values.push(value);
        }
        values
    }

    /// Builds an `agent.func` with parameters, and returns the function, its
    /// entry block and the parameters in declaration order. A builder at the
    /// block fills the body.
    pub fn func(&mut self, name: &str, params: Vec<(String, Type)>) -> (r: (
        OperationId,
        BlockId,
        Vec<ValueId>,
    ))
        requires
            (*old(self).module)@.has_block(old(self).insertion),
            (*old(self).module)@.ops.len() <= u32::MAX,
            (*old(self).module)@.regions.len() <= u32::MAX,
            (*old(self).module)@.blocks.len() <= u32::MAX,
            (*old(self).module)@.values.len() + params@.len() <= u32::MAX + 1,
        ensures
            (*final(self).module)@ == with_region(
                func_draft(name@).built((*old(self).module)@, old(self).insertion),
                (*old(self).module)@.next_op(),
                params@,
                Provenance::trusted(crate::provenance::Source::User),
            ),
            r.0 == (*old(self).module)@.next_op(),
            r.1 == (*old(self).module)@.next_block(),
            r.2@ == fresh_values((*old(self).module)@, params@.len()),
            final(self).insertion == old(self).insertion,
            *final(final(self).module) == *final(old(self).module),
    {
        let func = self.module.create_op(
            OpName::new("agent", "func"),
            Some(name.to_string()),
            Vec::new(),
            Vec::new(),
            Attributes::new(),
            Effect::Pure,
        );
        assert(result_views(Seq::<(Option<String>, Type, Provenance)>::empty()) =~= Seq::empty());
        self.module.append_to_block(self.insertion, func);
        let region = self.module.create_op_region(func);
        let entry = self.module.create_block(region);
        let values = self.add_args(entry, params, Provenance::from_user());
        (func, entry, values)
    }
}

/// The handles the next values get.
pub open spec fn fresh_values(m: ModuleView, n: nat) -> Seq<ValueId> {
    Seq::new(n, |i: int| ValueId::at(m.values.len() + i))
}

/// A partially specified operation. Finish with [`OpBuilder::build`] or
/// [`OpBuilder::build_one`].
pub struct OpBuilder<'b, 'm> {
    /// Where the operation goes.
    pub builder: &'b mut Builder<'m>,
    /// The name.
    pub name: OpName,
    /// The literal, e.g. the tool name in `tool.call "benchmark"`.
    pub literal: Option<String>,
    /// The values consumed.
    pub operands: Vec<ValueId>,
    /// The results declared.
    pub results: Vec<(Option<String>, Type, Provenance)>,
    /// The attributes.
    pub attributes: Attributes,
    /// The declared effect.
    pub effect: Effect,
}

impl<'b, 'm> OpBuilder<'b, 'm> {
    /// The parts specified so far.
    pub open spec fn draft(&self) -> DraftView {
        DraftView {
            name: self.name@,
            literal: optional_text(self.literal),
            operands: self.operands@,
            results: result_views(self.results@),
            attributes: self.attributes@,
            effect: self.effect@,
        }
    }

    /// Sets the literal, e.g. the tool name in `tool.call "benchmark"`.
    pub fn literal(self, literal: &str) -> (r: OpBuilder<'b, 'm>)
        ensures
            r.draft() == (DraftView { literal: Some(literal@), ..self.draft() }),
            *r.builder == *old(self.builder),
            *final(r.builder) == *final(self.builder),
    {
        let mut next = self;
        next.literal = Some(literal.to_string());
        next
    }

    /// Appends an operand.
    pub fn operand(self, value: ValueId) -> (r: OpBuilder<'b, 'm>)
        ensures
            r.draft() == (DraftView { operands: self.draft().operands.push(value), ..self.draft() }),
            *r.builder == *old(self.builder),
            *final(r.builder) == *final(self.builder),
    {
        let mut next = self;
        next.operands.push(value);
        next
    }

    /// Appends several operands.
    pub fn operands(self, values: Vec<ValueId>) -> (r: OpBuilder<'b, 'm>)
        ensures
            r.draft() == (DraftView { operands: self.draft().operands + values@, ..self.draft() }),
            *r.builder == *old(self.builder),
            *final(r.builder) == *final(self.builder),
    {
        let mut next = self;
        let mut more = values;
        next.operands.append(&mut more);
        next
    }

    /// Declares a named result with derived provenance.
    pub fn result(self, name: &str, ty: Type) -> (r: OpBuilder<'b, 'm>)
        ensures
            r.draft() == (DraftView {
                results: self.draft().results.push(
                    ResultView {
                        name: Some(name@),
                        ty: ty@,
                        provenance: Provenance::trusted(crate::provenance::Source::Derived),
                    },
                ),
                ..self.draft()
            }),
            *r.builder == *old(self.builder),
            *final(r.builder) == *final(self.builder),
    {
        self.result_with(name, ty, Provenance::derived())
    }

    /// Declares a named result with explicit provenance.
    pub fn result_with(self, name: &str, ty: Type, provenance: Provenance) -> (r: OpBuilder<
        'b,
        'm,
    >)
        ensures
            r.draft() == (DraftView {
                results: self.draft().results.push(
                    ResultView { name: Some(name@), ty: ty@, provenance },
                ),
                ..self.draft()
            }),
            *r.builder == *old(self.builder),
            *final(r.builder) == *final(self.builder),
    {
        let ghost before = self.draft();
        let mut next = self;
        next.results.push((Some(name.to_string()), ty, provenance));
        assert(next.draft().results =~= before.results.push(
            ResultView { name: Some(name@), ty: ty@, provenance },
        ));
        next
    }

    /// Sets an attribute.
    pub fn attr(self, key: &str, value: Attribute) -> (r: OpBuilder<'b, 'm>)
        ensures
            r.draft() == (DraftView {
                attributes: insert(self.draft().attributes, key@, value@),
                ..self.draft()
            }),
            *r.builder == *old(self.builder),
            *final(r.builder) == *final(self.builder),
    {
        let mut next = self;
        next.attributes.insert(key.to_string(), value);
        next
    }

    /// Sets the declared effect.
    pub fn effect(self, effect: Effect) -> (r: OpBuilder<'b, 'm>)
        ensures
            r.draft() == (DraftView { effect: effect@, ..self.draft() }),
            *r.builder == *old(self.builder),
            *final(r.builder) == *final(self.builder),
    {
        let mut next = self;
        next.effect = effect;
        next
    }

    /// Inserts the operation and returns its id.
    pub fn build(self) -> (r: OperationId)
        requires
            self.draft().fits((*old(self.builder).module)@, old(self.builder).insertion),
        ensures
            r == (*old(self.builder).module)@.next_op(),
            (*(*final(self.builder)).module)@ == self.draft().built(
                (*old(self.builder).module)@,
                old(self.builder).insertion,
            ),
            (*final(self.builder)).insertion == old(self.builder).insertion,
            *final((*final(self.builder)).module) == *final(old(self.builder).module),
    {
        let OpBuilder { builder, name, literal, operands, results, attributes, effect } = self;
        let op = builder.module.create_op(name, literal, operands, results, attributes, effect);
        let block = builder.insertion;
        builder.module.append_to_block(block, op);
        op
    }

    /// Inserts the operation and returns its single result.
    pub fn build_one(self) -> (r: ValueId)
        requires
            self.draft().fits((*old(self.builder).module)@, old(self.builder).insertion),
            self.draft().results.len() == 1,
        ensures
            r == (*old(self.builder).module)@.next_value(),
            (*(*final(self.builder)).module)@ == self.draft().built(
                (*old(self.builder).module)@,
                old(self.builder).insertion,
            ),
            (*final(self.builder)).insertion == old(self.builder).insertion,
            *final((*final(self.builder)).module) == *final(old(self.builder).module),
    {
        self.build_pair().1
    }

    /// Inserts the operation and returns both its id and its single result.
    pub fn build_pair(self) -> (r: (OperationId, ValueId))
        requires
            self.draft().fits((*old(self.builder).module)@, old(self.builder).insertion),
            self.draft().results.len() == 1,
        ensures
            r.0 == (*old(self.builder).module)@.next_op(),
            r.1 == (*old(self.builder).module)@.next_value(),
            (*(*final(self.builder)).module)@ == self.draft().built(
                (*old(self.builder).module)@,
                old(self.builder).insertion,
            ),
            (*final(self.builder)).insertion == old(self.builder).insertion,
            *final((*final(self.builder)).module) == *final(old(self.builder).module),
    {
        let OpBuilder { builder, name, literal, operands, results, attributes, effect } = self;
        let op = builder.module.create_op(name, literal, operands, results, attributes, effect);
        let block = builder.insertion;
        builder.module.append_to_block(block, op);
        let result = builder.module.op(op).results[0];
        (op, result)
    }
}

} // verus!
