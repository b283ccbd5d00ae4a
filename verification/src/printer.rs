//! The canonical textual form.
//!
//! Printing is the definition of the syntax: the parser accepts what this
//! module emits.
//!
//! ```text
//! module @inference version(0) {
//!   capability @select_model scope("registry") grants(read_external)
//!
//!   agent.func "optimize_inference" {
//!   ^bb0(%model: !tool.ref<model>):
//!     %info = agent.action "inspect_model"(%model) {effect = #pure} : !observation.observation<model>
//!     agent.return(%info) {effect = #pure}
//!   } {effect = #pure}
//! }
//! ```

use vstd::prelude::*;
use vstd::string::*;

use crate::attribute::{escaped, push_escaped, Attribute};
use crate::ids::{BlockId, OperationId, RegionId, ValueId};
use crate::lexer::is_space;
use crate::module::{Module, ModuleView, Operation};
use crate::number::Number;
use crate::provenance::{Source, Validity};
use crate::text::{
    chars_of, concat_associative, holds_text, nat_string, push_nat, same_text, slice_text, texts,
};
use crate::tree::{
    args_text, attributes_text, block_tree, blocks_text, candidate, capabilities_text,
    capability_text, free_name, grants_text, head_text, indent_text, interesting, is_interesting,
    is_branched, is_labelled, label_text, module_text, names_of, op_text, op_tree, operands_text,
    ops_text, origin_text, origins_text, preferred_name, region_text, region_tree, regions_text,
    result_names_text, result_tree, result_types_text, separator, tail_text, unnamed_count,
    value_names, without_effect, ResultTree,
};

verus! {

/// The text without the white space at its end.
pub open spec fn trimmed(s: Seq<char>) -> Seq<char>
    decreases s.len(),
{
    if s.len() > 0 && is_space(s.last()) {
        trimmed(s.drop_last())
    } else {
        s
    }
}

/// Assigns every value a name that is unique across the module.
///
/// A value's preferred name is the one it carries; collisions and unnamed
/// values fall back to a numeric suffix. Uniqueness is what makes the printed
/// form re-parseable, so it is enforced here rather than trusted.
fn build_names(module: &Module) -> (r: Vec<String>)
    ensures
        texts(r@) == module@.names(),
        r@.len() == module@.values.len(),
{
    let values = module.all_values();
    let mut names: Vec<String> = Vec::new();
    let mut next: usize = 0;
    let mut i: usize = 0;
    assert(texts(names@) =~= value_names(module@.values, 0));
    while i < values.len()
        invariant
            i <= values@.len(),
            names@.len() == i,
            values@.len() == module@.values.len(),
            forall|j: int| 0 <= j < values@.len() ==> (#[trigger] values@[j])@ == module@.values[j],
            next == unnamed_count(module@.values, i as int),
            next <= i,
            texts(names@) == value_names(module@.values, i as int),
        decreases values@.len() - i,
    {
        let ghost taken = texts(names@);
        assert(values@[i as int]@ == module@.values[i as int]);
        let preferred: String = match &values[i].name {
            Some(name) => name.clone(),
            None => String::new(),
        };
        assert(preferred@ == preferred_name(module@.values[i as int]));
        let unnamed = preferred.as_str().is_empty();
        let mut name: String = if unnamed {
            nat_string(next as u64)
        } else {
            preferred.clone()
        };
        if unnamed {
            next += 1;
        }
        let ghost first = name@;
        let mut k: usize = 0;
        while k <= names.len() && holds_text(&names, name.as_str())
            invariant
                k <= names@.len() + 1,
                names@.len() == i,
                i < usize::MAX,
                taken == texts(names@),
                name@ == candidate(preferred@, first, k as nat),
                free_name(taken, preferred@, first, 0) == free_name(
                    taken,
                    preferred@,
                    first,
                    k as nat,
                ),
            decreases names@.len() + 1 - k,
        {
            k += 1;
            name = preferred.clone();
            name.append("_");
            push_nat(&mut name, k as u64);
        }
        names.push(name);
        assert(texts(names@) =~= taken.push(name@));
        i += 1;
    }
    names
}

struct Printer<'a> {
    module: &'a Module,
    names: Vec<String>,
}

fn push_indent(out: &mut String, level: u64)
    ensures
        final(out)@ == old(out)@ + indent_text(level as nat),
{
    let mut i: u64 = 0;
    assert(out@ =~= old(out)@ + indent_text(0));
    while i < level
        invariant
            i <= level,
            out@ == old(out)@ + indent_text(i as nat),
        decreases level - i,
    {
        out.append("  ");
        i += 1;
        assert(out@ =~= old(out)@ + indent_text(i as nat));
    }
}

impl<'a> Printer<'a> {
    spec fn wf(self) -> bool {
        &&& self.module@.in_bounds()
        &&& self.names@.len() == self.module@.values.len()
    }

    spec fn names(self) -> Seq<Seq<char>> {
        texts(self.names@)
    }

    /// The name of a value.
    fn name(&self, id: ValueId) -> (r: &str)
        requires
            self.wf(),
            self.module@.has_value(id),
        ensures
            r@ == self.names()[id.spec_index()],
    {
        self.names[id.index()].as_str()
    }

    /// Prints the names of some values, separated by commas.
    fn print_values(&self, ids: &Vec<ValueId>, out: &mut String)
        requires
            self.wf(),
            forall|i: int| 0 <= i < ids@.len() ==> self.module@.has_value(#[trigger] ids@[i]),
        ensures
            final(out)@ == old(out)@ + operands_text(names_of(self.names(), ids@), 0),
    {
        let ghost names = names_of(self.names(), ids@);
        let mut i: usize = 0;
        while i < ids.len()
            invariant
                i <= ids@.len(),
                self.wf(),
                forall|i: int| 0 <= i < ids@.len() ==> self.module@.has_value(#[trigger] ids@[i]),
                names == names_of(self.names(), ids@),
                out@ + operands_text(names, i as int) == old(out)@ + operands_text(names, 0),
            decreases ids@.len() - i,
        {
            let ghost before = out@;
            assert(self.module@.has_value(ids@[i as int]));
            if i > 0 {
                out.append(", ");
            }
            out.append("%");
            out.append(self.name(ids[i]));
            assert(before + operands_text(names, i as int) =~= out@ + operands_text(
                names,
                i + 1,
            ));
            i += 1;
        }
        assert(out@ =~= old(out)@ + operands_text(names, 0));
    }

    /// Prints what stands before the regions of an operation.
    fn print_head(&self, id: OperationId, Ghost(fuel): Ghost<nat>, out: &mut String)
        requires
            self.wf(),
            self.module@.has_op(id),
        ensures
            final(out)@ == old(out)@ + head_text(op_tree(self.module@, self.names(), id, fuel)),
    {
        let op = self.module.op(id);
        let ghost t = op_tree(self.module@, self.names(), id, fuel);
        let ghost named = if t.results.len() == 0 {
            Seq::empty()
        } else {
            result_names_text(t.results, 0) + " = "@
        };
        let ghost quoted = match t.literal {
            Some(s) => " \""@ + escaped(s) + "\""@,
            None => Seq::empty(),
        };
        let ghost listed = if t.operands.len() == 0 {
            Seq::empty()
        } else {
            "("@ + operands_text(t.operands, 0) + ")"@
        };
        proof {
            assert(self.module@.op_in_bounds(self.module@.ops[id.spec_index()]));
            lemma_result_names(t.results, 0);
            assert(names_of(self.names(), op.results@) =~= Seq::new(
                t.results.len(),
                |i: int| t.results[i].name,
            ));
        }
        if op.results.len() > 0 {
            self.print_values(&op.results, out);
            out.append(" = ");
        }
        assert(out@ =~= old(out)@ + named);
        let ghost first = out@;
        op.name.push_text(out);
        let ghost second = out@;
        if let Some(literal) = &op.literal {
            out.append(" \"");
            push_escaped(out, literal.as_str());
            out.append("\"");
        }
        assert(out@ =~= second + quoted);
        let ghost third = out@;
        if op.operands.len() > 0 {
            out.append("(");
            self.print_values(&op.operands, out);
            out.append(")");
        }
        assert(out@ =~= third + listed);
        proof {
            let o = old(out)@;
            concat_associative(o, named, t.name.text());
            concat_associative(o, named + t.name.text(), quoted);
            concat_associative(o, named + t.name.text() + quoted, listed);
        }
    }

    /// Prints the attribute dictionary, with the declared effect folded in.
    ///
    /// The effect lives on the operation rather than in the dictionary, but it
    /// prints as `effect = #...` because that is how an LLM builder is expected
    /// to emit it.
    fn print_attributes(&self, op: &Operation, out: &mut String)
        ensures
            final(out)@ == old(out)@ + (" {effect = "@ + op@.effect.text() + attributes_text(
                without_effect(op@.attributes),
                0,
            ) + "}"@),
    {
        out.append(" {effect = ");
        op.effect.push_text(out);
        let ghost all = op@.attributes;
        let ghost kept = without_effect(all);
        let ghost start = out@;
        let ghost keep = |e: (Seq<char>, crate::attribute::AttributeView)| e.0 != "effect"@;
        let mut i: usize = 0;
        proof {
            reveal(Seq::filter);
            assert(all.take(0).filter(keep) =~= Seq::empty());
        }
        while i < op.attributes.len()
            invariant
                i <= op.attributes@.len(),
                all == op.attributes@,
                kept == all.filter(keep),
                keep == |e: (Seq<char>, crate::attribute::AttributeView)| e.0 != "effect"@,
                out@ + attributes_text(kept, all.take(i as int).filter(keep).len() as int) == start
                    + attributes_text(kept, 0),
            decreases op.attributes@.len() - i,
        {
            let ghost before = out@;
            let ghost done = all.take(i as int).filter(keep);
            proof {
                reveal(Seq::filter);
                assert(all.take(i + 1).drop_last() =~= all.take(i as int));
            }
            let key = op.attributes.key_at(i);
            if !same_text(key.as_str(), "effect") {
                proof {
                    lemma_filter_index(all, keep, i as int);
                }
                out.append(", ");
                out.append(key.as_str());
                out.append(" = ");
                op.attributes.value_at(i).push_text(out);
                assert(before + attributes_text(kept, done.len() as int) =~= out@
                    + attributes_text(kept, done.len() as int + 1));
            }
            i += 1;
        }
        assert(all.take(all.len() as int) =~= all);
        out.append("}");
        assert(out@ =~= old(out)@ + (" {effect = "@ + op@.effect.text() + attributes_text(kept, 0)
            + "}"@));
    }

    /// Prints one provenance entry.
    fn print_origin(&self, id: ValueId, out: &mut String)
        requires
            self.wf(),
            self.module@.has_value(id),
        ensures
            final(out)@ == old(out)@ + origin_text(result_tree(self.module@, self.names(), id)),
    {
        let p = &self.module.value(id).provenance;
        out.append("%");
        out.append(self.name(id));
        out.append(" = ");
        out.append(p.source.as_word());
        if !p.confidence.same(Number::one()) {
            out.append(" confidence(");
            p.confidence.push_literal(out);
            out.append(")");
        }
        if p.validity != Validity::Valid {
            out.append(" ");
            out.append(p.validity.as_word());
        }
        assert(out@ =~= old(out)@ + origin_text(result_tree(self.module@, self.names(), id)));
    }

    /// Prints provenance for the results that carry something other than the
    /// default, so a printed module keeps everything the verifier needs.
    fn print_provenance(&self, id: OperationId, Ghost(fuel): Ghost<nat>, out: &mut String)
        requires
            self.wf(),
            self.module@.has_op(id),
        ensures
            ({
                let kept = interesting(op_tree(self.module@, self.names(), id, fuel).results);
                final(out)@ == old(out)@ + if kept.len() == 0 {
                    Seq::<char>::empty()
                } else {
                    " provenance("@ + origins_text(kept, 0) + ")"@
                }
            }),
    {
        let results = &self.module.op(id).results;
        let ghost t = op_tree(self.module@, self.names(), id, fuel);
        let ghost all = t.results;
        let ghost kept = interesting(all);
        let ghost keep = |r: ResultTree| is_interesting(r);
        let ghost origin = out@;
        let ghost opened = origin + " provenance("@;
        let mut any = false;
        let mut i: usize = 0;
        proof {
            assert(self.module@.op_in_bounds(self.module@.ops[id.spec_index()]));
            reveal(Seq::filter);
            assert(all.take(0).filter(keep) =~= Seq::empty());
        }
        while i < results.len()
            invariant
                i <= results@.len(),
                self.wf(),
                results@ == self.module@.op(id).results,
                self.module@.op_in_bounds(self.module@.op(id)),
                t == op_tree(self.module@, self.names(), id, fuel),
                all == t.results,
                all.len() == results@.len(),
                kept == all.filter(keep),
                keep == |r: ResultTree| is_interesting(r),
                opened == origin + " provenance("@,
                any == (all.take(i as int).filter(keep).len() > 0),
                !any ==> out@ == origin,
                any ==> out@ + origins_text(kept, all.take(i as int).filter(keep).len() as int)
                    == opened + origins_text(kept, 0),
            decreases results@.len() - i,
        {
            let ghost done = all.take(i as int).filter(keep);
            let ghost origin_out = out@;
            proof {
                assert(self.module@.has_value(results@[i as int]));
                reveal(Seq::filter);
                assert(all.take(i + 1).drop_last() =~= all.take(i as int));
                assert(all[i as int] == result_tree(self.module@, self.names(), results@[i as int]));
            }
            let value = self.module.value(results[i]);
            let p = &value.provenance;
            let plain = p.confidence.same(Number::one());
            if p.source != Source::Derived || !plain || p.validity != Validity::Valid {
                proof {
                    lemma_filter_index(all, keep, i as int);
                }
                if any {
                    out.append(", ");
                } else {
                    out.append(" provenance(");
                }
                let ghost before = out@;
                self.print_origin(results[i], out);
                proof {
                    let n = done.len() as int;
                    let entry = origin_text(kept[n]);
                    let rest = origins_text(kept, n + 1);
                    assert(kept[n] == all[i as int]);
                    assert(origins_text(kept, n) == separator(n) + entry + rest);
                    concat_associative(before, entry, rest);
                    if n > 0 {
                        concat_associative(origin_out, separator(n), entry + rest);
                        concat_associative(separator(n), entry, rest);
                    } else {
                        assert(separator(n) + entry =~= entry);
                    }
                }
                any = true;
            }
            i += 1;
        }
        assert(all.take(all.len() as int) =~= all);
        if any {
            out.append(")");
            assert(out@ =~= old(out)@ + (" provenance("@ + origins_text(kept, 0) + ")"@));
        } else {
            assert(out@ =~= old(out)@ + Seq::<char>::empty());
        }
    }

    /// Prints what stands after the regions of an operation.
    fn print_tail(&self, id: OperationId, Ghost(fuel): Ghost<nat>, out: &mut String)
        requires
            self.wf(),
            self.module@.has_op(id),
        ensures
            final(out)@ == old(out)@ + tail_text(op_tree(self.module@, self.names(), id, fuel)),
    {
        let op = self.module.op(id);
        let ghost t = op_tree(self.module@, self.names(), id, fuel);
        let ghost dict = " {effect = "@ + t.effect.text() + attributes_text(t.attributes, 0) + "}"@;
        let ghost typed = if t.results.len() == 0 {
            Seq::empty()
        } else if t.results.len() == 1 {
            " : "@ + t.results[0].ty.text()
        } else {
            " : ("@ + result_types_text(t.results, 0) + ")"@
        };
        let ghost origins = if interesting(t.results).len() == 0 {
            Seq::empty()
        } else {
            " provenance("@ + origins_text(interesting(t.results), 0) + ")"@
        };
        self.print_attributes(op, out);
        self.print_types(id, Ghost(fuel), out);
        self.print_provenance(id, Ghost(fuel), out);
        out.append("\n");
        proof {
            let o = old(out)@;
            concat_associative(o, dict, typed);
            concat_associative(o, dict + typed, origins);
            concat_associative(o, dict + typed + origins, "\n"@);
        }
    }

    /// Prints the types of the results of an operation.
    fn print_types(&self, id: OperationId, Ghost(fuel): Ghost<nat>, out: &mut String)
        requires
            self.wf(),
            self.module@.has_op(id),
        ensures
            ({
                let results = op_tree(self.module@, self.names(), id, fuel).results;
                final(out)@ == old(out)@ + if results.len() == 0 {
                    Seq::<char>::empty()
                } else if results.len() == 1 {
                    " : "@ + results[0].ty.text()
                } else {
                    " : ("@ + result_types_text(results, 0) + ")"@
                }
            }),
    {
        let results = &self.module.op(id).results;
        let ghost t = op_tree(self.module@, self.names(), id, fuel);
        let ghost first = out@;
        assert(self.module@.op_in_bounds(self.module@.ops[id.spec_index()]));
        if results.len() == 1 {
            assert(self.module@.has_value(results@[0]));
            out.append(" : ");
            self.module.value(results[0]).ty.push_text(out);
            assert(out@ =~= first + (" : "@ + t.results[0].ty.text()));
        } else if results.len() > 1 {
            out.append(" : (");
            let ghost start = out@;
            let mut i: usize = 0;
            while i < results.len()
                invariant
                    i <= results@.len(),
                    self.wf(),
                    results@ == self.module@.op(id).results,
                    t == op_tree(self.module@, self.names(), id, fuel),
                    self.module@.op_in_bounds(self.module@.op(id)),
                    out@ + result_types_text(t.results, i as int) == start + result_types_text(
                        t.results,
                        0,
                    ),
                decreases results@.len() - i,
            {
                let ghost before = out@;
                assert(self.module@.has_value(results@[i as int]));
                if i > 0 {
                    out.append(", ");
                }
                self.module.value(results[i]).ty.push_text(out);
                assert(before + result_types_text(t.results, i as int) =~= out@
                    + result_types_text(t.results, i + 1));
                i += 1;
            }
            out.append(")");
            assert(out@ =~= first + (" : ("@ + result_types_text(t.results, 0) + ")"@));
        } else {
            assert(out@ =~= first + Seq::<char>::empty());
        }
    }

    /// Prints an operation, on lines of its own.
    #[verifier::rlimit(40)]
    fn print_op(
        &self,
        id: OperationId,
        level: u64,
        Ghost(levels): Ghost<Seq<nat>>,
        Ghost(fuel): Ghost<nat>,
        out: &mut String,
    )
        requires
            self.wf(),
            self.module@.leveled(levels),
            self.module@.has_op(id),
            level + fuel <= u32::MAX + 3,
            nested_below(self.module@, levels, id, fuel),
        ensures
            final(out)@ == old(out)@ + op_text(
                op_tree(self.module@, self.names(), id, fuel),
                level as nat,
            ),
        decreases fuel, 1int,
    {
        let op = self.module.op(id);
        let ghost t = op_tree(self.module@, self.names(), id, fuel);
        assert(self.module@.op_in_bounds(self.module@.ops[id.spec_index()]));
        push_indent(out, level);
        self.print_head(id, Ghost(fuel), out);
        let regions = &op.regions;
        let ghost start = out@;
        let mut i: usize = 0;
        while i < regions.len()
            invariant
                i <= regions@.len(),
                self.wf(),
                self.module@.leveled(levels),
                self.module@.has_op(id),
                level + fuel <= u32::MAX + 3,
                nested_below(self.module@, levels, id, fuel),
                regions@ == self.module@.op(id).regions,
                t == op_tree(self.module@, self.names(), id, fuel),
                self.module@.op_in_bounds(self.module@.op(id)),
                out@ + regions_text(t.regions, i as int, level as nat) == start + regions_text(
                    t.regions,
                    0,
                    level as nat,
                ),
            decreases regions@.len() - i,
        {
            let ghost before = out@;
            assert(self.module@.has_region(regions@[i as int]));
            out.append(" {\n");
            self.print_region(
                regions[i],
                level + 1,
                Ghost(levels),
                Ghost((fuel - 1) as nat),
                out,
            );
            push_indent(out, level);
            out.append("}");
            assert(t.regions[i as int] == region_tree(
                self.module@,
                self.names(),
                regions@[i as int],
                (fuel - 1) as nat,
            ));
            assert(before + regions_text(t.regions, i as int, level as nat) =~= out@
                + regions_text(t.regions, i + 1, level as nat));
            i += 1;
        }
        assert(regions_text(t.regions, i as int, level as nat) =~= Seq::empty());
        assert(out@ =~= start + regions_text(t.regions, 0, level as nat));
        self.print_tail(id, Ghost(fuel), out);
        assert(out@ =~= old(out)@ + op_text(t, level as nat));
    }

    /// Prints the blocks of a region of an operation, without the surrounding
    /// braces.
    fn print_region(
        &self,
        region: RegionId,
        level: u64,
        Ghost(levels): Ghost<Seq<nat>>,
        Ghost(fuel): Ghost<nat>,
        out: &mut String,
    )
        requires
            self.wf(),
            self.module@.leveled(levels),
            self.module@.has_region(region),
            level + fuel <= u32::MAX + 3,
            fuel + levels[region.spec_index()] >= self.module@.regions.len(),
        ensures
            final(out)@ == old(out)@ + region_text(
                region_tree(self.module@, self.names(), region, fuel),
                level as nat,
            ),
        decreases fuel, 3int,
    {
        let labelled = self.is_labelled(region, Ghost(fuel));
        self.print_region_body(region, labelled, level, Ghost(levels), Ghost(fuel), out);
    }

    /// Whether the blocks of a module body are printed with labels.
    fn is_branched(&self, region: RegionId, Ghost(fuel): Ghost<nat>) -> (r: bool)
        requires
            self.wf(),
            self.module@.has_region(region),
        ensures
            r == is_branched(region_tree(self.module@, self.names(), region, fuel)),
    {
        let blocks = &self.module.region(region).blocks;
        let ghost t = region_tree(self.module@, self.names(), region, fuel);
        assert(self.module@.region_in_bounds(self.module@.regions[region.spec_index()]));
        if blocks.len() == 1 {
            assert(self.module@.has_block(blocks@[0]));
            assert(t.blocks[0].args.len() == self.module@.block(blocks@[0]).args.len());
            self.module.block(blocks[0]).args.len() > 0
        } else {
            blocks.len() > 1
        }
    }

    /// Whether the blocks of a region of an operation are printed with labels.
    fn is_labelled(&self, region: RegionId, Ghost(fuel): Ghost<nat>) -> (r: bool)
        requires
            self.wf(),
            self.module@.has_region(region),
        ensures
            r == is_labelled(region_tree(self.module@, self.names(), region, fuel)),
    {
        let blocks = &self.module.region(region).blocks;
        let ghost t = region_tree(self.module@, self.names(), region, fuel);
        assert(self.module@.region_in_bounds(self.module@.regions[region.spec_index()]));
        if self.is_branched(region, Ghost(fuel)) {
            return true;
        }
        if blocks.len() == 1 {
            assert(self.module@.has_block(blocks@[0]));
            assert(self.module@.block_in_bounds(
                self.module@.blocks[blocks@[0].spec_index()],
            ));
            let ops = self.module.live_ops_of(blocks[0]);
            assert(t.blocks[0].ops.len() == ops@.len());
            ops.len() == 0
        } else {
            false
        }
    }

    /// Prints the blocks of a region, without the surrounding braces.
    fn print_region_body(
        &self,
        region: RegionId,
        labelled: bool,
        level: u64,
        Ghost(levels): Ghost<Seq<nat>>,
        Ghost(fuel): Ghost<nat>,
        out: &mut String,
    )
        requires
            self.wf(),
            self.module@.leveled(levels),
            self.module@.has_region(region),
            level + fuel <= u32::MAX + 3,
            fuel + levels[region.spec_index()] >= self.module@.regions.len(),
        ensures
            final(out)@ == old(out)@ + blocks_text(
                region_tree(self.module@, self.names(), region, fuel).blocks,
                0,
                level as nat,
                labelled,
            ),
        decreases fuel, 2int,
    {
        let blocks = &self.module.region(region).blocks;
        let ghost t = region_tree(self.module@, self.names(), region, fuel);
        let ghost r = region.spec_index();
        assert(self.module@.region_in_bounds(self.module@.regions[r]));
        let mut i: usize = 0;
        while i < blocks.len()
            invariant
                i <= blocks@.len(),
                self.wf(),
                self.module@.leveled(levels),
                self.module@.has_region(region),
                r == region.spec_index(),
                level + fuel <= u32::MAX + 3,
                fuel + levels[r] >= self.module@.regions.len(),
                blocks@ == self.module@.region(region).blocks,
                self.module@.region_in_bounds(self.module@.region(region)),
                t == region_tree(self.module@, self.names(), region, fuel),
                out@ + blocks_text(t.blocks, i as int, level as nat, labelled) == old(out)@
                    + blocks_text(t.blocks, 0, level as nat, labelled),
            decreases blocks@.len() - i,
        {
            let ghost before = out@;
            assert(self.module@.has_block(blocks@[i as int]));
            let block = blocks[i];
            let ghost bt = block_tree(self.module@, self.names(), block, fuel);
            assert(t.blocks[i as int] == bt);
            if labelled {
                self.print_label(block, i as u64, level, Ghost(fuel), out);
            }
            let ghost middle = out@;
            assert(self.module@.block_in_bounds(self.module@.blocks[block.spec_index()]));
            let ops = self.module.live_ops_of(block);
            let ghost live = self.module@.live(self.module@.block(block).ops);
            proof {
                crate::traversal::lemma_live(self.module@, self.module@.block(block).ops);
            }
            let mut o: usize = 0;
            while o < ops.len()
                invariant
                    o <= ops@.len(),
                    i < blocks@.len(),
                    self.wf(),
                    self.module@.leveled(levels),
                    self.module@.has_region(region),
                    r == region.spec_index(),
                    level + fuel <= u32::MAX + 3,
                    fuel + levels[r] >= self.module@.regions.len(),
                    blocks@ == self.module@.region(region).blocks,
                    block == blocks@[i as int],
                    self.module@.has_block(block),
                    bt == block_tree(self.module@, self.names(), block, fuel),
                    live == self.module@.live(self.module@.block(block).ops),
                    ops@ == live,
                    crate::traversal::all_live(self.module@, live),
                    out@ + ops_text(bt.ops, o as int, level as nat) == middle + ops_text(
                        bt.ops,
                        0,
                        level as nat,
                    ),
                decreases ops@.len() - o,
            {
                let ghost earlier = out@;
                assert(self.module@.has_op(live[o as int]));
                proof {
                    lemma_nested_below(self.module@, levels, region, i as int, o as int, fuel);
                }
                self.print_op(
                    ops[o],
                    level,
                    Ghost(levels),
                    Ghost(fuel),
                    out,
                );
                assert(bt.ops[o as int] == op_tree(
                    self.module@,
                    self.names(),
                    live[o as int],
                    fuel,
                ));
                assert(earlier + ops_text(bt.ops, o as int, level as nat) =~= out@ + ops_text(
                    bt.ops,
                    o + 1,
                    level as nat,
                ));
                o += 1;
            }
            assert(ops_text(bt.ops, o as int, level as nat) =~= Seq::empty());
            assert(out@ =~= middle + ops_text(bt.ops, 0, level as nat));
            assert(before + blocks_text(t.blocks, i as int, level as nat, labelled) =~= out@
                + blocks_text(t.blocks, i + 1, level as nat, labelled));
            i += 1;
        }
        assert(out@ =~= old(out)@ + blocks_text(t.blocks, 0, level as nat, labelled));
    }

    /// Prints the label of a block, which is its position in the region.
    fn print_label(
        &self,
        block: BlockId,
        position: u64,
        level: u64,
        Ghost(fuel): Ghost<nat>,
        out: &mut String,
    )
        requires
            self.wf(),
            self.module@.has_block(block),
        ensures
            final(out)@ == old(out)@ + label_text(
                block_tree(self.module@, self.names(), block, fuel),
                position as int,
                level as nat,
            ),
    {
        let ghost bt = block_tree(self.module@, self.names(), block, fuel);
        assert(self.module@.block_in_bounds(self.module@.blocks[block.spec_index()]));
        push_indent(
            out,
            if level > 0 {
                level - 1
            } else {
                0
            },
        );
        out.append("^bb");
        push_nat(out, position);
        let args = &self.module.block(block).args;
        let ghost start = out@;
        if args.len() > 0 {
            out.append("(");
            let ghost opened = out@;
            let mut i: usize = 0;
            while i < args.len()
                invariant
                    i <= args@.len(),
                    self.wf(),
                    args@ == self.module@.block(block).args,
                    self.module@.block_in_bounds(self.module@.block(block)),
                    bt == block_tree(self.module@, self.names(), block, fuel),
                    out@ + args_text(bt.args, i as int) == opened + args_text(bt.args, 0),
                decreases args@.len() - i,
            {
                let ghost before = out@;
                assert(self.module@.has_value(args@[i as int]));
                if i > 0 {
                    out.append(", ");
                }
                out.append("%");
                out.append(self.name(args[i]));
                out.append(": ");
                self.module.value(args[i]).ty.push_text(out);
                assert(before + args_text(bt.args, i as int) =~= out@ + args_text(
                    bt.args,
                    i + 1,
                ));
                i += 1;
            }
            out.append(")");
            assert(out@ =~= start + ("("@ + args_text(bt.args, 0) + ")"@));
        } else {
            assert(out@ =~= start + Seq::<char>::empty());
        }
        out.append(":\n");
        assert(out@ =~= old(out)@ + label_text(bt, position as int, level as nat));
    }
}

/// Whether everything nested in an operation lies within reach of `fuel`
/// further steps inward.
pub open spec fn nested_below(m: ModuleView, levels: Seq<nat>, op: OperationId, fuel: nat) -> bool {
    forall|n: int|
        0 <= n < m.op(op).regions.len() ==> fuel > 0 && (fuel - 1) + levels[(
        #[trigger] m.op(op).regions[n]).spec_index()] >= m.regions.len()
}

proof fn lemma_nested_below(
    m: ModuleView,
    levels: Seq<nat>,
    region: RegionId,
    b: int,
    o: int,
    fuel: nat,
)
    requires
        m.in_bounds(),
        m.leveled(levels),
        m.has_region(region),
        0 <= b < m.region(region).blocks.len(),
        fuel + levels[region.spec_index()] >= m.regions.len(),
        0 <= o < m.live(m.block(m.region(region).blocks[b]).ops).len(),
    ensures
        nested_below(m, levels, m.live(m.block(m.region(region).blocks[b]).ops)[o], fuel),
{
    let r = region.spec_index();
    let ops = m.block(m.region(region).blocks[b]).ops;
    let op = m.live(ops)[o];
    lemma_filter_member(ops, |op: OperationId| !m.op(op).erased, o);
    let k = choose|k: int| 0 <= k < ops.len() && ops[k] == op;
    assert forall|n: int| 0 <= n < m.op(op).regions.len() implies fuel > 0 && (fuel - 1)
        + levels[(#[trigger] m.op(op).regions[n]).spec_index()] >= m.regions.len() by {
        assert(m.has_child(r, b, k, n));
        assert(m.child(r, b, k, n) == m.op(op).regions[n]);
        assert(m.region_in_bounds(m.regions[r]));
        assert(m.has_block(m.regions[r].blocks[b]));
        assert(m.block_in_bounds(m.blocks[m.regions[r].blocks[b].spec_index()]));
        assert(m.has_op(ops[k]));
        assert(m.op_in_bounds(m.ops[op.spec_index()]));
        assert(m.has_region(m.op(op).regions[n]));
        assert(levels[m.op(op).regions[n].spec_index()] < m.regions.len());
    }
}

/// Result names print like any list of names.
proof fn lemma_result_names(results: Seq<ResultTree>, i: int)
    requires
        0 <= i,
    ensures
        result_names_text(results, i) == operands_text(
            Seq::new(results.len(), |k: int| results[k].name),
            i,
        ),
    decreases results.len() - i,
{
    if i < results.len() {
        lemma_result_names(results, i + 1);
    }
}

/// What a filter keeps was there before.
pub proof fn lemma_filter_member<A>(s: Seq<A>, keep: spec_fn(A) -> bool, i: int)
    requires
        0 <= i < s.filter(keep).len(),
    ensures
        exists|k: int| 0 <= k < s.len() && s[k] == s.filter(keep)[i] && keep(s[k]),
    decreases s.len(),
{
    reveal(Seq::filter);
    if s.len() > 0 {
        let rest = s.drop_last();
        if i < rest.filter(keep).len() {
            lemma_filter_member(rest, keep, i);
            let k = choose|k: int|
                0 <= k < rest.len() && rest[k] == rest.filter(keep)[i] && keep(rest[k]);
            assert(s[k] == s.filter(keep)[i]);
        } else {
            assert(s[s.len() - 1] == s.filter(keep)[i]);
        }
    }
}

/// An element that a filter keeps stands after as many others as it keeps of
/// those before.
pub proof fn lemma_filter_index<A>(s: Seq<A>, keep: spec_fn(A) -> bool, i: int)
    requires
        0 <= i < s.len(),
        keep(s[i]),
    ensures
        s.take(i).filter(keep).len() < s.filter(keep).len(),
        s.filter(keep)[s.take(i).filter(keep).len() as int] == s[i],
    decreases s.len(),
{
    reveal(Seq::filter);
    if i == s.len() - 1 {
        assert(s.take(i) =~= s.drop_last());
    } else {
        let rest = s.drop_last();
        lemma_filter_index(rest, keep, i);
        assert(rest.take(i) =~= s.take(i));
    }
}

/// Renders a module in the canonical textual syntax.
pub fn print_module(module: &Module) -> (r: String)
    requires
        module@.well_formed(),
    ensures
        r@ == module_text(module@.tree()),
{
    let names = build_names(module);
    let ghost levels = choose|levels: Seq<nat>| module@.leveled(levels);
    let ghost t = module@.tree();
    let mut out = String::from_str("module @");
    out.append(module.name.as_str());
    out.append(" version(");
    push_nat(&mut out, module.version);
    out.append(") {\n");
    let ghost start = out@;
    let count: usize = module.capabilities.len();
    let mut i: usize = 0;
    while i < count
        invariant
            i <= count,
            count == module@.capabilities.capabilities.len(),
            t == module@.tree(),
            out@ + capabilities_text(t.capabilities, i as int) == start + capabilities_text(
                t.capabilities,
                0,
            ),
        decreases count - i,
    {
        let ghost before = out@;
        let capability = module.capabilities.capability(i);
        assert(capability@ == t.capabilities[i as int]);
        print_capability(capability, &mut out);
        assert(before + capabilities_text(t.capabilities, i as int) =~= out@ + capabilities_text(
            t.capabilities,
            i + 1,
        ));
        i += 1;
    }
    if !module.capabilities.is_empty() {
        out.append("\n");
    }
    let printer = Printer { module, names };
    let labelled = printer.is_branched(module.body(), Ghost(module@.regions.len()));
    printer.print_region_body(
        module.body(),
        labelled,
        1,
        Ghost(levels),
        Ghost(module@.regions.len()),
        &mut out,
    );
    out.append("}\n");
    assert(out@ =~= module_text(t));
    out
}

fn print_capability(capability: &crate::capability::Capability, out: &mut String)
    ensures
        final(out)@ == old(out)@ + capability_text(capability@),
{
    out.append("  capability @");
    out.append(capability.name.as_str());
    match capability.scope.name() {
        Some(scope) => {
            out.append(" scope(\"");
            push_escaped(out, scope);
            out.append("\")");
        },
        None => {
            out.append(" scope(*)");
        },
    }
    out.append(" grants(");
    let ghost start = out@;
    let mut i: usize = 0;
    while i < capability.grants.len()
        invariant
            i <= capability.grants@.len(),
            out@ + grants_text(capability.grants@, i as int) == start + grants_text(
                capability.grants@,
                0,
            ),
        decreases capability.grants@.len() - i,
    {
        let ghost before = out@;
        if i > 0 {
            out.append(", ");
        }
        let ghost separated = out@;
        let word = capability.grants[i].as_word();
        out.append(word);
        proof {
            let rest = grants_text(capability.grants@, i + 1);
            assert(separated =~= before + separator(i as int));
            concat_associative(separated, word@, rest);
            concat_associative(before, separator(i as int), word@);
            concat_associative(before, separator(i as int) + word@, rest);
        }
        i += 1;
    }
    out.append(")");
    if capability.requires_approval {
        out.append(" requires_approval");
    }
    out.append("\n");
    assert(out@ =~= old(out)@ + capability_text(capability@));
}

/// Renders a single operation, without its enclosing module. For diagnostics.
pub fn print_operation(module: &Module, op: OperationId) -> (r: String)
    requires
        module@.well_formed(),
        module@.has_op(op),
    ensures
        r@ == trimmed(op_text(op_tree(module@, module@.names(), op, module@.regions.len() + 1), 0)),
{
    let names = build_names(module);
    let ghost levels = choose|levels: Seq<nat>| module@.leveled(levels);
    let mut out = String::new();
    let printer = Printer { module, names };
    proof {
        assert(module@.op_in_bounds(module@.ops[op.spec_index()]));
    }
    printer.print_op(
        op,
        0,
        Ghost(levels),
        Ghost(module@.regions.len() + 1),
        &mut out,
    );
    let ghost text = op_text(
        op_tree(module@, module@.names(), op, module@.regions.len() + 1),
        0,
    );
    assert(out@ =~= text);
    let chars = chars_of(out.as_str());
    let mut end: usize = chars.len();
    assert(chars@.take(end as int) =~= text);
    while end > 0 && crate::lexer::is_space_char(chars[end - 1])
        invariant
            end <= chars@.len(),
            trimmed(chars@.take(end as int)) == trimmed(text),
        decreases end,
    {
        assert(chars@.take(end as int).drop_last() =~= chars@.take(end - 1));
        end -= 1;
    }
    assert(chars@.take(end as int) =~= chars@.subrange(0, end as int));
    slice_text(&chars, 0, end)
}

/// The text of an attribute, formatted the way the printer does.
pub fn print_attribute(attribute: &Attribute) -> (r: String)
    ensures
        r@ == attribute@.text(),
{
    attribute.to_string()
}

impl Module {
    /// The canonical text of the module.
    pub fn to_string(&self) -> (r: String)
        requires
            self@.well_formed(),
        ensures
            r@ == module_text(self@.tree()),
    {
        print_module(self)
    }
}

} // verus!
