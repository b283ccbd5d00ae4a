//! What the command line prints: the canonical form of a file, a plan, the
//! dialects, and which function a command is about.

use vstd::prelude::*;
use vstd::string::*;

use crate::dialects::{OpSignature, SignatureView};
use crate::effect::EffectClass;
use crate::event::spaces;
use crate::ids::OperationId;
use crate::lexer::{is_space, is_space_char, line_end, line_end_bounds};
use crate::module::{Module, ModuleView, Operation, OperationView};
use crate::plan::{
    batch_views, control_view, plan_view, step_view, step_views, Control, ControlView, Plan,
    PlanView, Step, StepView,
};
use crate::printer::print_module;
use crate::text::{
    chars_of, concat_associative, int_string, int_text, nat_text, push_nat, slice_text, texts,
};
use crate::traversal::all_live;
use crate::tree::module_text;

verus! {

// ----------------------------------------------------------- canonical form

/// A line of a file without the carriage return before its line feed.
pub open spec fn line_text(chars: Seq<char>, pos: int) -> Seq<char> {
    let end = line_end(chars, pos);
    if pos < end < chars.len() && chars[end - 1] == '\r' {
        chars.subrange(pos, end - 1)
    } else {
        chars.subrange(pos, end)
    }
}

/// Whether a line belongs to the header of a file: a comment or a blank line.
pub open spec fn is_header_line(line: Seq<char>) -> bool {
    ||| line.len() >= 2 && line[0] == '/' && line[1] == '/'
    ||| forall|i: int| 0 <= i < line.len() ==> is_space(#[trigger] line[i])
}

/// The header lines from a position on, one per line.
pub open spec fn header_text(chars: Seq<char>, pos: int) -> Seq<char>
    decreases chars.len() - pos,
    via header_text_decreases
{
    if pos < 0 || pos >= chars.len() || !is_header_line(line_text(chars, pos)) {
        Seq::empty()
    } else {
        line_text(chars, pos) + "\n"@ + (if line_end(chars, pos) < chars.len() {
            header_text(chars, line_end(chars, pos) + 1)
        } else {
            Seq::empty()
        })
    }
}

#[via_fn]
proof fn header_text_decreases(chars: Seq<char>, pos: int) {
    if 0 <= pos < chars.len() {
        line_end_bounds(chars, pos);
    }
}

fn header_line(line: &str) -> (r: bool)
    ensures
        r == is_header_line(line@),
{
    let chars = chars_of(line);
    if chars.len() >= 2 && chars[0] == '/' && chars[1] == '/' {
        return true;
    }
    let mut i: usize = 0;
    while i < chars.len()
        invariant
            i <= chars@.len(),
            chars@ == line@,
            !(chars@.len() >= 2 && chars@[0] == '/' && chars@[1] == '/'),
            forall|j: int| 0 <= j < i ==> is_space(#[trigger] chars@[j]),
        decreases chars@.len() - i,
    {
        if !is_space_char(chars[i]) {
            assert(!is_space(line@[i as int]));
            return false;
        }
        i += 1;
    }
    true
}

/// The canonical form of a file: the comments and blank lines it starts with,
/// and then the module as it prints.
pub fn canonical(source: &str, module: &Module) -> (r: String)
    requires
        module@.well_formed(),
    ensures
        r@ == header_text(source@, 0) + module_text(module@.tree()),
{
    let chars = chars_of(source);
    let ghost text = source@;
    let mut out = String::new();
    let mut pos: usize = 0;
    let mut inside = true;
    assert(out@ + header_text(text, 0) =~= header_text(text, 0));
    while inside && pos < chars.len()
        invariant
            chars@ == text,
            pos <= chars@.len(),
            inside ==> out@ + header_text(text, pos as int) == header_text(text, 0),
            !inside ==> out@ == header_text(text, 0),
        decreases chars@.len() - pos, (if inside { 1int } else { 0int }),
    {
        let mut end: usize = pos;
        while end < chars.len() && chars[end] != '\n'
            invariant
                chars@ == text,
                pos <= end <= chars@.len(),
                line_end(text, end as int) == line_end(text, pos as int),
            decreases chars@.len() - end,
        {
            end += 1;
        }
        let last: usize = if end < chars.len() && pos < end && chars[end - 1] == '\r' {
            end - 1
        } else {
            end
        };
        let line = slice_text(&chars, pos, last);
        assert(line@ =~= line_text(text, pos as int));
        if header_line(line.as_str()) {
            let ghost before = out@;
            out.append(line.as_str());
            out.append("\n");
            if end < chars.len() {
                assert(before + header_text(text, pos as int) =~= out@ + header_text(
                    text,
                    end + 1,
                ));
                pos = end + 1;
            } else {
                assert(before + header_text(text, pos as int) =~= out@);
                inside = false;
            }
        } else {
            assert(out@ + header_text(text, pos as int) =~= out@);
            inside = false;
        }
    }
    if inside {
        assert(out@ + header_text(text, pos as int) =~= out@);
    }
    let body = print_module(module);
    out.append(body.as_str());
    out
}

// ---------------------------------------------------------------- functions

/// The names of the functions among the first `n` of some operations.
pub open spec fn function_names(m: ModuleView, ops: Seq<OperationId>, n: int) -> Seq<Seq<char>>
    decreases n,
{
    if n <= 0 {
        Seq::empty()
    } else {
        match name_of(m.op(ops[n - 1])) {
            Some(name) => function_names(m, ops, n - 1).push(name),
            None => function_names(m, ops, n - 1),
        }
    }
}

/// The name of an operation that is a function.
pub open spec fn name_of(o: OperationView) -> Option<Seq<char>> {
    if o.name.is("agent"@, "func"@) {
        o.literal
    } else {
        None
    }
}

fn function_name(operation: &Operation) -> (r: Option<String>)
    ensures
        crate::text::optional_text(r) == name_of(operation@),
{
    if operation.name.is("agent", "func") {
        crate::text::copy_optional_text(&operation.literal)
    } else {
        None
    }
}

/// Names separated by commas, from position `i` on.
pub open spec fn names_text(names: Seq<Seq<char>>, i: int) -> Seq<char>
    decreases names.len() - i,
{
    if i < 0 || i >= names.len() {
        Seq::empty()
    } else {
        (if i > 0 {
            ", "@
        } else {
            Seq::empty()
        }) + names[i] + names_text(names, i + 1)
    }
}

/// Which function a command is about: the one asked for, or the only one.
pub open spec fn picked(names: Seq<Seq<char>>, requested: Option<Seq<char>>) -> Result<
    Seq<char>,
    Seq<char>,
> {
    match requested {
        Some(name) => if names.contains(name) {
            Ok(name)
        } else {
            Err(
                "no function `"@ + name + "`; this module has: "@ + names_text(names, 0),
            )
        },
        None => if names.len() == 1 {
            Ok(names[0])
        } else if names.len() == 0 {
            Err("this module defines no functions"@)
        } else {
            Err("--function is required; this module has: "@ + names_text(names, 0))
        },
    }
}

/// The names of the functions of a module.
pub fn functions(module: &Module) -> (r: Vec<String>)
    requires
        module@.in_bounds(),
    ensures
        texts(r@) == function_names(
            module@,
            module@.ops_in_region(module@.body),
            module@.ops_in_region(module@.body).len() as int,
        ),
{
    let ghost m = module@;
    proof {
        crate::traversal::region_ops_are_live(m, m.body);
    }
    let tops = module.top_level();
    let mut names: Vec<String> = Vec::new();
    let mut n: usize = 0;
    assert(texts(names@) =~= function_names(m, tops@, 0));
    while n < tops.len()
        invariant
            n <= tops@.len(),
            m == module@,
            all_live(m, tops@),
            texts(names@) == function_names(m, tops@, n as int),
        decreases tops@.len() - n,
    {
        assert(m.has_op(tops@[n as int]));
        let operation = module.op(tops[n]);
        if let Some(name) = function_name(operation) {
            let ghost before = texts(names@);
            names.push(name);
            assert(texts(names@) =~= before.push(name@));
        }
        n += 1;
    }
    names
}

/// Picks the function a command is about.
pub fn pick_function(names: &Vec<String>, requested: Option<String>) -> (r: Result<String, String>)
    ensures
        match r {
            Ok(name) => picked(texts(names@), crate::text::optional_text(requested)) == Ok::<
                Seq<char>,
                Seq<char>,
            >(name@),
            Err(message) => picked(texts(names@), crate::text::optional_text(requested)) == Err::<
                Seq<char>,
                Seq<char>,
            >(message@),
        },
{
    let ghost all = texts(names@);
    match requested {
        Some(name) => {
            if crate::text::holds_text(names, name.as_str()) {
                return Ok(name);
            }
            let mut message = String::from_str("no function `");
            message.append(name.as_str());
            message.append("`; this module has: ");
            let ghost start = message@;
            push_names(names, &mut message);
            assert(message@ =~= "no function `"@ + name@ + "`; this module has: "@ + names_text(
                all,
                0,
            ));
            Err(message)
        },
        None => {
            if names.len() == 1 {
                Ok(names[0].clone())
            } else if names.len() == 0 {
                Err("this module defines no functions".to_string())
            } else {
                let mut message = String::from_str("--function is required; this module has: ");
                push_names(names, &mut message);
                Err(message)
            }
        },
    }
}

fn push_names(names: &Vec<String>, out: &mut String)
    ensures
        final(out)@ == old(out)@ + names_text(texts(names@), 0),
{
    let ghost all = texts(names@);
    let ghost start = out@;
    let mut i: usize = 0;
    while i < names.len()
        invariant
            i <= names@.len(),
            all == texts(names@),
            out@ + names_text(all, i as int) =~= start + names_text(all, 0),
        decreases names@.len() - i,
    {
        let ghost before = out@;
        if i > 0 {
            out.append(", ");
        }
        out.append(names[i].as_str());
        assert(before + names_text(all, i as int) =~= out@ + names_text(all, i + 1));
        i += 1;
    }
}

// -------------------------------------------------------------------- plans

/// The printed form of a plan, every line after `pad`.
pub open spec fn plan_text(plan: PlanView, pad: Seq<char>) -> Seq<char>
    decreases plan, 0int,
{
    batches_text(plan.batches, 0, pad)
}

/// The printed forms of the batches from position `i` on.
pub open spec fn batches_text(batches: Seq<Seq<StepView>>, i: int, pad: Seq<char>) -> Seq<char>
    decreases batches, batches.len() - i,
    via batches_text_decreases
{
    if i < 0 || i >= batches.len() {
        Seq::empty()
    } else {
        batch_line(i, batches[i].len(), pad) + steps_text(batches[i], 0, pad) + batches_text(
            batches,
            i + 1,
            pad,
        )
    }
}

#[via_fn]
proof fn batches_text_decreases(batches: Seq<Seq<StepView>>, i: int, pad: Seq<char>) {
    if 0 <= i < batches.len() {
        assert(decreases_to!(batches => batches[i]));
    }
}

/// The line that heads a batch.
pub open spec fn batch_line(i: int, size: nat, pad: Seq<char>) -> Seq<char> {
    pad + "batch "@ + nat_text(i as nat) + (if size > 1 {
        " ("@ + nat_text(size) + " concurrent)"@
    } else {
        Seq::empty()
    }) + "\n"@
}

/// The printed forms of the steps from position `j` on.
pub open spec fn steps_text(steps: Seq<StepView>, j: int, pad: Seq<char>) -> Seq<char>
    decreases steps, steps.len() - j,
    via steps_text_decreases
{
    if j < 0 || j >= steps.len() {
        Seq::empty()
    } else {
        step_lines(steps[j], pad) + nested_text(steps[j].control, pad) + steps_text(
            steps,
            j + 1,
            pad,
        )
    }
}

#[via_fn]
proof fn steps_text_decreases(steps: Seq<StepView>, j: int, pad: Seq<char>) {
    if 0 <= j < steps.len() {
        assert(decreases_to!(steps => steps[j]));
        assert(decreases_to!(steps[j] => steps[j].control));
    }
}

/// The lines of a step itself: what it does, and its key where it has one.
pub open spec fn step_lines(step: StepView, pad: Seq<char>) -> Seq<char> {
    pad + "  "@ + step.name + (match step.literal {
        Some(literal) => " \""@ + literal + "\""@,
        None => Seq::empty(),
    }) + "  →  "@ + step.target.text() + "\n"@ + (match step.idempotency_key {
        Some(key) => pad + "    idempotency: "@ + key + "\n"@,
        None => Seq::empty(),
    })
}

/// A heading and the plan under it.
pub open spec fn section(heading: Seq<char>, plan: PlanView, pad: Seq<char>) -> Seq<char>
    decreases plan, 1int,
{
    pad + heading + plan_text(plan, pad + "      "@)
}

/// The lines of the plans nested in a step.
pub open spec fn nested_text(control: Option<ControlView>, pad: Seq<char>) -> Seq<char>
    decreases control, 0int,
{
    match control {
        None => Seq::empty(),
        Some(ControlView::If { taken, otherwise }) => match otherwise {
            Some(other) => section("    then:\n"@, taken, pad) + section(
                "    else:\n"@,
                other,
                pad,
            ),
            None => section("    then:\n"@, taken, pad),
        },
        Some(ControlView::Loop { max_iterations, body, .. }) => section(
            "    body (up to "@ + int_text(max_iterations as int) + " iterations):\n"@,
            body,
            pad,
        ),
        Some(ControlView::While { condition, body, .. }) => section(
            "    condition:\n"@,
            condition,
            pad,
        ) + section("    body:\n"@, body, pad),
        Some(ControlView::Parallel { body }) => section("    concurrently:\n"@, body, pad),
    }
}

/// Appends the lines of a step itself.
fn push_step(step: &Step, pad: &str, out: &mut String)
    ensures
        final(out)@ == old(out)@ + step_lines(step@, pad@),
{
    proof {
        step_view(*step);
    }
    out.append(pad);
    out.append("  ");
    out.append(step.name.as_str());
    let ghost named = out@;
    if let Some(literal) = &step.literal {
        out.append(" \"");
        out.append(literal.as_str());
        out.append("\"");
    }
    let ghost quoted = match step@.literal {
        Some(literal) => " \""@ + literal + "\""@,
        None => Seq::empty(),
    };
    assert(out@ =~= named + quoted);
    out.append("  →  ");
    out.append(step.target.to_string().as_str());
    out.append("\n");
    let ghost shown = out@;
    assert(shown =~= old(out)@ + (pad@ + "  "@ + step@.name + quoted + "  →  "@
        + step@.target.text() + "\n"@));
    if let Some(key) = &step.idempotency_key {
        out.append(pad);
        out.append("    idempotency: ");
        out.append(key.as_str());
        out.append("\n");
        assert(out@ =~= shown + (pad@ + "    idempotency: "@ + key@ + "\n"@));
    }
    assert(out@ =~= old(out)@ + step_lines(step@, pad@));
}

/// Appends the line that heads a batch.
fn push_batch(i: usize, size: usize, pad: &str, out: &mut String)
    ensures
        final(out)@ == old(out)@ + batch_line(i as int, size as nat, pad@),
{
    out.append(pad);
    out.append("batch ");
    push_nat(out, i as u64);
    if size > 1 {
        out.append(" (");
        push_nat(out, size as u64);
        out.append(" concurrent)");
    }
    out.append("\n");
    assert(out@ =~= old(out)@ + batch_line(i as int, size as nat, pad@));
}

/// Appends a heading and the plan under it.
fn push_nested(heading: &str, plan: &Plan, pad: &str, out: &mut String)
    ensures
        final(out)@ == old(out)@ + section(heading@, plan@, pad@),
    decreases plan, 2int,
{
    out.append(pad);
    out.append(heading);
    let mut inner = pad.to_string();
    inner.append("      ");
    push_plan(plan, inner.as_str(), out);
    assert(out@ =~= old(out)@ + section(heading@, plan@, pad@));
}

/// Appends the lines of the plans nested in a step.
fn push_control(control: &Control, pad: &str, out: &mut String)
    ensures
        final(out)@ == old(out)@ + nested_text(Some(control@), pad@),
    decreases control, 3int,
{
    proof {
        control_view(*control);
    }
    match control {
        Control::If { taken, otherwise } => {
            push_nested("    then:\n", taken, pad, out);
            if let Some(other) = otherwise {
                push_nested("    else:\n", other, pad, out);
                proof {
                    concat_associative(
                        old(out)@,
                        section("    then:\n"@, taken@, pad@),
                        section("    else:\n"@, other@, pad@),
                    );
                }
            }
        },
        Control::Loop { max_iterations, body, .. } => {
            let mut heading = String::from_str("    body (up to ");
            heading.append(int_string(*max_iterations).as_str());
            heading.append(" iterations):\n");
            push_nested(heading.as_str(), body, pad, out);
        },
        Control::While { condition, body, .. } => {
            push_nested("    condition:\n", condition, pad, out);
            push_nested("    body:\n", body, pad, out);
            proof {
                concat_associative(
                    old(out)@,
                    section("    condition:\n"@, condition@, pad@),
                    section("    body:\n"@, body@, pad@),
                );
            }
        },
        Control::Parallel { body } => {
            push_nested("    concurrently:\n", body, pad, out);
        },
    }
}

/// Appends the printed form of a plan, every line after `pad`.
pub fn push_plan(plan: &Plan, pad: &str, out: &mut String)
    ensures
        final(out)@ == old(out)@ + plan_text(plan@, pad@),
    decreases plan, 1int,
{
    proof {
        plan_view(*plan);
    }
    let ghost start = out@;
    let ghost batches = plan@.batches;
    let mut i: usize = 0;
    while i < plan.batches.len()
        invariant
            i <= plan.batches@.len(),
            batches == batch_views(plan.batches@),
            out@ + batches_text(batches, i as int, pad@) =~= start + batches_text(
                batches,
                0,
                pad@,
            ),
        decreases plan.batches@.len() - i,
    {
        let batch = &plan.batches[i];
        let ghost steps = step_views(batch@);
        let ghost before = out@;
        assert(batches[i as int] == steps);
        push_batch(i, batch.len(), pad, out);
        let ghost middle = out@;
        let mut j: usize = 0;
        while j < batch.len()
            invariant
                j <= batch@.len(),
                i < plan.batches@.len(),
                *batch == plan.batches@[i as int],
                steps == step_views(batch@),
                out@ + steps_text(steps, j as int, pad@) =~= middle + steps_text(steps, 0, pad@),
            decreases batch@.len() - j,
        {
            let step = &batch[j];
            proof {
                step_view(*step);
                assert(decreases_to!(plan => plan.batches));
                assert(decreases_to!(plan.batches => plan.batches[i as int]));
                assert(decreases_to!(batch => batch[j as int]));
            }
            let ghost earlier = out@;
            push_step(step, pad, out);
            let ghost shown = out@;
            if let Some(control) = &step.control {
                push_control(&**control, pad, out);
            } else {
                assert(out@ =~= shown + nested_text(step@.control, pad@));
            }
            assert(out@ == shown + nested_text(step@.control, pad@));
            assert(earlier + steps_text(steps, j as int, pad@) =~= out@ + steps_text(
                steps,
                j + 1,
                pad@,
            ));
            j += 1;
        }
        assert(out@ =~= middle + steps_text(steps, 0, pad@));
        assert(before + batches_text(batches, i as int, pad@) =~= out@ + batches_text(
            batches,
            i + 1,
            pad@,
        ));
        i += 1;
    }
    assert(out@ =~= start + plan_text(plan@, pad@));
}

// ----------------------------------------------------------------- dialects

/// Effect classes separated by bars, from position `i` on.
pub open spec fn bars_text(classes: Seq<EffectClass>, i: int) -> Seq<char>
    decreases classes.len() - i,
{
    if i < 0 || i >= classes.len() {
        Seq::empty()
    } else {
        (if i > 0 {
            " | "@
        } else {
            Seq::empty()
        }) + classes[i].text() + bars_text(classes, i + 1)
    }
}

/// The two lines that describe an operation of a dialect.
pub open spec fn signature_text(s: SignatureView) -> Seq<char> {
    "  "@ + s.name.name + spaces(24 - s.name.name.len()) + " "@ + s.summary + "\n"@ + "  "@ + spaces(
        24,
    ) + " operands: "@ + s.operands.text() + ", results: "@ + s.results.text() + ", effects: "@ + (
    if s.allowed_effects.len() == 0 {
        "any"@
    } else {
        bars_text(s.allowed_effects, 0)
    }) + "\n"@
}

/// Appends spaces until a column of a width is full.
fn push_padding(used: usize, width: usize, out: &mut String)
    ensures
        final(out)@ == old(out)@ + spaces(width - used),
{
    let ghost start = out@;
    let mut column: usize = used;
    while column < width
        invariant
            used <= column,
            column <= width || column == used,
            out@ =~= start + spaces(column - used),
        decreases width - column,
    {
        out.push(' ');
        column += 1;
    }
    assert(out@ =~= start + spaces(width - used));
}

/// The two lines that describe an operation of a dialect.
pub fn describe_signature(signature: &OpSignature) -> (r: String)
    ensures
        r@ == signature_text(signature@),
{
    let mut out = String::from_str("  ");
    let name = signature.name.name.as_str();
    out.append(name);
    push_padding(name.unicode_len(), 24, &mut out);
    out.append(" ");
    out.append(signature.summary);
    out.append("\n");
    out.append("  ");
    push_padding(0, 24, &mut out);
    let ghost top = out@;
    out.append(" operands: ");
    out.append(signature.operands.describe().as_str());
    out.append(", results: ");
    out.append(signature.results.describe().as_str());
    out.append(", effects: ");
    let ghost start = out@;
    let ghost classes = signature.allowed_effects@;
    if signature.allowed_effects.len() == 0 {
        out.append("any");
    } else {
        let mut i: usize = 0;
        while i < signature.allowed_effects.len()
            invariant
                i <= signature.allowed_effects@.len(),
                classes == signature.allowed_effects@,
                out@ + bars_text(classes, i as int) =~= start + bars_text(classes, 0),
            decreases signature.allowed_effects@.len() - i,
        {
            let ghost before = out@;
            if i > 0 {
                out.append(" | ");
            }
            out.append(signature.allowed_effects[i].as_word());
            assert(before + bars_text(classes, i as int) =~= out@ + bars_text(classes, i + 1));
            i += 1;
        }
    }
    let ghost effects = if classes.len() == 0 {
        "any"@
    } else {
        bars_text(classes, 0)
    };
    assert(out@ =~= start + effects);
    out.append("\n");
    assert(out@ =~= signature_text(signature@));
    out
}

// -------------------------------------------------------------------- laws

/// The names listed are those of the functions, each under the name its literal
/// gives it.
pub proof fn every_function_is_listed(m: ModuleView, ops: Seq<OperationId>, n: int, name: Seq<char>)
    requires
        0 <= n <= ops.len(),
    ensures
        function_names(m, ops, n).contains(name) <==> exists|i: int|
            0 <= i < n && m.op(#[trigger] ops[i]).name.dialect == "agent"@ && m.op(
                ops[i],
            ).name.name == "func"@ && m.op(ops[i]).literal == Some(name),
    decreases n,
{
    if n > 0 {
        every_function_is_listed(m, ops, n - 1, name);
        let before = function_names(m, ops, n - 1);
        let all = function_names(m, ops, n);
        let o = m.op(ops[n - 1]);
        if all.contains(name) {
            let k = choose|k: int| 0 <= k < all.len() && all[k] == name;
            if k < before.len() {
                assert(before.contains(before[k]));
                let i = choose|i: int|
                    0 <= i < n - 1 && m.op(#[trigger] ops[i]).name.dialect == "agent"@ && m.op(
                        ops[i],
                    ).name.name == "func"@ && m.op(ops[i]).literal == Some(name);
                assert(m.op(ops[i]).literal == Some(name));
            } else {
                assert(m.op(ops[n - 1]).literal == Some(name));
            }
        }
        if exists|i: int|
            0 <= i < n && m.op(#[trigger] ops[i]).name.dialect == "agent"@ && m.op(
                ops[i],
            ).name.name == "func"@ && m.op(ops[i]).literal == Some(name) {
            let i = choose|i: int|
                0 <= i < n && m.op(#[trigger] ops[i]).name.dialect == "agent"@ && m.op(
                    ops[i],
                ).name.name == "func"@ && m.op(ops[i]).literal == Some(name);
            if i < n - 1 {
                assert(m.op(ops[i]).literal == Some(name));
                let k = choose|k: int| 0 <= k < before.len() && before[k] == name;
                assert(all[k] == name);
            } else {
                assert(all[before.len() as int] == name);
            }
        }
    }
}

/// The function that is asked for is picked where there is one of that name, and
/// the only one where none is asked for; otherwise none is picked.
pub proof fn the_only_function_is_picked(names: Seq<Seq<char>>, requested: Option<Seq<char>>)
    ensures
        match requested {
            Some(name) => picked(names, requested) is Ok == (exists|i: int|
                0 <= i < names.len() && #[trigger] names[i] == name) && (picked(
                names,
                requested,
            ) matches Ok(found) ==> found == name),
            None => picked(names, requested) is Ok == (names.len() == 1) && (picked(
                names,
                requested,
            ) matches Ok(found) ==> found == names[0]),
        },
{
    if let Some(name) = requested {
        if names.contains(name) {
            let i = choose|i: int| 0 <= i < names.len() && names[i] == name;
            assert(names[i] == name);
        }
    }
}

} // verus!
