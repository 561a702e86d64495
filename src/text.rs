use vstd::prelude::*;

use crate::block::{fuse, fuse_spec, is_queue, moves, scoped, sizes_after, BinOp, Line};
use crate::field::{Field, State, STORAGES};
use crate::linearizer::{body_ok, body_traced, entries, key_bound, walk, Body, Program, Terminator};
use crate::syllable::Syllable;

verus! {

/// The decimal digit `d` as text.
pub open spec fn digit(d: nat) -> Seq<char> {
    if d == 0 {
        "0"@
    } else if d == 1 {
        "1"@
    } else if d == 2 {
        "2"@
    } else if d == 3 {
        "3"@
    } else if d == 4 {
        "4"@
    } else if d == 5 {
        "5"@
    } else if d == 6 {
        "6"@
    } else if d == 7 {
        "7"@
    } else if d == 8 {
        "8"@
    } else {
        "9"@
    }
}

/// `n` in decimal, without leading zeros.
pub open spec fn dec(n: nat) -> Seq<char>
    decreases n,
{
    if n < 10 {
        digit(n)
    } else {
        dec(n / 10) + digit(n % 10)
    }
}

fn push_digit(out: &mut String, d: u128)
    requires
        d < 10,
    ensures
        final(out)@ == old(out)@ + digit(d as nat),
{
    match d {
        0 => out.append("0"),
        1 => out.append("1"),
        2 => out.append("2"),
        3 => out.append("3"),
        4 => out.append("4"),
        5 => out.append("5"),
        6 => out.append("6"),
        7 => out.append("7"),
        8 => out.append("8"),
        _ => out.append("9"),
    }
}

/// Appends `n` in decimal.
pub fn push_decimal(out: &mut String, n: u128)
    ensures
        final(out)@ == old(out)@ + dec(n as nat),
    decreases n,
{
    if n >= 10 {
        push_decimal(out, n / 10);
        push_digit(out, n % 10);
        assert(final(out)@ =~= old(out)@ + dec(n as nat));
    } else {
        push_digit(out, n);
    }
}

/// The text of a temporary.
pub open spec fn var(id: usize) -> Seq<char> {
    "v"@ + dec(id as nat)
}

pub open spec fn op_text(op: BinOp) -> Seq<char> {
    match op {
        BinOp::Add => " + "@,
        BinOp::Sub => " - "@,
        BinOp::Mul => " * "@,
        BinOp::Div => " / "@,
        BinOp::Rem => " % "@,
        BinOp::Ge => " >= "@,
    }
}

/// One statement of a block, with its indentation and line break.
pub open spec fn line_text(l: Line) -> Seq<char> {
    match l {
        Line::Hoist { storage, id } => if is_queue(storage) {
            "    size["@ + dec(storage as nat) + "]--; integer "@ + var(id) + " = pop_queue(&storage["@
                + dec(storage as nat) + "].queue);\n"@
        } else {
            "    integer "@ + var(id) + " = storage["@ + dec(storage as nat)
                + "].stack.memory[--size["@ + dec(storage as nat) + "]];\n"@
        },
        Line::Binary { id, op, lhs, rhs } => "    integer "@ + var(id) + " = "@ + var(lhs) + op_text(
            op,
        ) + var(rhs) + ";\n"@,
        Line::Print { unicode, arg } => if unicode {
            "    print_utf8(&output, "@ + var(arg) + ");\n"@
        } else {
            "    print_decimal(&output, "@ + var(arg) + ");\n"@
        },
        Line::Scan { id, unicode } => if unicode {
            "    integer "@ + var(id) + " = scan_utf8(&input);\n"@
        } else {
            "    integer "@ + var(id) + " = scan_decimal(&input);\n"@
        },
        Line::Constant { id, value } => "    integer "@ + var(id) + " = "@ + dec(value as nat)
            + ";\n"@,
        Line::Store { storage, arg } => if is_queue(storage) {
            "    size["@ + dec(storage as nat) + "]++; push_queue(&storage["@ + dec(storage as nat)
                + "].queue, "@ + var(arg) + ", size["@ + dec(storage as nat) + "]);\n"@
        } else {
            "    push_stack(&storage["@ + dec(storage as nat) + "].stack, size["@ + dec(
                storage as nat,
            ) + "]++, "@ + var(arg) + ");\n"@
        },
    }
}

pub open spec fn lines_text(ls: Seq<Line>) -> Seq<char>
    decreases ls.len(),
{
    if ls.len() == 0 {
        Seq::empty()
    } else {
        lines_text(ls.drop_last()) + line_text(ls.last())
    }
}

/// A block's label followed by its statements, in a scope of their own if there are any.
pub open spec fn body_text(label: nat, ls: Seq<Line>) -> Seq<char> {
    if ls.len() == 0 {
        "B"@ + dec(label) + ":"@
    } else {
        "B"@ + dec(label) + ":{\n"@ + lines_text(ls) + "}"@
    }
}

/// The label of block `i`: the two texts of each earlier block come before it.
pub open spec fn label_of(i: int) -> nat {
    (2 * i) as nat
}

pub open spec fn term_text(t: Terminator) -> Seq<char> {
    match t {
        Terminator::Halt { storage } => if is_queue(storage) {
            "    flush(&output); return size["@ + dec(storage as nat) + "] ? pop_queue(&storage["@
                + dec(storage as nat) + "].queue) : 0;"@
        } else {
            "    flush(&output); return size["@ + dec(storage as nat) + "] ? storage["@ + dec(
                storage as nat,
            ) + "].stack.memory[--size["@ + dec(storage as nat) + "]] : 0;"@
        },
        Terminator::Jump { target } => "    goto B"@ + dec(label_of(target as int)) + ";"@,
        Terminator::SizeCheck { storage, need, under, over } => "    if (size["@ + dec(
            storage as nat,
        ) + "] < "@ + dec(need as nat) + ") goto B"@ + dec(label_of(under as int))
            + "; else goto B"@ + dec(label_of(over as int)) + ";"@,
        Terminator::Branch { storage, nonzero, zero } => if is_queue(storage) {
            "    if ((size["@ + dec(storage as nat) + "]--, pop_queue(&storage["@ + dec(
                storage as nat,
            ) + "].queue))) goto B"@ + dec(label_of(nonzero as int)) + "; else goto B"@ + dec(
                label_of(zero as int),
            ) + ";"@
        } else {
            "    if (storage["@ + dec(storage as nat) + "].stack.memory[--size["@ + dec(
                storage as nat,
            ) + "]]) goto B"@ + dec(label_of(nonzero as int)) + "; else goto B"@ + dec(
                label_of(zero as int),
            ) + ";"@
        },
    }
}

/// What `fuse` may return for a body.
pub open spec fn fused(b: Body, ls: Seq<Line>) -> bool {
    &&& scoped(ls)
    &&& forall|s: usize|
        s < STORAGES ==> #[trigger] moves(ls, s, false) == if s == b.init_storage {
            b.presize as int
        } else {
            0
        }
    &&& forall|s: usize|
        s < STORAGES ==> #[trigger] moves(ls, s, true) == sizes_after(
            b.init_storage,
            b.presize as int,
            b.ops@,
        )[s as int]
}

/// The statements of a block body.
pub open spec fn body_lines(b: Body) -> Seq<Line> {
    fuse_spec(b.init_storage, b.presize as nat, b.ops@)
}

/// The first `n` blocks of a program as text, each body and each terminator
/// on its own line.
pub open spec fn blocks_text(p: Program, n: nat) -> Seq<char>
    decreases n,
{
    if n == 0 {
        Seq::empty()
    } else {
        let i = n - 1;
        blocks_text(p, (n - 1) as nat) + body_text(label_of(i), body_lines(p.bodies[i])) + "\n"@
            + term_text(p.terms[i]) + "\n"@
    }
}

fn push_var(out: &mut String, id: usize)
    ensures
        final(out)@ == old(out)@ + var(id),
{
    out.append("v");
    push_decimal(out, id as u128);
    assert(final(out)@ =~= old(out)@ + var(id));
}

fn push_hoist(out: &mut String, storage: usize, id: usize)
    ensures
        final(out)@ == old(out)@ + line_text(Line::Hoist { storage, id }),
{
    let ghost start = out@;
    if storage == 21 {
        out.append("    size[");
        push_decimal(out, storage as u128);
        out.append("]--; integer ");
        push_var(out, id);
        out.append(" = pop_queue(&storage[");
        push_decimal(out, storage as u128);
        out.append("].queue);\n");
    } else {
        out.append("    integer ");
        push_var(out, id);
        out.append(" = storage[");
        push_decimal(out, storage as u128);
        out.append("].stack.memory[--size[");
        push_decimal(out, storage as u128);
        out.append("]];\n");
    }
    assert(out@ =~= start + line_text(Line::Hoist { storage, id }));
}

fn push_store(out: &mut String, storage: usize, arg: usize)
    ensures
        final(out)@ == old(out)@ + line_text(Line::Store { storage, arg }),
{
    let ghost start = out@;
    if storage == 21 {
        out.append("    size[");
        push_decimal(out, storage as u128);
        out.append("]++; push_queue(&storage[");
        push_decimal(out, storage as u128);
        out.append("].queue, ");
        push_var(out, arg);
        out.append(", size[");
        push_decimal(out, storage as u128);
        out.append("]);\n");
    } else {
        out.append("    push_stack(&storage[");
        push_decimal(out, storage as u128);
        out.append("].stack, size[");
        push_decimal(out, storage as u128);
        out.append("]++, ");
        push_var(out, arg);
        out.append(");\n");
    }
    assert(out@ =~= start + line_text(Line::Store { storage, arg }));
}

fn push_op(out: &mut String, op: BinOp)
    ensures
        final(out)@ == old(out)@ + op_text(op),
{
    match op {
        BinOp::Add => out.append(" + "),
        BinOp::Sub => out.append(" - "),
        BinOp::Mul => out.append(" * "),
        BinOp::Div => out.append(" / "),
        BinOp::Rem => out.append(" % "),
        BinOp::Ge => out.append(" >= "),
    }
}

fn push_assigned(out: &mut String, l: Line)
    requires
        line_scoped_value(l),
        l is Binary || l is Scan || l is Constant,
    ensures
        final(out)@ == old(out)@ + line_text(l),
{
    let ghost start = out@;
    match l {
        Line::Binary { id, op, lhs, rhs } => {
            out.append("    integer ");
            push_var(out, id);
            out.append(" = ");
            push_var(out, lhs);
            push_op(out, op);
            push_var(out, rhs);
            out.append(";\n");
        },
        Line::Scan { id, unicode } => {
            out.append("    integer ");
            push_var(out, id);
            if unicode {
                out.append(" = scan_utf8(&input);\n");
            } else {
                out.append(" = scan_decimal(&input);\n");
            }
        },
        Line::Constant { id, value } => {
            out.append("    integer ");
            push_var(out, id);
            out.append(" = ");
            push_decimal(out, value as u128);
            out.append(";\n");
        },
        _ => {},
    }
    assert(out@ =~= start + line_text(l));
}

fn push_line(out: &mut String, l: &Line)
    requires
        line_scoped_value(*l),
    ensures
        final(out)@ == old(out)@ + line_text(*l),
{
    let ghost start = out@;
    match *l {
        Line::Hoist { storage, id } => push_hoist(out, storage, id),
        Line::Store { storage, arg } => push_store(out, storage, arg),
        Line::Print { unicode, arg } => {
            if unicode {
                out.append("    print_utf8(&output, ");
            } else {
                out.append("    print_decimal(&output, ");
            }
            push_var(out, arg);
            out.append(");\n");
            assert(out@ =~= start + line_text(*l));
        },
        _ => push_assigned(out, *l),
    }
}

/// A constant line holds a value of one digit.
pub open spec fn line_scoped_value(l: Line) -> bool {
    match l {
        Line::Constant { value, .. } => 0 <= value <= 9,
        _ => true,
    }
}

/// Renders a block's statements as its text, labelled `label`.
pub fn render_body(label: u128, ls: &Vec<Line>) -> (r: String)
    requires
        forall|i: int| 0 <= i < ls.len() ==> #[trigger] line_scoped_value(ls[i]),
    ensures
        r@ == body_text(label as nat, ls@),
{
    let mut out = String::new();
    out.append("B");
    push_decimal(&mut out, label);
    if ls.len() == 0 {
        out.append(":");
        return out;
    }
    out.append(":{\n");
    let ghost head = out@;
    let mut i: usize = 0;
    while i < ls.len()
        invariant
            i <= ls.len(),
            forall|j: int| 0 <= j < ls.len() ==> #[trigger] line_scoped_value(ls[j]),
            out@ == head + lines_text(ls@.take(i as int)),
        decreases ls.len() - i,
    {
        push_line(&mut out, &ls[i]);
        assert(ls@.take(i + 1).drop_last() =~= ls@.take(i as int));
        i = i + 1;
        assert(out@ =~= head + lines_text(ls@.take(i as int)));
    }
    assert(ls@.take(ls.len() as int) =~= ls@);
    out.append("}");
    assert(out@ =~= body_text(label as nat, ls@));
    out
}

proof fn lemma_fused_values(ls: Seq<Line>)
    requires
        scoped(ls),
    ensures
        forall|i: int| 0 <= i < ls.len() ==> #[trigger] line_scoped_value(ls[i]),
    decreases ls.len(),
{
    if ls.len() > 0 {
        lemma_fused_values(ls.drop_last());
        assert forall|i: int| 0 <= i < ls.len() implies #[trigger] line_scoped_value(ls[i]) by {
            if i < ls.len() - 1 {
                assert(ls[i] == ls.drop_last()[i]);
            }
        }
    }
}

/// Renders a block body: its entry values are taken off the entry storage
/// into temporaries, its operations become statements over them, and what
/// is left goes back onto the storages.
pub fn optimize_block(label: u128, body: &Body) -> (r: String)
    requires
        body_ok(*body),
    ensures
        r@ == body_text(label as nat, body_lines(*body)),
        fused(*body, body_lines(*body)),
{
    let ls = fuse(body.init_storage, body.presize, &body.ops);
    proof {
        lemma_fused_values(ls@);
    }
    let r = render_body(label, &ls);
    assert(fused(*body, ls@));
    r
}

fn push_halt(out: &mut String, storage: usize)
    ensures
        final(out)@ == old(out)@ + term_text(Terminator::Halt { storage }),
{
    let ghost start = out@;
    out.append("    flush(&output); return size[");
    push_decimal(out, storage as u128);
    if storage == 21 {
        out.append("] ? pop_queue(&storage[");
        push_decimal(out, storage as u128);
        out.append("].queue) : 0;");
    } else {
        out.append("] ? storage[");
        push_decimal(out, storage as u128);
        out.append("].stack.memory[--size[");
        push_decimal(out, storage as u128);
        out.append("]] : 0;");
    }
    assert(out@ =~= start + term_text(Terminator::Halt { storage }));
}

fn push_check(out: &mut String, storage: usize, need: usize, under: usize, over: usize)
    ensures
        final(out)@ == old(out)@ + term_text(Terminator::SizeCheck { storage, need, under, over }),
{
    let ghost start = out@;
    out.append("    if (size[");
    push_decimal(out, storage as u128);
    out.append("] < ");
    push_decimal(out, need as u128);
    out.append(") goto B");
    push_decimal(out, 2 * (under as u128));
    out.append("; else goto B");
    push_decimal(out, 2 * (over as u128));
    out.append(";");
    assert(out@ =~= start + term_text(Terminator::SizeCheck { storage, need, under, over }));
}

fn push_branch(out: &mut String, storage: usize, nonzero: usize, zero: usize)
    ensures
        final(out)@ == old(out)@ + term_text(Terminator::Branch { storage, nonzero, zero }),
{
    let ghost start = out@;
    if storage == 21 {
        out.append("    if ((size[");
        push_decimal(out, storage as u128);
        out.append("]--, pop_queue(&storage[");
        push_decimal(out, storage as u128);
        out.append("].queue))) goto B");
    } else {
        out.append("    if (storage[");
        push_decimal(out, storage as u128);
        out.append("].stack.memory[--size[");
        push_decimal(out, storage as u128);
        out.append("]]) goto B");
    }
    push_decimal(out, 2 * (nonzero as u128));
    out.append("; else goto B");
    push_decimal(out, 2 * (zero as u128));
    out.append(";");
    assert(out@ =~= start + term_text(Terminator::Branch { storage, nonzero, zero }));
}

/// Appends a terminator's text.
pub fn push_term(out: &mut String, t: &Terminator)
    ensures
        final(out)@ == old(out)@ + term_text(*t),
{
    match *t {
        Terminator::Halt { storage } => push_halt(out, storage),
        Terminator::Jump { target } => {
            let ghost start = out@;
            out.append("    goto B");
            push_decimal(out, 2 * (target as u128));
            out.append(";");
            assert(out@ =~= start + term_text(*t));
        },
        Terminator::SizeCheck { storage, need, under, over } => push_check(
            out,
            storage,
            need,
            under,
            over,
        ),
        Terminator::Branch { storage, nonzero, zero } => push_branch(out, storage, nonzero, zero),
    }
}

/// The statements of the block that starts at `e.0` with `e.1` values
/// guaranteed: the fusion of the walk from there.
pub open spec fn entry_lines(f: Field, code: Seq<Syllable>, e: (State, usize)) -> Seq<Line> {
    fuse_spec(
        e.0.storage,
        e.1 as nat,
        walk(
            f,
            code,
            e.0,
            Set::empty(),
            Seq::empty(),
            e.0.storage,
            e.1 as int,
            key_bound(f) as nat,
        ).0,
    )
}

/// The first `n` blocks, given by their entries and terminators, as text.
pub open spec fn traced_text(
    f: Field,
    code: Seq<Syllable>,
    es: Seq<(State, usize)>,
    ts: Seq<Terminator>,
    n: nat,
) -> Seq<char>
    decreases n,
{
    if n == 0 {
        Seq::empty()
    } else {
        let i = n - 1;
        traced_text(f, code, es, ts, (n - 1) as nat) + body_text(
            label_of(i),
            entry_lines(f, code, es[i]),
        ) + "\n"@ + term_text(ts[i]) + "\n"@
    }
}

/// A program's text depends only on its blocks' entries and terminators.
pub proof fn lemma_blocks_text_traced(f: Field, code: Seq<Syllable>, p: Program, n: nat)
    requires
        n <= p.bodies.len(),
        n <= p.terms.len(),
        forall|i: int| 0 <= i < p.bodies.len() ==> #[trigger] body_traced(f, code, p.bodies[i]),
    ensures
        blocks_text(p, n) == traced_text(f, code, entries(p.bodies@), p.terms@, n),
    decreases n,
{
    if n > 0 {
        lemma_blocks_text_traced(f, code, p, (n - 1) as nat);
        assert(body_traced(f, code, p.bodies[n - 1]));
    }
}

/// Renders every block of a program, in order, each body and each
/// terminator followed by a line break.
pub fn render_blocks(out: &mut String, p: &Program)
    requires
        p.wf(),
    ensures
        final(out)@ == old(out)@ + blocks_text(*p, p.bodies.len() as nat),
{
    let ghost start = out@;
    let mut i: usize = 0;
    while i < p.bodies.len()
        invariant
            p.wf(),
            i <= p.bodies.len(),
            out@ == start + blocks_text(*p, i as nat),
        decreases p.bodies.len() - i,
    {
        assert(body_ok(p.bodies[i as int]));
        let text = optimize_block(2 * (i as u128), &p.bodies[i]);
        out.append(text.as_str());
        out.append("\n");
        push_term(out, &p.terms[i]);
        out.append("\n");
        i = i + 1;
        assert(out@ =~= start + blocks_text(*p, i as nat));
    }
}

} // verus!
