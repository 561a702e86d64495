use vstd::prelude::*;

pub mod block;
pub mod field;
pub mod grid;
pub mod linearizer;
pub mod runtime;
pub mod syllable;
pub mod text;

use crate::block::{fuse_spec, hoisted, stored, Line};
use crate::field::{Field, STORAGES};
use crate::grid::{build_cells, cells, hangul_free, lines, split_lines, total_len};
use crate::grid::{lemma_cells_blank, lemma_cells_len, lemma_lines_hangul_free};
use crate::linearizer::{entries, start_state, traced_grid, Linearizer, Program, Terminator};
use crate::linearizer::lemma_trace_blank;
use crate::runtime::{FOOTER, HEADER};
use crate::syllable::Syllable;
use crate::text::{blocks_text, body_text, entry_lines, render_blocks, term_text, traced_text};
use crate::text::lemma_blocks_text_traced;

verus! {

/// Width of the grid of a program text: the characters of all its lines
/// together.
pub open spec fn grid_width(code: Seq<char>) -> nat {
    total_len(lines(code))
}

/// Height of the grid of a program text: its number of lines.
pub open spec fn grid_height(code: Seq<char>) -> nat {
    lines(code).len()
}

/// A program text whose grid has at least one cell and can be held in memory.
pub open spec fn transpilable(code: Seq<char>) -> bool {
    grid_width(code) >= 1 && grid_width(code) * grid_height(code) <= usize::MAX
}

/// The grid of a program text.
pub open spec fn field_of(code: Seq<char>) -> Field {
    Field { w: grid_width(code) as usize, h: grid_height(code) as usize }
}

/// The cells of the grid of a program text, row by row.
pub open spec fn cells_of(code: Seq<char>) -> Seq<Syllable> {
    cells(lines(code), grid_width(code))
}

/// The C program for a program text: the prelude, the traced blocks of its
/// grid, and the epilogue. It depends on the text alone.
pub open spec fn transpiled(code: Seq<char>) -> Seq<char> {
    let t = traced_grid(field_of(code), cells_of(code));
    HEADER@ + traced_text(field_of(code), cells_of(code), t.0, t.1, t.0.len()) + FOOTER@
}

/// Every text without syllables gives the same program: a single block that
/// does nothing and jumps to itself.
pub proof fn hangul_free_text_loops(code: Seq<char>)
    requires
        transpilable(code),
        hangul_free(code),
    ensures
        transpiled(code) == HEADER@ + body_text(0, Seq::empty()) + "\n"@ + term_text(
            Terminator::Jump { target: 0 },
        ) + "\n"@ + FOOTER@,
{
    let f = field_of(code);
    let w = grid_width(code);
    let h = grid_height(code);
    if h == 0 {
        assert(lines(code) =~= Seq::<Seq<char>>::empty());
    }
    assert(w <= w * h && h <= w * h) by (nonlinear_arith)
        requires
            w >= 1,
            h >= 1,
    ;
    assert(f.w == w && f.h == h);
    lemma_lines_hangul_free(code);
    lemma_cells_blank(lines(code), grid_width(code));
    lemma_cells_len(lines(code), grid_width(code));
    assert(h * w == w * h) by (nonlinear_arith);
    lemma_trace_blank(f, cells_of(code));
    lemma_stored_blank(STORAGES as nat);
    assert(hoisted(0, 0).2 + stored(hoisted(0, 0).0, STORAGES as nat) =~= Seq::<Line>::empty());
    assert(fuse_spec(0, 0, Seq::empty()) == Seq::<Line>::empty());
    let t = traced_grid(f, cells_of(code));
    assert(t.0.len() == 1);
    assert(t.0[0] == (start_state(), 0usize));
    assert(entry_lines(f, cells_of(code), t.0[0]) == Seq::<Line>::empty());
    let one = body_text(0, Seq::empty()) + "\n"@ + term_text(Terminator::Jump { target: 0 }) + "\n"@;
    assert(traced_text(f, cells_of(code), t.0, t.1, 0) == Seq::<char>::empty());
    assert(t.1[0] == Terminator::Jump { target: 0 });
    assert(traced_text(f, cells_of(code), t.0, t.1, 1) =~= one);
    assert(transpiled(code) =~= HEADER@ + one + FOOTER@);
}

proof fn lemma_stored_blank(n: nat)
    requires
        n <= STORAGES,
    ensures
        stored(hoisted(0, 0).0, n) == Seq::<Line>::empty(),
    decreases n,
{
    if n > 0 {
        lemma_stored_blank((n - 1) as nat);
        let v = hoisted(0, 0).0;
        assert(v[n - 1].len() == 0);
        assert(Seq::new(
            v[n - 1].len(),
            |j: int| Line::Store { storage: (n - 1) as usize, arg: v[n - 1][j] },
        ) =~= Seq::<Line>::empty());
        assert(stored(v, n) =~= Seq::<Line>::empty());
    }
}

/// Width and height of the grid of a program text.
pub fn dimensions(code: &str) -> (r: (usize, usize))
    ensures
        r.0 == grid_width(code@),
        r.1 == grid_height(code@),
{
    let ls = split_lines(code);
    let mut w: usize = 0;
    let mut i: usize = 0;
    let ghost lv = ls@.map_values(|l: Vec<char>| l@);
    proof {
        assert(lv.take(0) =~= Seq::<Seq<char>>::empty());
        lemma_total_len_prefix(lv, lv.len() as int);
        assert(lv.take(lv.len() as int) =~= lv);
    }
    while i < ls.len()
        invariant
            i <= ls.len(),
            lv == ls@.map_values(|l: Vec<char>| l@),
            lv == lines(code@),
            total_len(lv) <= code@.len(),
            code@.len() <= usize::MAX,
            w == total_len(lv.take(i as int)),
            forall|k: int| 0 <= k <= lv.len() ==> #[trigger] total_len(lv.take(k)) <= total_len(lv),
        decreases ls.len() - i,
    {
        assert(lv.take(i + 1).drop_last() =~= lv.take(i as int));
        assert(total_len(lv.take(i + 1)) <= total_len(lv));
        w = w + ls[i].len();
        i = i + 1;
    }
    assert(lv.take(ls.len() as int) =~= lv);
    (w, ls.len())
}

proof fn lemma_total_len_prefix(ls: Seq<Seq<char>>, n: int)
    requires
        0 <= n <= ls.len(),
    ensures
        forall|k: int| 0 <= k <= n ==> #[trigger] total_len(ls.take(k)) <= total_len(ls.take(n)),
    decreases n,
{
    if n > 0 {
        lemma_total_len_prefix(ls, n - 1);
        assert(ls.take(n).drop_last() =~= ls.take(n - 1));
        assert forall|k: int| 0 <= k <= n implies #[trigger] total_len(ls.take(k)) <= total_len(
            ls.take(n),
        ) by {
            if k == n {
            } else {
                assert(total_len(ls.take(k)) <= total_len(ls.take(n - 1)));
            }
        }
    }
    if n == ls.len() {
        assert(ls.take(n) =~= ls);
    }
}

/// Translates a program text into a C program.
///
/// The result is the fixed prelude, then the program's blocks, then the fixed
/// epilogue. The blocks are the trace of the text's grid: the first starts at
/// the top left cell, each is the walk from its entry state, and each
/// terminator leads to the blocks that start where that walk continues. They
/// form a well-formed program: each ends in exactly one terminator, every
/// jump lands on a block of the same output, and no block takes more values
/// off a storage than its entry and its own earlier operations guarantee. There are at most as many blocks as pairs of a
/// machine state and a guaranteed entry size: 672 for each cell.
pub fn transpile(code: &str) -> (r: String)
    requires
        transpilable(code@),
    ensures
        r@ == transpiled(code@),
        exists|p: Program|
            {
                &&& p.traces(field_of(code@), cells_of(code@))
                &&& entries(p.bodies@) == traced_grid(field_of(code@), cells_of(code@)).0
                &&& p.terms@ == traced_grid(field_of(code@), cells_of(code@)).1
                &&& p.bodies.len() <= grid_width(code@) * grid_height(code@) * 672
                &&& r@ == HEADER@ + blocks_text(p, p.bodies.len() as nat) + FOOTER@
            },
{
    let (w, h) = dimensions(code);
    let ls = split_lines(code);
    proof {
        assert(ls@.map_values(|l: Vec<char>| l@).len() == ls@.len());
        if h == 0 {
            assert(lines(code@) =~= Seq::<Seq<char>>::empty());
        }
        assert(h * w == w * h) by (nonlinear_arith);
    }
    let syllables = build_cells(&ls, w);
    let field = Field { w, h };
    let program = Linearizer::new(&field, syllables).linearize();
    let mut output = String::from_str(HEADER);
    render_blocks(&mut output, &program);
    output.append(FOOTER);
    proof {
        lemma_blocks_text_traced(field, syllables@, program, program.bodies.len() as nat);
    }
    output
}

} // verus!
