use vstd::prelude::*;

use crate::syllable::{decode, syllable_of, Syllable, SYLLABLE_FIRST, SYLLABLE_LAST};

verus! {

/// The pieces of a text between line feeds, the last one possibly empty.
pub open spec fn pieces(s: Seq<char>) -> Seq<Seq<char>>
    decreases s.len(),
{
    if s.len() == 0 {
        seq![Seq::empty()]
    } else {
        let p = pieces(s.drop_last());
        if s.last() == '\n' {
            p.push(Seq::empty())
        } else {
            p.update(p.len() - 1, p.last().push(s.last()))
        }
    }
}

/// A line without the carriage return that ended it, if any.
pub open spec fn strip_cr(l: Seq<char>) -> Seq<char> {
    if l.len() > 0 && l.last() == '\r' {
        l.drop_last()
    } else {
        l
    }
}

/// The lines of a text: every piece that a line feed ends, without a
/// carriage return before that line feed, and the last piece if it is not
/// empty.
pub open spec fn lines(s: Seq<char>) -> Seq<Seq<char>> {
    let p = pieces(s);
    let ended = p.take(p.len() - 1).map_values(|l: Seq<char>| strip_cr(l));
    if p.last().len() == 0 {
        ended
    } else {
        ended.push(p.last())
    }
}

/// Total number of characters over all lines.
pub open spec fn total_len(ls: Seq<Seq<char>>) -> nat
    decreases ls.len(),
{
    if ls.len() == 0 {
        0
    } else {
        total_len(ls.drop_last()) + ls.last().len()
    }
}

/// One row of the grid: a cell for each character of the line, then empty
/// cells up to the width.
pub open spec fn row(line: Seq<char>, w: nat) -> Seq<Syllable> {
    Seq::new(
        w,
        |c: int|
            if c < line.len() {
                syllable_of(line[c])
            } else {
                Syllable { consonant: None, vowel: None }
            },
    )
}

/// The rows of the grid, one after the other.
pub open spec fn cells(ls: Seq<Seq<char>>, w: nat) -> Seq<Syllable>
    decreases ls.len(),
{
    if ls.len() == 0 {
        Seq::empty()
    } else {
        cells(ls.drop_last(), w) + row(ls.last(), w)
    }
}

pub proof fn lemma_cells_len(ls: Seq<Seq<char>>, w: nat)
    ensures
        cells(ls, w).len() == ls.len() * w,
    decreases ls.len(),
{
    if ls.len() > 0 {
        lemma_cells_len(ls.drop_last(), w);
        assert(cells(ls, w).len() == (ls.len() - 1) * w + w);
        assert((ls.len() - 1) * w + w == ls.len() * w) by (nonlinear_arith);
    }
}

/// A character of the syllable block.
pub open spec fn is_syllable(c: char) -> bool {
    SYLLABLE_FIRST <= c as u32 && c as u32 <= SYLLABLE_LAST
}

/// A text none of whose characters is a syllable.
pub open spec fn hangul_free(s: Seq<char>) -> bool {
    forall|k: int| 0 <= k < s.len() ==> !is_syllable(#[trigger] s[k])
}

proof fn lemma_pieces_len(s: Seq<char>)
    ensures
        pieces(s).len() >= 1,
    decreases s.len(),
{
    if s.len() > 0 {
        lemma_pieces_len(s.drop_last());
    }
}

proof fn lemma_pieces_hangul_free(s: Seq<char>)
    requires
        hangul_free(s),
    ensures
        forall|i: int| 0 <= i < pieces(s).len() ==> #[trigger] hangul_free(pieces(s)[i]),
    decreases s.len(),
{
    if s.len() > 0 {
        let prefix = s.drop_last();
        assert(hangul_free(prefix)) by {
            assert forall|k: int| 0 <= k < prefix.len() implies !is_syllable(#[trigger] prefix[k]) by {
                assert(prefix[k] == s[k]);
            }
        }
        lemma_pieces_hangul_free(prefix);
        lemma_pieces_len(prefix);
        let p = pieces(prefix);
        if s.last() != '\n' {
            assert(hangul_free(p.last().push(s.last()))) by {
                let l = p.last().push(s.last());
                assert forall|k: int| 0 <= k < l.len() implies !is_syllable(#[trigger] l[k]) by {
                    if k < l.len() - 1 {
                        assert(l[k] == p.last()[k]);
                        assert(hangul_free(p[p.len() - 1]));
                    } else {
                        assert(s[s.len() - 1] == s.last());
                    }
                }
            }
        }
        assert forall|i: int| 0 <= i < pieces(s).len() implies #[trigger] hangul_free(pieces(s)[i]) by {
            if i < p.len() && !(s.last() != '\n' && i == p.len() - 1) {
                assert(pieces(s)[i] == p[i]);
            }
        }
    }
}

/// The lines of a text without syllables hold no syllable.
pub proof fn lemma_lines_hangul_free(s: Seq<char>)
    requires
        hangul_free(s),
    ensures
        forall|i: int| 0 <= i < lines(s).len() ==> #[trigger] hangul_free(lines(s)[i]),
{
    lemma_pieces_hangul_free(s);
    lemma_pieces_len(s);
    let p = pieces(s);
    assert forall|i: int| 0 <= i < lines(s).len() implies #[trigger] hangul_free(lines(s)[i]) by {
        if i < p.len() - 1 {
            let l = p[i];
            assert(hangul_free(l));
            assert(lines(s)[i] == strip_cr(l));
            if l.len() > 0 && l.last() == '\r' {
                assert forall|k: int| 0 <= k < l.drop_last().len() implies !is_syllable(
                    #[trigger] l.drop_last()[k],
                ) by {
                    assert(l.drop_last()[k] == l[k]);
                }
            }
        } else {
            assert(lines(s)[i] == p.last());
            assert(hangul_free(p[p.len() - 1]));
        }
    }
}

/// A grid laid out from lines without syllables has only empty cells.
pub proof fn lemma_cells_blank(ls: Seq<Seq<char>>, w: nat)
    requires
        forall|i: int| 0 <= i < ls.len() ==> #[trigger] hangul_free(ls[i]),
    ensures
        forall|i: int|
            0 <= i < cells(ls, w).len() ==> #[trigger] cells(ls, w)[i] == (Syllable {
                consonant: None,
                vowel: None,
            }),
    decreases ls.len(),
{
    if ls.len() > 0 {
        let prev = ls.drop_last();
        assert forall|i: int| 0 <= i < prev.len() implies #[trigger] hangul_free(prev[i]) by {
            assert(prev[i] == ls[i]);
        }
        lemma_cells_blank(prev, w);
        let line = ls.last();
        assert(hangul_free(ls[ls.len() - 1]));
        let c = cells(ls, w);
        let a = cells(prev, w);
        assert forall|i: int| 0 <= i < c.len() implies #[trigger] c[i] == (Syllable {
            consonant: None,
            vowel: None,
        }) by {
            if i < a.len() {
                assert(c[i] == a[i]);
            } else {
                let j = i - a.len();
                assert(c[i] == row(line, w)[j]);
                if j < line.len() {
                    assert(!is_syllable(line[j]));
                }
            }
        }
    }
}

/// Relies on `str::chars`, collected into a `Vec`: the characters of the text, in order.
#[verifier::external_body]
fn chars_of(s: &str) -> (r: Vec<char>)
    ensures
        r@ == s@,
{
    s.chars().collect()
}

fn ends_with_cr(l: &Vec<char>) -> (r: bool)
    ensures
        r == (l@.len() > 0 && l@.last() == '\r'),
{
    l.len() > 0 && l[l.len() - 1] == '\r'
}

/// Splits a text into its lines.
pub fn split_lines(code: &str) -> (r: Vec<Vec<char>>)
    ensures
        r@.map_values(|l: Vec<char>| l@) == lines(code@),
        total_len(lines(code@)) <= code@.len(),
        code@.len() <= usize::MAX,
{
    let chars = chars_of(code);
    let mut done: Vec<Vec<char>> = Vec::new();
    let mut cur: Vec<char> = Vec::new();
    let mut i: usize = 0;
    proof {
        assert(chars@.take(0) =~= Seq::<char>::empty());
    }
    while i < chars.len()
        invariant
            i <= chars.len(),
            pieces(chars@.take(i as int)).len() >= 1,
            done@.map_values(|l: Vec<char>| l@) == pieces(chars@.take(i as int)).take(
                pieces(chars@.take(i as int)).len() - 1,
            ).map_values(|l: Seq<char>| strip_cr(l)),
            cur@ == pieces(chars@.take(i as int)).last(),
            total_len(done@.map_values(|l: Vec<char>| l@)) + cur@.len() <= i,
        decreases chars.len() - i,
    {
        let ghost prefix = chars@.take(i as int);
        let ghost p = pieces(prefix);
        let ghost old_done = done@.map_values(|l: Vec<char>| l@);
        let c = chars[i];
        assert(chars@.take(i + 1).drop_last() =~= prefix);
        if c == '\n' {
            let mut l = cur;
            if ends_with_cr(&l) {
                l.pop();
            }
            assert(l@ == strip_cr(p.last()));
            done.push(l);
            cur = Vec::new();
            proof {
                let np = pieces(chars@.take(i + 1));
                assert(np == p.push(Seq::empty()));
                assert(np.take(np.len() - 1) =~= p);
                assert(p =~= p.take(p.len() - 1).push(p.last()));
                assert(done@.map_values(|l: Vec<char>| l@) =~= old_done.push(strip_cr(p.last())));
                assert(done@.map_values(|l: Vec<char>| l@).drop_last() =~= old_done);
                assert(np.take(np.len() - 1).map_values(|l: Seq<char>| strip_cr(l)) =~= old_done.push(
                    strip_cr(p.last()),
                ));
            }
        } else {
            cur.push(c);
            proof {
                let np = pieces(chars@.take(i + 1));
                assert(np == p.update(p.len() - 1, p.last().push(c)));
                assert(np.take(np.len() - 1) =~= p.take(p.len() - 1));
            }
        }
        i = i + 1;
    }
    let n = chars.len();
    assert(chars@.take(n as int) =~= chars@);
    let ghost p = pieces(chars@);
    let ghost old_done = done@.map_values(|l: Vec<char>| l@);
    if cur.len() > 0 {
        done.push(cur);
        proof {
            assert(done@.map_values(|l: Vec<char>| l@) =~= old_done.push(p.last()));
            assert(done@.map_values(|l: Vec<char>| l@).drop_last() =~= old_done);
        }
    }
    done
}

/// Lays the lines out as a grid `w` cells wide, row by row.
pub fn build_cells(ls: &Vec<Vec<char>>, w: usize) -> (r: Vec<Syllable>)
    requires
        ls@.len() * w <= usize::MAX,
    ensures
        r@ == cells(ls@.map_values(|l: Vec<char>| l@), w as nat),
        r@.len() == ls@.len() * w,
        forall|i: int| 0 <= i < r@.len() ==> #[trigger] r@[i].wf(),
{
    let ghost lv = ls@.map_values(|l: Vec<char>| l@);
    let mut out: Vec<Syllable> = Vec::new();
    let mut r: usize = 0;
    proof {
        assert(lv.take(0) =~= Seq::<Seq<char>>::empty());
    }
    while r < ls.len()
        invariant
            r <= ls.len(),
            lv == ls@.map_values(|l: Vec<char>| l@),
            out@ == cells(lv.take(r as int), w as nat),
            forall|i: int| 0 <= i < out@.len() ==> #[trigger] out@[i].wf(),
        decreases ls.len() - r,
    {
        let line = &ls[r];
        let ghost base = out@;
        let mut c: usize = 0;
        while c < w
            invariant
                c <= w,
                r < ls.len(),
                line@ == lv[r as int],
                out@ == base + row(lv[r as int], w as nat).take(c as int),
                forall|i: int| 0 <= i < out@.len() ==> #[trigger] out@[i].wf(),
            decreases w - c,
        {
            if c < line.len() {
                out.push(decode(line[c]));
            } else {
                out.push(Syllable::empty());
            }
            proof {
                assert(row(lv[r as int], w as nat).take(c + 1) =~= row(lv[r as int], w as nat).take(
                    c as int,
                ).push(out@.last()));
            }
            c = c + 1;
        }
        proof {
            assert(row(lv[r as int], w as nat).take(w as int) =~= row(lv[r as int], w as nat));
            assert(lv.take(r + 1).drop_last() =~= lv.take(r as int));
        }
        r = r + 1;
    }
    proof {
        assert(lv.take(ls.len() as int) =~= lv);
        lemma_cells_len(lv, w as nat);
    }
    out
}

} // verus!
