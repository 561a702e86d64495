use vstd::prelude::*;

use std::collections::{HashMap, HashSet};
use vstd::arithmetic::div_mod::lemma_fundamental_div_mod_converse;

use crate::block::{need, ops_safe, recordable, sizes_after, storage_after};
use crate::block::{lemma_init_in_range, lemma_safe_recordable, lemma_storage_in_range};
use crate::field::{flip, horizontal_flip, reversed_step, step, vertical_flip};
use crate::field::{Direction, Field, State, STORAGES};
use crate::syllable::{Consonant, Syllable, Vowel};

verus! {

broadcast use vstd::std_specs::hash::group_hash_axioms;

/// The end of a block. Targets are block indices.
#[derive(Clone, Copy, Debug, PartialEq, Eq, Structural)]
pub enum Terminator {
    /// Stops the program, returning the top of `storage` (or 0).
    Halt { storage: usize },
    /// Continues at `target`.
    Jump { target: usize },
    /// Continues at `under` if `storage` holds fewer than `need` values, else at `over`.
    SizeCheck { storage: usize, need: usize, under: usize, over: usize },
    /// Takes a value off `storage`: nonzero continues at `nonzero`, zero at `zero`.
    Branch { storage: usize, nonzero: usize, zero: usize },
}

/// The straight-line part of a block: the state it starts from, what its
/// entry guarantees and the operations it runs before its terminator.
#[derive(Clone, Debug)]
pub struct Body {
    pub entry: State,
    pub init_storage: usize,
    pub presize: usize,
    pub ops: Vec<Consonant>,
}

/// The blocks of a program: block `i` is `bodies[i]` followed by `terms[i]`.
#[derive(Clone, Debug)]
pub struct Program {
    pub bodies: Vec<Body>,
    pub terms: Vec<Terminator>,
}

/// Block `t` exists and is entered with nothing guaranteed.
pub open spec fn plain_target(bodies: Seq<Body>, t: usize) -> bool {
    t < bodies.len() && bodies[t as int].presize == 0
}

/// Every target of the terminator is a block, and every block that a target
/// enters with a guaranteed size is reached only after a check of that size.
pub open spec fn term_ok(bodies: Seq<Body>, t: Terminator) -> bool {
    match t {
        Terminator::Halt { storage } => storage < STORAGES,
        Terminator::Jump { target } => plain_target(bodies, target),
        Terminator::SizeCheck { storage, need, under, over } => {
            &&& storage < STORAGES
            &&& 1 <= need <= 2
            &&& plain_target(bodies, under)
            &&& over < bodies.len()
            &&& bodies[over as int].presize == need
            &&& bodies[over as int].init_storage == storage
        },
        Terminator::Branch { storage, nonzero, zero } => {
            &&& storage < STORAGES
            &&& plain_target(bodies, nonzero)
            &&& plain_target(bodies, zero)
        },
    }
}

/// A block's operations run without underflow from what its entry guarantees.
pub open spec fn body_ok(b: Body) -> bool {
    b.presize <= 2 && ops_safe(b.init_storage, b.presize as int, b.ops@)
}

impl Program {
    /// One terminator per block, every jump lands on a block, every block is
    /// free of underflow, and a block entered with a guaranteed size is
    /// reached only through a check of that size; the first block guarantees
    /// nothing.
    pub open spec fn wf(&self) -> bool {
        &&& self.bodies.len() == self.terms.len()
        &&& self.bodies.len() >= 1
        &&& self.bodies[0].presize == 0
        &&& forall|i: int| 0 <= i < self.bodies.len() ==> #[trigger] body_ok(self.bodies[i])
        &&& forall|i: int|
            0 <= i < self.terms.len() ==> #[trigger] term_ok(self.bodies@, self.terms[i])
    }
}

/// The blocks a terminator may continue at.
pub open spec fn targets(t: Terminator) -> Set<usize> {
    match t {
        Terminator::Halt { .. } => Set::empty(),
        Terminator::Jump { target } => set![target],
        Terminator::SizeCheck { under, over, .. } => set![under, over],
        Terminator::Branch { nonzero, zero, .. } => set![nonzero, zero],
    }
}

/// Every jump of a well-formed program lands on one of its blocks.
pub proof fn label_closure(p: Program, i: int)
    requires
        p.wf(),
        0 <= i < p.terms.len(),
    ensures
        forall|t: usize| #[trigger] targets(p.terms[i]).contains(t) ==> t < p.bodies.len(),
{
    assert(term_ok(p.bodies@, p.terms[i]));
}

/// Each block of a well-formed program has exactly one terminator, at its
/// end: none of its inline operations halts or branches.
pub proof fn single_terminator(p: Program, i: int)
    requires
        p.wf(),
        0 <= i < p.bodies.len(),
    ensures
        p.terms.len() == p.bodies.len(),
        forall|j: int|
            0 <= j < p.bodies[i].ops.len() ==> !(#[trigger] p.bodies[i].ops[j] is Halt)
                && !(p.bodies[i].ops[j] is Branch),
{
    assert(body_ok(p.bodies[i]));
    lemma_safe_recordable(p.bodies[i].init_storage, p.bodies[i].presize as int, p.bodies[i].ops@);
    assert forall|j: int| 0 <= j < p.bodies[i].ops.len() implies !(
    #[trigger] p.bodies[i].ops[j] is Halt) && !(p.bodies[i].ops[j] is Branch) by {
        assert(recordable(p.bodies[i].ops@[j]));
    }
}

/// No operation of a well-formed program underflows. Each block's inline
/// operations find the values they need, counting what its entry guarantees;
/// the first block guarantees nothing, and a block that guarantees values is
/// entered only from a check of exactly that many values on its entry storage.
pub proof fn underflow_safety(p: Program, i: int)
    requires
        p.wf(),
        0 <= i < p.bodies.len(),
    ensures
        ops_safe(p.bodies[i].init_storage, p.bodies[i].presize as int, p.bodies[i].ops@),
        p.bodies[0].presize == 0,
        forall|k: int|
            0 <= k < p.terms.len() && #[trigger] targets(p.terms[k]).contains(i as usize)
                && p.bodies[i].presize > 0 ==> match p.terms[k] {
                Terminator::SizeCheck { storage, need, over, .. } => {
                    &&& over == i
                    &&& need == p.bodies[i].presize
                    &&& storage == p.bodies[i].init_storage
                },
                _ => false,
            },
{
    assert(body_ok(p.bodies[i]));
    assert forall|k: int|
        0 <= k < p.terms.len() && #[trigger] targets(p.terms[k]).contains(i as usize)
            && p.bodies[i].presize > 0 implies match p.terms[k] {
        Terminator::SizeCheck { storage, need, over, .. } => {
            &&& over == i
            &&& need == p.bodies[i].presize
            &&& storage == p.bodies[i].init_storage
        },
        _ => false,
    } by {
        assert(term_ok(p.bodies@, p.terms[k]));
    }
}

/// Position of a direction in the memo key.
pub open spec fn dir_index(d: Direction) -> int {
    match d {
        Direction::Up => 0,
        Direction::Down => 1,
        Direction::Left => 2,
        Direction::Right => 3,
    }
}

/// Number of distinct memo keys of a field.
pub open spec fn key_bound(f: Field) -> int {
    f.w * f.h * 672
}

/// The memo key of a state entered with a guaranteed size.
pub open spec fn key_of(f: Field, s: State, presize: int) -> int {
    ((((s.r * f.w + s.c) * 4 + dir_index(s.direction)) * 2 + (s.speed - 1)) * 28 + s.storage) * 3
        + presize
}

proof fn lemma_key(f: Field, s: State, presize: int)
    requires
        f.wf(),
        f.holds(s),
        0 <= presize < 3,
    ensures
        0 <= key_of(f, s, presize) < key_bound(f),
        key_of(f, s, presize) % 3 == presize,
        (key_of(f, s, presize) / 3) % 28 == s.storage,
        0 <= s.r * f.w + s.c < f.w * f.h,
{
    let pos = s.r * f.w + s.c;
    assert(0 <= pos < f.w * f.h) by (nonlinear_arith)
        requires
            s.r < f.h,
            s.c < f.w,
            pos == s.r * f.w + s.c,
    ;
    let a = ((pos * 4 + dir_index(s.direction)) * 2 + (s.speed - 1)) * 28 + s.storage;
    assert(0 <= a < (pos + 1) * 224) by (nonlinear_arith)
        requires
            0 <= pos,
            0 <= dir_index(s.direction) < 4,
            0 <= s.speed - 1 < 2,
            s.storage < 28,
            a == ((pos * 4 + dir_index(s.direction)) * 2 + (s.speed - 1)) * 28 + s.storage,
    ;
    assert((pos + 1) * 672 <= f.w * f.h * 672) by (nonlinear_arith)
        requires
            pos < f.w * f.h,
    ;
    lemma_fundamental_div_mod_converse(a * 3 + presize, 3, a, presize);
    let b = (pos * 4 + dir_index(s.direction)) * 2 + (s.speed - 1);
    lemma_fundamental_div_mod_converse(a, 28, b, s.storage as int);
}

proof fn lemma_key_injective(f: Field, s1: State, presize_a: int, s2: State, presize_b: int)
    requires
        f.wf(),
        f.holds(s1),
        f.holds(s2),
        0 <= presize_a < 3,
        0 <= presize_b < 3,
        key_of(f, s1, presize_a) == key_of(f, s2, presize_b),
    ensures
        s1 == s2,
        presize_a == presize_b,
{
    let pos1 = s1.r * f.w + s1.c;
    let pos2 = s2.r * f.w + s2.c;
    let b1 = (pos1 * 4 + dir_index(s1.direction)) * 2 + (s1.speed - 1);
    let b2 = (pos2 * 4 + dir_index(s2.direction)) * 2 + (s2.speed - 1);
    let a1 = b1 * 28 + s1.storage;
    let a2 = b2 * 28 + s2.storage;
    let k = key_of(f, s1, presize_a);
    lemma_fundamental_div_mod_converse(k, 3, a1, presize_a);
    lemma_fundamental_div_mod_converse(k, 3, a2, presize_b);
    lemma_fundamental_div_mod_converse(a1, 28, b1, s1.storage as int);
    lemma_fundamental_div_mod_converse(a1, 28, b2, s2.storage as int);
    lemma_fundamental_div_mod_converse(b1, 2, pos1 * 4 + dir_index(s1.direction), s1.speed - 1);
    lemma_fundamental_div_mod_converse(b1, 2, pos2 * 4 + dir_index(s2.direction), s2.speed - 1);
    let c1 = pos1 * 4 + dir_index(s1.direction);
    lemma_fundamental_div_mod_converse(c1, 4, pos1, dir_index(s1.direction));
    lemma_fundamental_div_mod_converse(c1, 4, pos2, dir_index(s2.direction));
    lemma_fundamental_div_mod_converse(pos1, f.w as int, s1.r as int, s1.c as int);
    lemma_fundamental_div_mod_converse(pos1, f.w as int, s2.r as int, s2.c as int);
}

/// A set of numbers below `n` has at most `n` elements.
proof fn lemma_bounded_len(s: Set<u128>, n: nat)
    requires
        forall|x: u128| s.contains(x) ==> x < n,
    ensures
        s.finite(),
        s.len() <= n,
{
    let all = Set::new(|x: u128| x < n);
    lemma_range_len(n);
    vstd::set_lib::lemma_len_subset(s, all);
}

proof fn lemma_range_len(n: nat)
    ensures
        Set::new(|x: u128| x < n).finite(),
        Set::new(|x: u128| x < n).len() <= n,
    decreases n,
{
    if n == 0 {
        assert(Set::new(|x: u128| x < n) =~= Set::<u128>::empty());
    } else {
        lemma_range_len((n - 1) as nat);
        let prev = Set::new(|x: u128| x < (n - 1) as nat);
        if n - 1 <= u128::MAX {
            assert(Set::new(|x: u128| x < n) =~= prev.insert((n - 1) as u128));
        } else {
            assert(Set::new(|x: u128| x < n) =~= prev);
        }
    }
}

/// The state after the cell's vowel changed its direction or speed.
pub open spec fn turned(s: State, v: Option<Vowel>) -> State {
    match v {
        None => s,
        Some(Vowel::Up) => State { direction: Direction::Up, speed: 1, ..s },
        Some(Vowel::Down) => State { direction: Direction::Down, speed: 1, ..s },
        Some(Vowel::Left) => State { direction: Direction::Left, speed: 1, ..s },
        Some(Vowel::Right) => State { direction: Direction::Right, speed: 1, ..s },
        Some(Vowel::UpTwo) => State { direction: Direction::Up, speed: 2, ..s },
        Some(Vowel::DownTwo) => State { direction: Direction::Down, speed: 2, ..s },
        Some(Vowel::LeftTwo) => State { direction: Direction::Left, speed: 2, ..s },
        Some(Vowel::RightTwo) => State { direction: Direction::Right, speed: 2, ..s },
        Some(Vowel::HorizontalFlip) => State { direction: horizontal_flip(s.direction), ..s },
        Some(Vowel::VerticalFlip) => State { direction: vertical_flip(s.direction), ..s },
        Some(Vowel::Flip) => State { direction: flip(s.direction), ..s },
    }
}

fn turn(s: State, v: Option<Vowel>) -> (r: State)
    ensures
        r == turned(s, v),
{
    match v {
        None => s,
        Some(Vowel::Up) => State { direction: Direction::Up, speed: 1, ..s },
        Some(Vowel::Down) => State { direction: Direction::Down, speed: 1, ..s },
        Some(Vowel::Left) => State { direction: Direction::Left, speed: 1, ..s },
        Some(Vowel::Right) => State { direction: Direction::Right, speed: 1, ..s },
        Some(Vowel::UpTwo) => State { direction: Direction::Up, speed: 2, ..s },
        Some(Vowel::DownTwo) => State { direction: Direction::Down, speed: 2, ..s },
        Some(Vowel::LeftTwo) => State { direction: Direction::Left, speed: 2, ..s },
        Some(Vowel::RightTwo) => State { direction: Direction::Right, speed: 2, ..s },
        Some(Vowel::HorizontalFlip) => State { direction: s.direction.horizontally_flipped(), ..s },
        Some(Vowel::VerticalFlip) => State { direction: s.direction.vertically_flipped(), ..s },
        Some(Vowel::Flip) => State { direction: s.direction.flipped(), ..s },
    }
}

fn required(op: Consonant) -> (r: usize)
    ensures
        r == need(op),
{
    match op {
        Consonant::Add | Consonant::Subtract | Consonant::Multiply | Consonant::Divide
        | Consonant::Remainder | Consonant::Compare | Consonant::Exchange => 2,
        Consonant::PrintDecimal | Consonant::PrintUnicode | Consonant::Pop
        | Consonant::Duplicate | Consonant::Move(_) | Consonant::Branch => 1,
        _ => 0,
    }
}

/// How a traced block ends.
pub enum Exit {
    /// The trace came back to a state it had already passed in this block.
    Loop { state: State },
    /// The cell halts the program.
    Halt { storage: usize },
    /// The cell needs `need` values that the block cannot vouch for: it
    /// continues at `reverse` without them, and retries the cell from `retry`
    /// with them.
    Check { storage: usize, need: usize, reverse: State, retry: State },
    /// The cell branches on the value it takes off `storage`.
    Branch { storage: usize, reverse: State, forward: State },
}

pub open spec fn exit_ok(f: Field, e: Exit) -> bool {
    match e {
        Exit::Loop { state } => f.holds(state),
        Exit::Halt { storage } => storage < STORAGES,
        Exit::Check { storage, need, reverse, retry } => {
            &&& storage < STORAGES
            &&& 1 <= need <= 2
            &&& f.holds(reverse)
            &&& f.holds(retry)
            &&& retry.storage == storage
        },
        Exit::Branch { storage, reverse, forward } => {
            &&& storage < STORAGES
            &&& f.holds(reverse)
            &&& f.holds(forward)
        },
    }
}

/// The cell under a state.
pub open spec fn cell_at(f: Field, code: Seq<Syllable>, s: State) -> Syllable {
    code[s.r * f.w + s.c]
}

/// How the cell under `s` ends the block, given the sizes the block vouches
/// for: by halting, by a check of a size it cannot vouch for, or by a branch.
pub open spec fn cell_exit(f: Field, code: Seq<Syllable>, s: State, sizes: Seq<int>) -> Option<Exit> {
    let t = turned(s, cell_at(f, code, s).vowel);
    match cell_at(f, code, s).consonant {
        None => None,
        Some(Consonant::Halt) => Some(Exit::Halt { storage: t.storage }),
        Some(op) => if sizes[t.storage as int] < need(op) {
            Some(
                Exit::Check {
                    storage: t.storage,
                    need: need(op) as usize,
                    reverse: reversed_step(f, t),
                    retry: s,
                },
            )
        } else if op is Branch {
            Some(Exit::Branch { storage: t.storage, reverse: reversed_step(f, t), forward: step(f, t) })
        } else {
            None
        },
    }
}

/// The state after the cell under `s`, when it does not end the block.
pub open spec fn cell_next(f: Field, code: Seq<Syllable>, s: State) -> State {
    let t = turned(s, cell_at(f, code, s).vowel);
    match cell_at(f, code, s).consonant {
        Some(Consonant::Select(i)) => step(f, State { storage: i, ..t }),
        _ => step(f, t),
    }
}

/// The operation the cell under `s` adds to the block, when it does not end it.
pub open spec fn cell_ops(f: Field, code: Seq<Syllable>, s: State) -> Seq<Consonant> {
    match cell_at(f, code, s).consonant {
        Some(op) => seq![op],
        None => Seq::empty(),
    }
}

/// The identity of a state among the states of a field.
pub open spec fn state_id(f: Field, s: State) -> u128 {
    key_of(f, s, 0) as u128
}

/// Walks the grid from `s` in a block that has recorded `ops` and passed the
/// states `seen`: the block's operations and how it ends. It ends at a state
/// it has passed already, or where a cell ends it.
pub open spec fn walk(
    f: Field,
    code: Seq<Syllable>,
    s: State,
    seen: Set<u128>,
    ops: Seq<Consonant>,
    init: usize,
    presize: int,
    fuel: nat,
) -> (Seq<Consonant>, Exit)
    decreases fuel,
{
    if seen.contains(state_id(f, s)) || fuel == 0 {
        (ops, Exit::Loop { state: s })
    } else {
        match cell_exit(f, code, s, sizes_after(init, presize, ops)) {
            Some(e) => (ops, e),
            None => walk(
                f,
                code,
                cell_next(f, code, s),
                seen.insert(state_id(f, s)),
                ops + cell_ops(f, code, s),
                init,
                presize,
                (fuel - 1) as nat,
            ),
        }
    }
}

/// The operations and the end of the block that starts as `b` does.
pub open spec fn block_walk(f: Field, code: Seq<Syllable>, b: Body) -> (Seq<Consonant>, Exit) {
    walk(
        f,
        code,
        b.entry,
        Set::empty(),
        Seq::empty(),
        b.entry.storage,
        b.presize as int,
        key_bound(f) as nat,
    )
}

/// The terminator carries out the end of the block: it continues at blocks
/// that start at the states that the end leads to.
pub open spec fn term_matches(bodies: Seq<Body>, t: Terminator, e: Exit) -> bool {
    match e {
        Exit::Loop { state } => match t {
            Terminator::Jump { target } => target < bodies.len() && bodies[target as int].entry
                == state,
            _ => false,
        },
        Exit::Halt { storage } => t == Terminator::Halt { storage },
        Exit::Check { storage, need, reverse, retry } => match t {
            Terminator::SizeCheck { storage: s2, need: n2, under, over } => {
                &&& s2 == storage
                &&& n2 == need
                &&& under < bodies.len()
                &&& over < bodies.len()
                &&& bodies[under as int].entry == reverse
                &&& bodies[over as int].entry == retry
            },
            _ => false,
        },
        Exit::Branch { storage, reverse, forward } => match t {
            Terminator::Branch { storage: s2, nonzero, zero } => {
                &&& s2 == storage
                &&& nonzero < bodies.len()
                &&& zero < bodies.len()
                &&& bodies[zero as int].entry == reverse
                &&& bodies[nonzero as int].entry == forward
            },
            _ => false,
        },
    }
}

/// What tracing has produced so far: each block's entry state and
/// guaranteed size, the terminators, and the memo from keys to blocks.
pub type Traced = (Seq<(State, usize)>, Seq<Terminator>, Map<u128, usize>);

/// Tracing from `s` entered with `p` values guaranteed, depth first: a state
/// met before with the same guarantee reuses its block; otherwise a new block
/// is recorded, the blocks its end leads to are traced (the reverse arm
/// first), and its terminator is filled in. Gives the new record and the
/// block that starts at `s`.
pub open spec fn trace(
    f: Field,
    code: Seq<Syllable>,
    t: Traced,
    s: State,
    p: usize,
    fuel: nat,
) -> (Traced, usize)
    decreases fuel,
{
    let (es, ts, memo) = t;
    let key = key_of(f, s, p as int) as u128;
    if memo.contains_key(key) {
        (t, memo[key])
    } else if fuel == 0 {
        (t, 0)
    } else {
        let i = es.len() as usize;
        let t1 = (es.push((s, p)), ts.push(Terminator::Halt { storage: s.storage }), memo.insert(key, i));
        let exit = walk(
            f,
            code,
            s,
            Set::empty(),
            Seq::empty(),
            s.storage,
            p as int,
            key_bound(f) as nat,
        ).1;
        match exit {
            Exit::Loop { state } => {
                let (t2, j) = trace(f, code, t1, state, 0, (fuel - 1) as nat);
                ((t2.0, t2.1.update(i as int, Terminator::Jump { target: j }), t2.2), i)
            },
            Exit::Halt { storage } => ((t1.0, t1.1.update(i as int, Terminator::Halt { storage }), t1.2), i),
            Exit::Check { storage, need, reverse, retry } => {
                let (t2, j) = trace(f, code, t1, reverse, 0, (fuel - 1) as nat);
                let (t3, k) = trace(f, code, t2, retry, need, (fuel - 1) as nat);
                (
                    (
                        t3.0,
                        t3.1.update(
                            i as int,
                            Terminator::SizeCheck { storage, need, under: j, over: k },
                        ),
                        t3.2,
                    ),
                    i,
                )
            },
            Exit::Branch { storage, reverse, forward } => {
                let (t2, j) = trace(f, code, t1, reverse, 0, (fuel - 1) as nat);
                let (t3, k) = trace(f, code, t2, forward, 0, (fuel - 1) as nat);
                (
                    (t3.0, t3.1.update(i as int, Terminator::Branch { storage, nonzero: k, zero: j }), t3.2),
                    i,
                )
            },
        }
    }
}

/// The record of tracing the whole grid from where programs start.
pub open spec fn traced_grid(f: Field, code: Seq<Syllable>) -> Traced {
    trace(
        f,
        code,
        (Seq::empty(), Seq::empty(), Map::empty()),
        start_state(),
        0,
        (key_bound(f) + 1) as nat,
    ).0
}

/// Each block's entry state and guaranteed size.
pub open spec fn entries(bodies: Seq<Body>) -> Seq<(State, usize)> {
    bodies.map_values(|b: Body| (b.entry, b.presize))
}

/// Where every program starts: the top left cell, going down with speed 1 on storage 0.
pub open spec fn start_state() -> State {
    State { r: 0, c: 0, direction: Direction::Down, speed: 1, storage: 0 }
}

/// The body of a block is the walk from its entry state.
pub open spec fn body_traced(f: Field, code: Seq<Syllable>, b: Body) -> bool {
    &&& f.holds(b.entry)
    &&& b.init_storage == b.entry.storage
    &&& block_walk(f, code, b).0 == b.ops@
}

impl Program {
    /// The program is the trace of the grid: well-formed, its first block
    /// starts where programs start, each block is the walk from its entry
    /// state, and each terminator carries out how that walk ends.
    pub open spec fn traces(&self, f: Field, code: Seq<Syllable>) -> bool {
        &&& self.wf()
        &&& self.bodies[0].entry == start_state()
        &&& forall|i: int| 0 <= i < self.bodies.len() ==> #[trigger] body_traced(f, code, self.bodies[i])
        &&& forall|i: int|
            0 <= i < self.terms.len() ==> #[trigger] term_matches(
                self.bodies@,
                self.terms[i],
                block_walk(f, code, self.bodies[i]).1,
            )
    }
}

/// The state on row `k` of the first column, going down with speed 1 on storage 0.
pub open spec fn down_at(k: usize) -> State {
    State { r: k, c: 0, direction: Direction::Down, speed: 1, storage: 0 }
}

/// The identities of the first `k` states of the first column going down.
pub open spec fn column_ids(f: Field, k: nat) -> Set<u128>
    decreases k,
{
    if k == 0 {
        Set::empty()
    } else {
        column_ids(f, (k - 1) as nat).insert(state_id(f, down_at((k - 1) as usize)))
    }
}

proof fn lemma_column_ids(f: Field, k: nat, j: nat)
    requires
        f.wf(),
        f.w * f.h <= usize::MAX,
        j < f.h,
        k <= f.h,
    ensures
        column_ids(f, k).contains(state_id(f, down_at(j as usize))) <==> j < k,
    decreases k,
{
    if k > 0 {
        lemma_column_ids(f, (k - 1) as nat, j);
        let a = down_at((k - 1) as usize);
        let b = down_at(j as usize);
        lemma_key(f, a, 0);
        lemma_key(f, b, 0);
        assert(key_bound(f) <= u128::MAX) by (nonlinear_arith)
            requires
                f.w * f.h <= usize::MAX,
                key_bound(f) == f.w * f.h * 672,
        ;
        if key_of(f, a, 0) == key_of(f, b, 0) {
            lemma_key_injective(f, a, 0, b, 0);
        } else {
            assert(state_id(f, a) != state_id(f, b));
        }
    }
}

/// On a grid without operations or turns, the walk down the first column
/// from row `k` records nothing and comes back to the top left cell.
proof fn lemma_walk_blank(f: Field, code: Seq<Syllable>, k: nat, fuel: nat)
    requires
        f.wf(),
        f.w * f.h <= usize::MAX,
        code.len() == f.w * f.h,
        forall|i: int| 0 <= i < code.len() ==> #[trigger] code[i] == (Syllable { consonant: None, vowel: None }),
        k < f.h,
        fuel >= f.h - k,
    ensures
        walk(f, code, down_at(k as usize), column_ids(f, k), Seq::empty(), 0, 0, fuel) == (
            Seq::<Consonant>::empty(),
            Exit::Loop { state: down_at(0) },
        ),
    decreases f.h - k,
{
    let s = down_at(k as usize);
    lemma_column_ids(f, k, k);
    assert(0 <= k * f.w < f.w * f.h) by (nonlinear_arith)
        requires
            k < f.h,
            f.w >= 1,
    ;
    assert(cell_at(f, code, s) == code[k * f.w]);
    let next = cell_next(f, code, s);
    assert(cell_exit(f, code, s, sizes_after(0, 0, Seq::empty())) is None);
    assert(column_ids(f, k + 1) == column_ids(f, k).insert(state_id(f, s)));
    assert(Seq::<Consonant>::empty() + cell_ops(f, code, s) =~= Seq::<Consonant>::empty());
    assert(!column_ids(f, k).contains(state_id(f, s)));
    assert(walk(f, code, s, column_ids(f, k), Seq::empty(), 0, 0, fuel) == walk(
        f,
        code,
        next,
        column_ids(f, k + 1),
        Seq::<Consonant>::empty(),
        0,
        0,
        (fuel - 1) as nat,
    ));
    if k + 1 < f.h {
        assert(next == down_at((k + 1) as usize));
        lemma_walk_blank(f, code, k + 1, (fuel - 1) as nat);
    } else {
        assert(next == down_at(0));
        lemma_column_ids(f, k + 1, 0);
    }
}

/// Tracing a grid without operations or turns gives one block, which
/// records nothing and jumps to itself.
pub proof fn lemma_trace_blank(f: Field, code: Seq<Syllable>)
    requires
        f.wf(),
        f.w * f.h <= usize::MAX,
        code.len() == f.w * f.h,
        forall|i: int| 0 <= i < code.len() ==> #[trigger] code[i] == (Syllable { consonant: None, vowel: None }),
    ensures
        traced_grid(f, code).0 == seq![(start_state(), 0usize)],
        traced_grid(f, code).1 == seq![Terminator::Jump { target: 0 }],
        walk(f, code, start_state(), Set::empty(), Seq::empty(), 0, 0, key_bound(f) as nat).0
            == Seq::<Consonant>::empty(),
{
    lemma_key(f, start_state(), 0);
    assert(f.h <= key_bound(f)) by (nonlinear_arith)
        requires
            f.w >= 1,
            key_bound(f) == f.w * f.h * 672,
    ;
    lemma_walk_blank(f, code, 0, key_bound(f) as nat);
    assert(column_ids(f, 0) == Set::<u128>::empty());
    assert(down_at(0) == start_state());
    let key = key_of(f, start_state(), 0) as u128;
    let t1 = (
        Seq::<(State, usize)>::empty().push((start_state(), 0usize)),
        Seq::<Terminator>::empty().push(Terminator::Halt { storage: 0 }),
        Map::<u128, usize>::empty().insert(key, 0usize),
    );
    assert(trace(f, code, t1, start_state(), 0, key_bound(f) as nat) == (t1, 0usize));
    assert(t1.0 =~= seq![(start_state(), 0usize)]);
    assert(t1.1.update(0, Terminator::Jump { target: 0 }) =~= seq![Terminator::Jump { target: 0 }]);
}

/// Traces the program through the grid and cuts it into blocks.
pub struct Linearizer {
    field: Field,
    code: Vec<Syllable>,
    blocks: Program,
    state_memo: HashMap<u128, usize>,
    /// Blocks whose terminator is still to be filled in.
    pending: Ghost<Set<int>>,
}

impl Linearizer {
    pub open spec fn grid_ok(field: Field, code: Seq<Syllable>) -> bool {
        &&& field.wf()
        &&& field.w * field.h <= usize::MAX
        &&& code.len() == field.w * field.h
        &&& forall|i: int| 0 <= i < code.len() ==> #[trigger] code[i].wf()
    }

    /// Blocks, terminators and memo agree: every memoized key names a block
    /// entered with the key's storage and guaranteed size.
    pub closed spec fn inv(&self) -> bool {
        &&& Self::grid_ok(self.field, self.code@)
        &&& self.blocks.bodies.len() == self.blocks.terms.len()
        &&& self.state_memo@.len() == self.blocks.bodies.len()
        &&& forall|i: int|
            0 <= i < self.blocks.bodies.len() ==> #[trigger] body_ok(self.blocks.bodies[i])
        &&& forall|i: int|
            0 <= i < self.blocks.terms.len() ==> #[trigger] term_ok(
                self.blocks.bodies@,
                self.blocks.terms[i],
            )
        &&& forall|k: u128| #[trigger]
            self.state_memo@.contains_key(k) ==> {
                &&& k < key_bound(self.field)
                &&& self.state_memo@[k] < self.blocks.bodies.len()
                &&& self.blocks.bodies[self.state_memo@[k] as int].presize == k % 3
                &&& self.blocks.bodies[self.state_memo@[k] as int].init_storage == (k / 3) % 28
                &&& k == key_of(
                    self.field,
                    self.blocks.bodies[self.state_memo@[k] as int].entry,
                    self.blocks.bodies[self.state_memo@[k] as int].presize as int,
                )
            }
        &&& forall|i: int|
            0 <= i < self.blocks.bodies.len() ==> #[trigger] body_traced(
                self.field,
                self.code@,
                self.blocks.bodies[i],
            )
        &&& forall|i: int| #[trigger] self.pending@.contains(i) ==> 0 <= i < self.blocks.bodies.len()
        &&& forall|i: int|
            0 <= i < self.blocks.terms.len() && !self.pending@.contains(i) ==> #[trigger] term_matches(
                self.blocks.bodies@,
                self.blocks.terms[i],
                block_walk(self.field, self.code@, self.blocks.bodies[i]).1,
            )
    }

    /// What a call leaves as it was: the grid, earlier blocks and memo entries.
    pub closed spec fn extends(&self, prev: &Linearizer) -> bool {
        &&& self.field == prev.field
        &&& self.code@ == prev.code@
        &&& prev.blocks.bodies.len() <= self.blocks.bodies.len()
        &&& forall|i: int|
            0 <= i < prev.blocks.bodies.len() ==> #[trigger] self.blocks.bodies[i]
                == prev.blocks.bodies[i]
        &&& forall|i: int|
            0 <= i < prev.blocks.terms.len() ==> #[trigger] self.blocks.terms[i]
                == prev.blocks.terms[i]
        &&& prev.state_memo@.dom().subset_of(self.state_memo@.dom())
    }

    /// What has been traced so far.
    pub closed spec fn record(&self) -> Traced {
        (entries(self.blocks.bodies@), self.blocks.terms@, self.state_memo@)
    }

    /// The grid being traced.
    pub closed spec fn grid(&self) -> (Field, Seq<Syllable>) {
        (self.field, self.code@)
    }

    /// Number of distinct pairs of a state and a guaranteed entry size.
    pub closed spec fn state_count(&self) -> int {
        key_bound(self.field)
    }

    /// Nothing has been traced yet.
    pub closed spec fn fresh(&self) -> bool {
        &&& self.blocks.bodies.len() == 0
        &&& self.state_memo@ == Map::<u128, usize>::empty()
        &&& self.pending@ == Set::<int>::empty()
    }

    pub closed spec fn measure(&self) -> int {
        key_bound(self.field) - self.state_memo@.len()
    }

    proof fn lemma_progress(&self, entry: &Linearizer, key: u128)
        requires
            self.inv(),
            entry.inv(),
            self.extends(entry),
            self.state_memo@.contains_key(key),
            !entry.state_memo@.contains_key(key),
        ensures
            0 <= self.measure() < entry.measure(),
    {
        lemma_bounded_len(self.state_memo@.dom(), key_bound(self.field) as nat);
        lemma_bounded_len(entry.state_memo@.dom(), key_bound(self.field) as nat);
        vstd::set_lib::lemma_len_subset(
            entry.state_memo@.dom().insert(key),
            self.state_memo@.dom(),
        );
    }

    pub fn new(field: &Field, code: Vec<Syllable>) -> (r: Linearizer)
        requires
            Self::grid_ok(*field, code@),
        ensures
            r.inv(),
            r.fresh(),
            r.state_count() == key_bound(*field),
            r.grid() == (*field, code@),
    {
        Linearizer {
            field: *field,
            code,
            blocks: Program { bodies: Vec::new(), terms: Vec::new() },
            state_memo: HashMap::new(),
            pending: Ghost(Set::empty()),
        }
    }

    /// Traces the program from its start, at the top left going down with
    /// speed 1 on storage 0.
    pub fn linearize(self) -> (r: Program)
        requires
            self.inv(),
            self.fresh(),
        ensures
            r.traces(self.grid().0, self.grid().1),
            r.bodies.len() <= self.state_count(),
            entries(r.bodies@) == traced_grid(self.grid().0, self.grid().1).0,
            r.terms@ == traced_grid(self.grid().0, self.grid().1).1,
    {
        proof {
            assert(self.record() == (
                Seq::<(State, usize)>::empty(),
                Seq::<Terminator>::empty(),
                Map::<u128, usize>::empty(),
            )) by {
                assert(entries(self.blocks.bodies@) =~= Seq::<(State, usize)>::empty());
                assert(self.blocks.terms@ =~= Seq::<Terminator>::empty());
            }
            lemma_bounded_len(self.state_memo@.dom(), key_bound(self.field) as nat);
        }
        let mut this = self;
        let start = State { r: 0, c: 0, direction: Direction::Down, speed: 1, storage: 0 };
        let _ = this.linearize_recursive(start, 0);
        proof {
            lemma_bounded_len(this.state_memo@.dom(), key_bound(this.field) as nat);
            assert(self.measure() < key_bound(self.field) + 1);
        }
        this.blocks
    }

    fn key(&self, s: &State, presize: usize) -> (r: u128)
        requires
            self.inv(),
            self.field.holds(*s),
            presize < 3,
        ensures
            r == key_of(self.field, *s, presize as int),
    {
        proof {
            lemma_key(self.field, *s, presize as int);
        }
        let pos = s.r as u128 * self.field.w as u128 + s.c as u128;
        let dir: u128 = match s.direction {
            Direction::Up => 0,
            Direction::Down => 1,
            Direction::Left => 2,
            Direction::Right => 3,
        };
        ((((pos * 4 + dir) * 2 + (s.speed as u128 - 1)) * 28 + s.storage as u128) * 3)
            + presize as u128
    }

    /// Closes the block under construction: records its body with a
    /// placeholder terminator under `key`, and returns its index.
    fn flush(
        &mut self,
        key: u128,
        entry: State,
        init_storage: usize,
        presize: usize,
        block: Vec<Consonant>,
    ) -> (i: usize)
        requires
            old(self).inv(),
            old(self).field.holds(entry),
            entry.storage == init_storage,
            key == key_of(old(self).field, entry, presize as int),
            walk(
                old(self).field,
                old(self).code@,
                entry,
                Set::empty(),
                Seq::empty(),
                init_storage,
                presize as int,
                key_bound(old(self).field) as nat,
            ).0 == block@,
            !old(self).state_memo@.contains_key(key),
            key < key_bound(old(self).field),
            key % 3 == presize,
            (key / 3) % 28 == init_storage,
            presize <= 2,
            ops_safe(init_storage, presize as int, block@),
        ensures
            final(self).inv(),
            final(self).extends(old(self)),
            i == old(self).blocks.bodies.len(),
            final(self).blocks.bodies.len() == i + 1,
            final(self).blocks.bodies[i as int].presize == presize,
            final(self).blocks.bodies[i as int].init_storage == init_storage,
            final(self).blocks.bodies[i as int].entry == entry,
            final(self).state_memo@ == old(self).state_memo@.insert(key, i),
            final(self).pending@ == old(self).pending@.insert(i as int),
            final(self).record() == (
                old(self).record().0.push((entry, presize)),
                old(self).record().1.push(Terminator::Halt { storage: init_storage }),
                old(self).record().2.insert(key, i),
            ),
            final(self).measure() == old(self).measure() - 1,
    {
        let i = self.blocks.bodies.len();
        self.blocks.bodies.push(Body { entry, init_storage, presize, ops: block });
        self.blocks.terms.push(Terminator::Halt { storage: init_storage });
        self.state_memo.insert(key, i);
        self.pending = Ghost(self.pending@.insert(i as int));
        proof {
            assert(entries(self.blocks.bodies@) =~= entries(old(self).blocks.bodies@).push(
                (entry, presize),
            ));
            lemma_bounded_len(old(self).state_memo@.dom(), key_bound(self.field) as nat);
            let old_bodies = old(self).blocks.bodies@;
            let bodies = self.blocks.bodies@;
            assert(bodies.subrange(0, i as int) =~= old_bodies);
            assert forall|j: int| 0 <= j < self.blocks.terms.len() implies #[trigger] term_ok(
                bodies,
                self.blocks.terms[j],
            ) by {
                if j < i {
                    assert(term_ok(old_bodies, self.blocks.terms[j]));
                    assert(forall|t: int| 0 <= t < old_bodies.len() ==> bodies[t] == old_bodies[t]);
                }
            }
            assert forall|j: int|
                0 <= j < self.blocks.terms.len() && !self.pending@.contains(j) implies #[trigger] term_matches(
                bodies,
                self.blocks.terms[j],
                block_walk(self.field, self.code@, bodies[j]).1,
            ) by {
                assert(j < i);
                assert(bodies[j] == old_bodies[j]);
                assert(term_matches(
                    old_bodies,
                    old(self).blocks.terms[j],
                    block_walk(self.field, self.code@, old_bodies[j]).1,
                ));
                assert(forall|t: int| 0 <= t < old_bodies.len() ==> bodies[t] == old_bodies[t]);
            }
            assert(init_storage < STORAGES) by {
                if block@.len() == 0 {
                } else {
                    lemma_init_in_range(init_storage, presize as int, block@);
                }
            }
        }
        i
    }

    /// Closes a traced block: records it under `key`, traces the blocks its
    /// terminator leads to, and fills in the terminator.
    fn finish(
        &mut self,
        key: u128,
        entry: State,
        init_storage: usize,
        presize: usize,
        block: Vec<Consonant>,
        exit: Exit,
    ) -> (r: usize)
        requires
            old(self).inv(),
            old(self).field.holds(entry),
            entry.storage == init_storage,
            key == key_of(old(self).field, entry, presize as int),
            walk(
                old(self).field,
                old(self).code@,
                entry,
                Set::empty(),
                Seq::empty(),
                init_storage,
                presize as int,
                key_bound(old(self).field) as nat,
            ) == (block@, exit),
            !old(self).state_memo@.contains_key(key),
            key < key_bound(old(self).field),
            key % 3 == presize,
            (key / 3) % 28 == init_storage,
            presize <= 2,
            ops_safe(init_storage, presize as int, block@),
            exit_ok(old(self).field, exit),
        ensures
            final(self).inv(),
            final(self).extends(old(self)),
            r == old(self).blocks.bodies.len(),
            r < final(self).blocks.bodies.len(),
            final(self).blocks.bodies[r as int].presize == presize,
            final(self).blocks.bodies[r as int].init_storage == init_storage,
            final(self).blocks.bodies[r as int].entry == entry,
            final(self).pending@ == old(self).pending@,
            forall|fuel: nat|
                fuel > old(self).measure() ==> #[trigger] trace(
                    old(self).field,
                    old(self).code@,
                    old(self).record(),
                    entry,
                    presize,
                    fuel,
                ) == (final(self).record(), r),
        decreases old(self).measure(), 0nat,
    {
        let ghost snapshot = *self;
        let i = self.flush(key, entry, init_storage, presize, block);
        let ghost flushed = *self;
        proof {
            lemma_bounded_len(self.state_memo@.dom(), key_bound(self.field) as nat);
            assert(key_of(snapshot.field, entry, presize as int) as u128 == key);
        }
        let term = match exit {
            Exit::Loop { state } => {
                proof {
                    self.lemma_progress(&snapshot, key);
                }
                let j = self.linearize_recursive(state, 0);
                let term = Terminator::Jump { target: j };
                let ghost after = *self;
                proof {
                    assert forall|fuel: nat| fuel > snapshot.measure() implies #[trigger] trace(
                        snapshot.field,
                        snapshot.code@,
                        snapshot.record(),
                        entry,
                        presize,
                        fuel,
                    ) == ((self.record().0, self.record().1.update(i as int, term), self.record().2), i) by {
                        assert(fuel - 1 > flushed.measure());
                        assert(trace(
                            flushed.field,
                            flushed.code@,
                            flushed.record(),
                            state,
                            0,
                            (fuel - 1) as nat,
                        ) == (after.record(), j));
                    }
                }
                term
            },
            Exit::Halt { storage } => {
                let term = Terminator::Halt { storage };
                proof {
                    assert forall|fuel: nat| fuel > snapshot.measure() implies #[trigger] trace(
                        snapshot.field,
                        snapshot.code@,
                        snapshot.record(),
                        entry,
                        presize,
                        fuel,
                    ) == ((self.record().0, self.record().1.update(i as int, term), self.record().2), i) by {
                        assert(self.record() == flushed.record());
                    }
                }
                term
            },
            Exit::Check { storage, need, reverse, retry } => {
                proof {
                    self.lemma_progress(&snapshot, key);
                }
                let j = self.linearize_recursive(reverse, 0);
                let ghost middle = *self;
                proof {
                    self.lemma_progress(&snapshot, key);
                }
                let k = self.linearize_recursive(retry, need);
                assert(self.blocks.bodies[j as int] == middle.blocks.bodies[j as int]);
                let term = Terminator::SizeCheck { storage, need, under: j, over: k };
                let ghost after = *self;
                let ghost first = reverse;
                let ghost second = retry;
                let ghost second_presize = need;
                proof {
                    assert forall|fuel: nat| fuel > snapshot.measure() implies #[trigger] trace(
                        snapshot.field,
                        snapshot.code@,
                        snapshot.record(),
                        entry,
                        presize,
                        fuel,
                    ) == ((self.record().0, self.record().1.update(i as int, term), self.record().2), i) by {
                        assert(fuel - 1 > flushed.measure());
                        assert(fuel - 1 > middle.measure());
                        assert(trace(
                            flushed.field,
                            flushed.code@,
                            flushed.record(),
                            first,
                            0,
                            (fuel - 1) as nat,
                        ) == (middle.record(), j));
                        assert(trace(
                            middle.field,
                            middle.code@,
                            middle.record(),
                            second,
                            second_presize,
                            (fuel - 1) as nat,
                        ) == (after.record(), k));
                    }
                }
                term
            },
            Exit::Branch { storage, reverse, forward } => {
                proof {
                    self.lemma_progress(&snapshot, key);
                }
                let j = self.linearize_recursive(reverse, 0);
                let ghost middle = *self;
                proof {
                    self.lemma_progress(&snapshot, key);
                }
                let k = self.linearize_recursive(forward, 0);
                assert(self.blocks.bodies[j as int] == middle.blocks.bodies[j as int]);
                let term = Terminator::Branch { storage, nonzero: k, zero: j };
                let ghost after = *self;
                let ghost first = reverse;
                let ghost second = forward;
                let ghost second_presize: usize = 0;
                proof {
                    assert forall|fuel: nat| fuel > snapshot.measure() implies #[trigger] trace(
                        snapshot.field,
                        snapshot.code@,
                        snapshot.record(),
                        entry,
                        presize,
                        fuel,
                    ) == ((self.record().0, self.record().1.update(i as int, term), self.record().2), i) by {
                        assert(fuel - 1 > flushed.measure());
                        assert(fuel - 1 > middle.measure());
                        assert(trace(
                            flushed.field,
                            flushed.code@,
                            flushed.record(),
                            first,
                            0,
                            (fuel - 1) as nat,
                        ) == (middle.record(), j));
                        assert(trace(
                            middle.field,
                            middle.code@,
                            middle.record(),
                            second,
                            second_presize,
                            (fuel - 1) as nat,
                        ) == (after.record(), k));
                    }
                }
                term
            },
        };
        assert(term_ok(self.blocks.bodies@, term));
        assert(self.blocks.bodies[i as int] == flushed.blocks.bodies[i as int]);
        assert(block_walk(self.field, self.code@, self.blocks.bodies[i as int]).1 == exit);
        assert(term_matches(self.blocks.bodies@, term, exit));
        let ghost before_set = *self;
        self.blocks.terms.set(i, term);
        self.pending = Ghost(self.pending@.remove(i as int));
        proof {
            assert forall|t: int| 0 <= t < self.blocks.terms.len() implies #[trigger] term_ok(
                self.blocks.bodies@,
                self.blocks.terms[t],
            ) by {
                if t != i {
                    assert(self.blocks.terms[t] == before_set.blocks.terms[t]);
                }
            }
            assert forall|t: int|
                0 <= t < self.blocks.terms.len() && !self.pending@.contains(t) implies #[trigger] term_matches(
                self.blocks.bodies@,
                self.blocks.terms[t],
                block_walk(self.field, self.code@, self.blocks.bodies[t]).1,
            ) by {
                if t != i {
                    assert(self.blocks.terms[t] == before_set.blocks.terms[t]);
                    assert(!before_set.pending@.contains(t));
                }
            }
            assert(self.pending@ =~= old(self).pending@);
            assert(self.record() == (
                before_set.record().0,
                before_set.record().1.update(i as int, term),
                before_set.record().2,
            ));
        }
        i
    }

    /// Traces from `state`, entered with `presize` values known on its
    /// storage, and returns the index of the block that starts there.
    fn linearize_recursive(&mut self, state: State, presize: usize) -> (r: usize)
        requires
            old(self).inv(),
            old(self).field.holds(state),
            presize <= 2,
        ensures
            final(self).inv(),
            final(self).extends(old(self)),
            r < final(self).blocks.bodies.len(),
            final(self).blocks.bodies[r as int].presize == presize,
            final(self).blocks.bodies[r as int].init_storage == state.storage,
            final(self).blocks.bodies[r as int].entry == state,
            final(self).pending@ == old(self).pending@,
            forall|fuel: nat|
                fuel > old(self).measure() ==> #[trigger] trace(
                    old(self).field,
                    old(self).code@,
                    old(self).record(),
                    state,
                    presize,
                    fuel,
                ) == (final(self).record(), r),
            !old(self).state_memo@.contains_key(key_of(old(self).field, state, presize as int) as u128)
                ==> r == old(self).blocks.bodies.len(),
        decreases old(self).measure(), 1nat,
    {
        proof {
            lemma_key(self.field, state, presize as int);
        }
        let key = self.key(&state, presize);
        match self.state_memo.get(&key) {
            Some(label) => {
                proof {
                    let b = self.blocks.bodies[*label as int];
                    assert(body_traced(self.field, self.code@, b));
                    lemma_key_injective(self.field, state, presize as int, b.entry, b.presize as int);
                }
                return *label;
            },
            None => {},
        }
        let ghost snapshot = *self;
        assert(snapshot == *old(self));
        let init_storage = state.storage;
        let mut cur = state;
        let mut size: Vec<u128> = Vec::new();
        let mut n: usize = 0;
        while n < STORAGES
            invariant
                n <= STORAGES,
                size@.len() == n,
                forall|j: int| 0 <= j < n ==> #[trigger] size@[j] as int == sizes_after(
                    init_storage,
                    presize as int,
                    Seq::empty(),
                )[j],
            decreases STORAGES - n,
        {
            if n == init_storage {
                size.push(presize as u128);
            } else {
                size.push(0);
            }
            n = n + 1;
        }
        let mut visited: HashSet<u128> = HashSet::new();
        let mut block: Vec<Consonant> = Vec::new();
        proof {
            assert(block@ =~= Seq::<Consonant>::empty());
        }
        loop
            invariant
                *self == snapshot,
                snapshot == *old(self),
                self.inv(),
                !self.state_memo@.contains_key(key),
                key == key_of(self.field, state, presize as int),
                key % 3 == presize,
                (key / 3) % 28 == init_storage,
                init_storage == state.storage,
                key < key_bound(self.field),
                presize <= 2,
                self.field.holds(cur),
                cur.storage == storage_after(init_storage, block@),
                ops_safe(init_storage, presize as int, block@),
                size@.len() == STORAGES,
                forall|j: int|
                    0 <= j < STORAGES ==> #[trigger] size@[j] as int == sizes_after(
                        init_storage,
                        presize as int,
                        block@,
                    )[j],
                forall|j: int| 0 <= j < STORAGES ==> #[trigger] size@[j] <= presize + block@.len(),
                block@.len() <= visited@.len(),
                forall|x: u128| #[trigger] visited@.contains(x) ==> x < key_bound(self.field),
                self.field.holds(state),
                walk(
                    self.field,
                    self.code@,
                    state,
                    Set::empty(),
                    Seq::empty(),
                    init_storage,
                    presize as int,
                    key_bound(self.field) as nat,
                ) == walk(
                    self.field,
                    self.code@,
                    cur,
                    visited@,
                    block@,
                    init_storage,
                    presize as int,
                    (key_bound(self.field) - visited@.len()) as nat,
                ),
            decreases key_bound(self.field) - visited@.len(),
        {
            proof {
                lemma_key(self.field, cur, 0);
                lemma_bounded_len(visited@, key_bound(self.field) as nat);
            }
            let skey = self.key(&cur, 0);
            if visited.contains(&skey) {
                return self.finish(key, state, init_storage, presize, block, Exit::Loop { state: cur });
            }
            proof {
                lemma_bounded_len(visited@.insert(skey), key_bound(self.field) as nat);
            }
            let ghost seen_before = visited@;
            visited.insert(skey);
            let prev = cur;
            let ghost ops_before = block@;
            let pos = cur.r * self.field.w + cur.c;
            let cell = self.code[pos];
            cur = turn(cur, cell.vowel);
            assert(self.code@[pos as int].wf());
            match cell.consonant {
                None => {},
                Some(Consonant::Halt) => {
                    let exit = Exit::Halt { storage: cur.storage };
                    return self.finish(key, state, init_storage, presize, block, exit);
                },
                Some(op) => {
                    let storage = cur.storage;
                    let k = required(op);
                    if size[storage] < k as u128 {
                        let reverse = cur.reverse_next(&self.field);
                        let exit = Exit::Check { storage, need: k, reverse, retry: prev };
                        return self.finish(key, state, init_storage, presize, block, exit);
                    }
                    if let Consonant::Branch = op {
                        let reverse = cur.reverse_next(&self.field);
                        let (r, c) = self.field.next_pos(&cur);
                        let forward = State { r, c, ..cur };
                        let exit = Exit::Branch { storage, reverse, forward };
                        return self.finish(key, state, init_storage, presize, block, exit);
                    }
                    let ghost before = block@;
                    block.push(op);
                    proof {
                        assert(block@.drop_last() =~= before);
                        lemma_storage_in_range(init_storage, presize as int, before);
                    }
                    match op {
                        Consonant::Add | Consonant::Subtract | Consonant::Multiply
                        | Consonant::Divide | Consonant::Remainder | Consonant::Compare
                        | Consonant::PrintDecimal | Consonant::PrintUnicode | Consonant::Pop => {
                            let v = size[storage];
                            size.set(storage, v - 1);
                        },
                        Consonant::ScanDecimal | Consonant::ScanUnicode | Consonant::Push(_)
                        | Consonant::Duplicate => {
                            let v = size[storage];
                            size.set(storage, v + 1);
                        },
                        Consonant::Select(s) => {
                            cur.storage = s;
                        },
                        Consonant::Move(s) => {
                            let v = size[storage];
                            size.set(storage, v - 1);
                            let w = size[s];
                            size.set(s, w + 1);
                        },
                        _ => {},
                    }
                },
            }
            let (r, c) = self.field.next_pos(&cur);
            cur.r = r;
            cur.c = c;
            proof {
                assert(block@ =~= ops_before + cell_ops(self.field, self.code@, prev));
                assert(cur == cell_next(self.field, self.code@, prev));
                assert(visited@ == seen_before.insert(state_id(self.field, prev)));
                assert(cell_exit(
                    self.field,
                    self.code@,
                    prev,
                    sizes_after(init_storage, presize as int, ops_before),
                ) is None);
            }
        }
    }
}

} // verus!
