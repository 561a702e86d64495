use vstd::prelude::*;

use crate::field::{QUEUE, STORAGES};
use crate::syllable::Consonant;

verus! {

/// How a storage hands out its values.
#[derive(Clone, Copy, Debug, PartialEq, Eq, Structural)]
pub enum StorageKind {
    Stack,
    Queue,
    Stream,
}

pub open spec fn kind_of(i: usize) -> StorageKind {
    if i == QUEUE {
        StorageKind::Queue
    } else if i == 27 {
        StorageKind::Stream
    } else {
        StorageKind::Stack
    }
}

impl From<usize> for StorageKind {
    fn from(value: usize) -> (r: StorageKind)
        ensures
            r == kind_of(value),
    {
        match value {
            21 => StorageKind::Queue,
            27 => StorageKind::Stream,
            _ => StorageKind::Stack,
        }
    }
}

impl vstd::std_specs::convert::FromSpecImpl<usize> for StorageKind {
    open spec fn obeys_from_spec() -> bool {
        true
    }

    open spec fn from_spec(v: usize) -> StorageKind {
        kind_of(v)
    }
}

/// Whether values on storage `i` come out in first-in first-out order.
pub open spec fn is_queue(i: usize) -> bool {
    kind_of(i) == StorageKind::Queue
}

fn queue_storage(i: usize) -> (r: bool)
    ensures
        r == is_queue(i),
{
    StorageKind::from(i) == StorageKind::Queue
}

/// Number of values an operation needs on the current storage.
pub open spec fn need(op: Consonant) -> int {
    match op {
        Consonant::Add | Consonant::Subtract | Consonant::Multiply | Consonant::Divide
        | Consonant::Remainder | Consonant::Compare | Consonant::Exchange => 2,
        Consonant::PrintDecimal | Consonant::PrintUnicode | Consonant::Pop
        | Consonant::Duplicate | Consonant::Move(_) | Consonant::Branch => 1,
        _ => 0,
    }
}

/// An operation that a block records inline: anything but the two terminators,
/// with its storage index, if any, in range, and a pushed value of one digit.
pub open spec fn recordable(op: Consonant) -> bool {
    match op {
        Consonant::Halt | Consonant::Branch => false,
        Consonant::Select(i) => i < STORAGES,
        Consonant::Move(i) => i < STORAGES,
        Consonant::Push(n) => 0 <= n <= 9,
        _ => true,
    }
}

/// The known sizes of all storages when a block starts: `presize` on the entry
/// storage, nothing elsewhere.
pub open spec fn entry_sizes(storage: usize, presize: int) -> Seq<int> {
    Seq::new(STORAGES as nat, |i: int| if i == storage { presize } else { 0 })
}

/// The current storage after the given operations.
pub open spec fn storage_after(init: usize, ops: Seq<Consonant>) -> usize
    decreases ops.len(),
{
    if ops.len() == 0 {
        init
    } else {
        match ops.last() {
            Consonant::Select(i) => i,
            _ => storage_after(init, ops.drop_last()),
        }
    }
}

/// The effect of one operation on the storages' sizes, with `s` current.
pub open spec fn op_effect(sizes: Seq<int>, s: usize, op: Consonant) -> Seq<int> {
    match op {
        Consonant::Add | Consonant::Subtract | Consonant::Multiply | Consonant::Divide
        | Consonant::Remainder | Consonant::Compare | Consonant::PrintDecimal
        | Consonant::PrintUnicode | Consonant::Pop => sizes.update(s as int, sizes[s as int] - 1),
        Consonant::ScanDecimal | Consonant::ScanUnicode | Consonant::Push(_)
        | Consonant::Duplicate => sizes.update(s as int, sizes[s as int] + 1),
        Consonant::Move(i) => {
            let t = sizes.update(s as int, sizes[s as int] - 1);
            t.update(i as int, t[i as int] + 1)
        },
        _ => sizes,
    }
}

/// Sizes of all storages after the given operations, from a block's entry.
pub open spec fn sizes_after(init: usize, presize: int, ops: Seq<Consonant>) -> Seq<int>
    decreases ops.len(),
{
    if ops.len() == 0 {
        entry_sizes(init, presize)
    } else {
        op_effect(
            sizes_after(init, presize, ops.drop_last()),
            storage_after(init, ops.drop_last()),
            ops.last(),
        )
    }
}

/// Every operation finds the values it needs, counting only what the block's
/// entry guarantees and what earlier operations of the block left.
pub open spec fn ops_safe(init: usize, presize: int, ops: Seq<Consonant>) -> bool
    decreases ops.len(),
{
    if ops.len() == 0 {
        init < STORAGES && presize >= 0
    } else {
        let prev = ops.drop_last();
        &&& ops_safe(init, presize, prev)
        &&& recordable(ops.last())
        &&& sizes_after(init, presize, prev)[storage_after(init, prev) as int] >= need(ops.last())
    }
}

pub proof fn lemma_storage_in_range(init: usize, presize: int, ops: Seq<Consonant>)
    requires
        ops_safe(init, presize, ops),
    ensures
        storage_after(init, ops) < STORAGES,
        sizes_after(init, presize, ops).len() == STORAGES,
        forall|i: int| 0 <= i < STORAGES ==> #[trigger] sizes_after(init, presize, ops)[i] >= 0,
    decreases ops.len(),
{
    if ops.len() > 0 {
        lemma_storage_in_range(init, presize, ops.drop_last());
    }
}

pub proof fn lemma_init_in_range(init: usize, presize: int, ops: Seq<Consonant>)
    requires
        ops_safe(init, presize, ops),
    ensures
        init < STORAGES,
        presize >= 0,
    decreases ops.len(),
{
    if ops.len() > 0 {
        lemma_init_in_range(init, presize, ops.drop_last());
    }
}

/// Every operation of a block that runs safely is one that a block records inline.
pub proof fn lemma_safe_recordable(init: usize, presize: int, ops: Seq<Consonant>)
    requires
        ops_safe(init, presize, ops),
    ensures
        forall|j: int| 0 <= j < ops.len() ==> #[trigger] recordable(ops[j]),
    decreases ops.len(),
{
    if ops.len() > 0 {
        lemma_safe_recordable(init, presize, ops.drop_last());
        assert forall|j: int| 0 <= j < ops.len() implies #[trigger] recordable(ops[j]) by {
            if j < ops.len() - 1 {
                assert(ops[j] == ops.drop_last()[j]);
            }
        }
    }
}

pub proof fn lemma_safe_prefix(init: usize, presize: int, ops: Seq<Consonant>, k: int)
    requires
        ops_safe(init, presize, ops),
        0 <= k <= ops.len(),
    ensures
        ops_safe(init, presize, ops.take(k)),
    decreases ops.len() - k,
{
    if k < ops.len() {
        lemma_safe_prefix(init, presize, ops.drop_last(), k);
        assert(ops.drop_last().take(k) =~= ops.take(k));
    } else {
        assert(ops.take(k) =~= ops);
    }
}

/// A binary operator of the generated code.
#[derive(Clone, Copy, Debug, PartialEq, Eq, Structural)]
pub enum BinOp {
    Add,
    Sub,
    Mul,
    Div,
    Rem,
    Ge,
}

/// One straight-line statement of a block, over temporaries `v0, v1, ...`.
#[derive(Clone, Copy, Debug, PartialEq, Eq, Structural)]
pub enum Line {
    /// Takes a value off a storage into a new temporary.
    Hoist { storage: usize, id: usize },
    /// Computes `lhs op rhs` into a new temporary.
    Binary { id: usize, op: BinOp, lhs: usize, rhs: usize },
    /// Prints a temporary as a number or as a character.
    Print { unicode: bool, arg: usize },
    /// Reads a number or a character into a new temporary.
    Scan { id: usize, unicode: bool },
    /// Puts a constant into a new temporary.
    Constant { id: usize, value: i64 },
    /// Puts a temporary back onto a storage.
    Store { storage: usize, arg: usize },
}

/// The temporary that a line defines, if any.
pub open spec fn defines(l: Line) -> Option<usize> {
    match l {
        Line::Hoist { id, .. } => Some(id),
        Line::Binary { id, .. } => Some(id),
        Line::Scan { id, .. } => Some(id),
        Line::Constant { id, .. } => Some(id),
        _ => None,
    }
}

/// Number of temporaries that the lines define.
pub open spec fn temps(ls: Seq<Line>) -> nat
    decreases ls.len(),
{
    if ls.len() == 0 {
        0
    } else {
        temps(ls.drop_last()) + if defines(ls.last()) is Some {
            1nat
        } else {
            0nat
        }
    }
}

/// A line that reads only temporaries below `n` and defines, if anything, `vn`.
pub open spec fn line_scoped(l: Line, n: nat) -> bool {
    match l {
        Line::Hoist { storage, id } => id == n && storage < STORAGES,
        Line::Binary { id, lhs, rhs, .. } => id == n && lhs < n && rhs < n,
        Line::Print { arg, .. } => arg < n,
        Line::Scan { id, .. } => id == n,
        Line::Constant { id, value } => id == n && 0 <= value <= 9,
        Line::Store { storage, arg } => arg < n && storage < STORAGES,
    }
}

/// Temporaries are defined in order, each before it is read.
pub open spec fn scoped(ls: Seq<Line>) -> bool
    decreases ls.len(),
{
    ls.len() == 0 || (scoped(ls.drop_last()) && line_scoped(ls.last(), temps(ls.drop_last())))
}

/// Number of lines that take a value off storage `s`, or put one back onto it.
pub open spec fn moves(ls: Seq<Line>, s: usize, store: bool) -> int
    decreases ls.len(),
{
    if ls.len() == 0 {
        0
    } else {
        moves(ls.drop_last(), s, store) + match ls.last() {
            Line::Hoist { storage, .. } => if !store && storage == s {
                1int
            } else {
                0
            },
            Line::Store { storage, .. } => if store && storage == s {
                1int
            } else {
                0
            },
            _ => 0,
        }
    }
}

proof fn lemma_temps_le_len(ls: Seq<Line>)
    ensures
        temps(ls) <= ls.len(),
    decreases ls.len(),
{
    if ls.len() > 0 {
        lemma_temps_le_len(ls.drop_last());
    }
}

proof fn lemma_push_line(ls: Seq<Line>, l: Line)
    requires
        scoped(ls),
        line_scoped(l, temps(ls)),
    ensures
        scoped(ls.push(l)),
        temps(ls) <= ls.len(),
        temps(ls.push(l)) == temps(ls) + if defines(l) is Some {
            1nat
        } else {
            0nat
        },
        forall|s: usize, st: bool|
            #[trigger] moves(ls.push(l), s, st) == moves(ls, s, st) + match l {
                Line::Hoist { storage, .. } => if !st && storage == s {
                    1int
                } else {
                    0
                },
                Line::Store { storage, .. } => if st && storage == s {
                    1int
                } else {
                    0
                },
                _ => 0,
            },
{
    assert(ls.push(l).drop_last() =~= ls);
    lemma_temps_le_len(ls);
}

fn take_front(d: &mut Vec<usize>) -> (r: usize)
    requires
        old(d).len() > 0,
    ensures
        r == old(d)@[0],
        final(d)@ == old(d)@.drop_first(),
{
    d.remove(0)
}

fn take_back(d: &mut Vec<usize>) -> (r: usize)
    requires
        old(d).len() > 0,
    ensures
        r == old(d)@.last(),
        final(d)@ == old(d)@.drop_last(),
{
    d.pop().unwrap()
}

/// The temporary that storage `s` hands out next: a queue's first, a stack's last.
pub open spec fn next_of(d: Seq<usize>, s: usize) -> usize {
    if is_queue(s) {
        d[0]
    } else {
        d.last()
    }
}

/// The temporaries of storage `s` without the one it hands out next.
pub open spec fn rest_of(d: Seq<usize>, s: usize) -> Seq<usize> {
    if is_queue(s) {
        d.drop_first()
    } else {
        d.drop_last()
    }
}

/// The temporaries of storage `s` with `x` where it is handed out next.
pub open spec fn put_next(d: Seq<usize>, s: usize, x: usize) -> Seq<usize> {
    if is_queue(s) {
        seq![x] + d
    } else {
        d.push(x)
    }
}

/// The temporaries of storage `s` with `x` where it is handed out last.
pub open spec fn put_last(d: Seq<usize>, s: usize, x: usize) -> Seq<usize> {
    if is_queue(s) {
        d.push(x)
    } else {
        seq![x] + d
    }
}

/// Takes the value that storage `s` hands out next.
fn take(d: &mut Vec<usize>, s: usize) -> (r: usize)
    requires
        old(d).len() > 0,
    ensures
        r == next_of(old(d)@, s),
        final(d)@ == rest_of(old(d)@, s),
        final(d).len() == old(d).len() - 1,
        old(d)@.contains(r),
        forall|x: usize| final(d)@.contains(x) ==> old(d)@.contains(x),
{
    if queue_storage(s) {
        let r = take_front(d);
        assert(forall|x: usize| d@.contains(x) ==> old(d)@.contains(x)) by {
            assert forall|x: usize| d@.contains(x) implies old(d)@.contains(x) by {
                let j = choose|j: int| 0 <= j < d@.len() && d@[j] == x;
                assert(old(d)@[j + 1] == x);
            }
        }
        r
    } else {
        let r = take_back(d);
        assert(forall|x: usize| d@.contains(x) ==> old(d)@.contains(x)) by {
            assert forall|x: usize| d@.contains(x) implies old(d)@.contains(x) by {
                let j = choose|j: int| 0 <= j < d@.len() && d@[j] == x;
                assert(old(d)@[j] == x);
            }
        }
        r
    }
}

/// Puts a value where storage `s` hands it out next.
fn give_next(d: &mut Vec<usize>, s: usize, x: usize)
    ensures
        final(d)@ == put_next(old(d)@, s, x),
        final(d).len() == old(d).len() + 1,
        forall|y: usize| final(d)@.contains(y) ==> old(d)@.contains(y) || y == x,
{
    if queue_storage(s) {
        d.insert(0, x);
        assert(d@ =~= seq![x] + old(d)@);
        assert forall|y: usize| d@.contains(y) implies old(d)@.contains(y) || y == x by {
            let j = choose|j: int| 0 <= j < d@.len() && d@[j] == y;
            if j > 0 {
                assert(old(d)@[j - 1] == y);
            }
        }
    } else {
        d.push(x);
        assert forall|y: usize| d@.contains(y) implies old(d)@.contains(y) || y == x by {
            let j = choose|j: int| 0 <= j < d@.len() && d@[j] == y;
            if j < old(d)@.len() {
                assert(old(d)@[j] == y);
            }
        }
    }
}

/// Puts a value where storage `s` hands it out last.
fn give_last(d: &mut Vec<usize>, s: usize, x: usize)
    ensures
        final(d)@ == put_last(old(d)@, s, x),
        final(d).len() == old(d).len() + 1,
        forall|y: usize| final(d)@.contains(y) ==> old(d)@.contains(y) || y == x,
{
    if queue_storage(s) {
        give_back(d, x);
    } else {
        d.insert(0, x);
        assert(d@ =~= seq![x] + old(d)@);
        assert forall|y: usize| d@.contains(y) implies old(d)@.contains(y) || y == x by {
            let j = choose|j: int| 0 <= j < d@.len() && d@[j] == y;
            if j > 0 {
                assert(old(d)@[j - 1] == y);
            }
        }
    }
}

/// Appends a value at the back.
fn give_back(d: &mut Vec<usize>, x: usize)
    ensures
        final(d)@ == old(d)@.push(x),
        final(d).len() == old(d).len() + 1,
        forall|y: usize| final(d)@.contains(y) ==> old(d)@.contains(y) || y == x,
{
    d.push(x);
    assert forall|y: usize| d@.contains(y) implies old(d)@.contains(y) || y == x by {
        let j = choose|j: int| 0 <= j < d@.len() && d@[j] == y;
        if j < old(d)@.len() {
            assert(old(d)@[j] == y);
        }
    }
}

/// The temporaries each storage holds, the current storage, and the
/// statements written so far, while a block is fused.
pub type Fusion = (Seq<Seq<usize>>, usize, Seq<Line>);

/// The fusion state after the first `k` entry values are taken off storage
/// `init` into temporaries `v0 .. v(k-1)`.
pub open spec fn hoisted(init: usize, k: nat) -> Fusion
    decreases k,
{
    if k == 0 {
        (Seq::new(STORAGES as nat, |i: int| Seq::<usize>::empty()), init, Seq::empty())
    } else {
        let (v, s, ls) = hoisted(init, (k - 1) as nat);
        (
            v.update(init as int, put_last(v[init as int], init, (k - 1) as usize)),
            s,
            ls.push(Line::Hoist { storage: init, id: (k - 1) as usize }),
        )
    }
}

pub open spec fn bin_op_of(op: Consonant) -> BinOp {
    match op {
        Consonant::Add => BinOp::Add,
        Consonant::Subtract => BinOp::Sub,
        Consonant::Multiply => BinOp::Mul,
        Consonant::Divide => BinOp::Div,
        Consonant::Remainder => BinOp::Rem,
        _ => BinOp::Ge,
    }
}

/// One operation on the fusion state. Operands come off the current
/// storage's end that it hands out next, the first one taken being the right
/// operand; new temporaries are numbered in order and go to the back.
pub open spec fn fuse_step(st: Fusion, op: Consonant) -> Fusion {
    let (v, s, ls) = st;
    let d = v[s as int];
    let id = temps(ls) as usize;
    match op {
        Consonant::Add | Consonant::Subtract | Consonant::Multiply | Consonant::Divide
        | Consonant::Remainder | Consonant::Compare => {
            let a = next_of(d, s);
            let b = next_of(rest_of(d, s), s);
            (
                v.update(s as int, rest_of(rest_of(d, s), s).push(id)),
                s,
                ls.push(Line::Binary { id, op: bin_op_of(op), lhs: b, rhs: a }),
            )
        },
        Consonant::PrintDecimal | Consonant::PrintUnicode => (
            v.update(s as int, rest_of(d, s)),
            s,
            ls.push(Line::Print { unicode: op is PrintUnicode, arg: next_of(d, s) }),
        ),
        Consonant::Pop => (v.update(s as int, rest_of(d, s)), s, ls),
        Consonant::ScanDecimal | Consonant::ScanUnicode => (
            v.update(s as int, d.push(id)),
            s,
            ls.push(Line::Scan { id, unicode: op is ScanUnicode }),
        ),
        Consonant::Push(value) => (
            v.update(s as int, d.push(id)),
            s,
            ls.push(Line::Constant { id, value }),
        ),
        Consonant::Duplicate => {
            let a = next_of(d, s);
            (v.update(s as int, put_next(put_next(rest_of(d, s), s, a), s, a)), s, ls)
        },
        Consonant::Exchange => {
            let a = next_of(d, s);
            let b = next_of(rest_of(d, s), s);
            (
                v.update(s as int, put_next(put_next(rest_of(rest_of(d, s), s), s, a), s, b)),
                s,
                ls,
            )
        },
        Consonant::Select(i) => (v, i, ls),
        Consonant::Move(i) => {
            let w = v.update(s as int, rest_of(d, s));
            (w.update(i as int, w[i as int].push(next_of(d, s))), s, ls)
        },
        _ => st,
    }
}

/// The fusion state after the entry values and then the given operations.
pub open spec fn fused_ops(init: usize, presize: nat, ops: Seq<Consonant>) -> Fusion
    decreases ops.len(),
{
    if ops.len() == 0 {
        hoisted(init, presize)
    } else {
        fuse_step(fused_ops(init, presize, ops.drop_last()), ops.last())
    }
}

/// Statements that put the temporaries of storages `0 .. n` back, each
/// storage's from the first to the last.
pub open spec fn stored(v: Seq<Seq<usize>>, n: nat) -> Seq<Line>
    decreases n,
{
    if n == 0 {
        Seq::empty()
    } else {
        let s = (n - 1) as usize;
        stored(v, (n - 1) as nat) + Seq::new(
            v[s as int].len(),
            |j: int| Line::Store { storage: s, arg: v[s as int][j] },
        )
    }
}

/// The statements of a fused block.
pub open spec fn fuse_spec(init: usize, presize: nat, ops: Seq<Consonant>) -> Seq<Line> {
    fused_ops(init, presize, ops).2 + stored(fused_ops(init, presize, ops).0, STORAGES as nat)
}

pub open spec fn views(var: Seq<Vec<usize>>) -> Seq<Seq<usize>> {
    var.map_values(|d: Vec<usize>| d@)
}

/// The per-storage temporaries track the sizes, and name only defined temporaries.
pub open spec fn vars_track(var: Seq<Vec<usize>>, sizes: Seq<int>, n: nat) -> bool {
    &&& var.len() == STORAGES
    &&& sizes.len() == STORAGES
    &&& forall|i: int| 0 <= i < STORAGES ==> #[trigger] var[i]@.len() == sizes[i]
    &&& forall|i: int, x: usize|
        0 <= i < STORAGES && #[trigger] var[i]@.contains(x) ==> x < n
}

/// The temporaries that storage `s` holds.
fn slot(var: &Vec<Vec<usize>>, s: usize) -> (r: Vec<usize>)
    requires
        s < var.len(),
    ensures
        r@ == var@[s as int]@,
{
    let r = var[s].clone();
    assert(r@ =~= var@[s as int]@);
    r
}

/// Replaces the temporaries of storage `s`.
fn set_slot(var: &mut Vec<Vec<usize>>, s: usize, d: Vec<usize>)
    requires
        s < old(var).len(),
    ensures
        final(var)@ == old(var)@.update(s as int, d),
        views(final(var)@) == views(old(var)@).update(s as int, d@),
{
    var.set(s, d);
    assert(views(var@) =~= views(old(var)@).update(s as int, d@));
}

fn binary_op(op: Consonant) -> (r: Option<BinOp>)
    ensures
        r is Some <==> (op is Add || op is Subtract || op is Multiply || op is Divide
            || op is Remainder || op is Compare),
        r is Some ==> r->0 == bin_op_of(op),
{
    match op {
        Consonant::Add => Some(BinOp::Add),
        Consonant::Subtract => Some(BinOp::Sub),
        Consonant::Multiply => Some(BinOp::Mul),
        Consonant::Divide => Some(BinOp::Div),
        Consonant::Remainder => Some(BinOp::Rem),
        Consonant::Compare => Some(BinOp::Ge),
        _ => None,
    }
}

/// Turns a block's recorded operations into straight-line statements over
/// temporaries: the entry values are taken off the entry storage first, every
/// operation then works on temporaries, and at the end every temporary still
/// held is put back onto its storage.
///
/// The statements take exactly `presize` values off the entry storage and put
/// back onto each storage as many values as it holds after the operations, and
/// every temporary is defined before it is read.
pub fn fuse(init_storage: usize, presize: usize, ops: &Vec<Consonant>) -> (r: Vec<Line>)
    requires
        ops_safe(init_storage, presize as int, ops@),
    ensures
        scoped(r@),
        forall|s: usize|
            s < STORAGES ==> #[trigger] moves(r@, s, false) == if s == init_storage {
                presize as int
            } else {
                0
            },
        forall|s: usize|
            s < STORAGES ==> #[trigger] moves(r@, s, true) == sizes_after(
                init_storage,
                presize as int,
                ops@,
            )[s as int],
        r@ == fuse_spec(init_storage, presize as nat, ops@),
{
    let mut lines: Vec<Line> = Vec::new();
    let mut id: usize = 0;
    let mut var: Vec<Vec<usize>> = Vec::new();
    let mut i: usize = 0;
    while i < STORAGES
        invariant
            i <= STORAGES,
            var.len() == i,
            forall|j: int| 0 <= j < i ==> (#[trigger] var[j])@.len() == 0,
            views(var@) == Seq::new(i as nat, |j: int| Seq::<usize>::empty()),
        decreases STORAGES - i,
    {
        let ghost prev = var@;
        let fresh: Vec<usize> = Vec::new();
        var.push(fresh);
        assert(views(var@) =~= Seq::new((i + 1) as nat, |j: int| Seq::<usize>::empty())) by {
            assert(var@ == prev.push(fresh));
            assert forall|j: int| 0 <= j < i implies views(var@)[j] == Seq::<usize>::empty() by {
                assert(var@[j] == prev[j]);
                assert(views(prev)[j] == Seq::<usize>::empty());
            }
        }
        i = i + 1;
    }
    assert(views(var@) =~= hoisted(init_storage, 0).0);
    proof {
        lemma_safe_prefix(init_storage, presize as int, ops@, 0);
        assert(ops@.take(0) =~= Seq::<Consonant>::empty());
    }
    let mut k: usize = 0;
    while k < presize
        invariant
            k <= presize,
            id == k,
            lines@.len() == k,
            init_storage < STORAGES,
            scoped(lines@),
            temps(lines@) == id,
            vars_track(var@, entry_sizes(init_storage, k as int), id as nat),
            forall|s: usize| #[trigger] moves(lines@, s, false) == if s == init_storage {
                k as int
            } else {
                0
            },
            forall|s: usize| #[trigger] moves(lines@, s, true) == 0,
            (views(var@), init_storage, lines@) == hoisted(init_storage, k as nat),
        decreases presize - k,
    {
        let ghost st = (views(var@), init_storage, lines@);
        let l = Line::Hoist { storage: init_storage, id };
        proof {
            lemma_push_line(lines@, l);
        }
        lines.push(l);
        let mut d = slot(&var, init_storage);
        give_last(&mut d, init_storage, id);
        set_slot(&mut var, init_storage, d);
        k = k + 1;
        id = id + 1;
        assert(vars_track(var@, entry_sizes(init_storage, k as int), id as nat));
    }
    assert(ops@.take(0) =~= Seq::<Consonant>::empty());
    let mut storage = init_storage;
    let mut n: usize = 0;
    while n < ops.len()
        invariant
            n <= ops.len(),
            ops_safe(init_storage, presize as int, ops@),
            storage == storage_after(init_storage, ops@.take(n as int)),
            storage < STORAGES,
            scoped(lines@),
            temps(lines@) == id,
            id <= lines@.len(),
            vars_track(var@, sizes_after(init_storage, presize as int, ops@.take(n as int)), id as nat),
            forall|s: usize| #[trigger] moves(lines@, s, false) == if s == init_storage {
                presize as int
            } else {
                0
            },
            forall|s: usize| #[trigger] moves(lines@, s, true) == 0,
            var.len() == STORAGES,
            (views(var@), storage, lines@) == fused_ops(init_storage, presize as nat, ops@.take(n as int)),
        decreases ops.len() - n,
    {
        let op = ops[n];
        let ghost st = (views(var@), storage, lines@);
        proof {
            lemma_safe_prefix(init_storage, presize as int, ops@, n + 1);
            assert(ops@.take(n + 1).drop_last() =~= ops@.take(n as int));
            lemma_storage_in_range(init_storage, presize as int, ops@.take(n as int));
        }
        let ghost before = sizes_after(init_storage, presize as int, ops@.take(n as int));
        assert(sizes_after(init_storage, presize as int, ops@.take(n + 1)) == op_effect(before, storage, op));
        if let Some(b) = binary_op(op) {
            let mut d = slot(&var, storage);
            let a = take(&mut d, storage);
            let bb = take(&mut d, storage);
            let l = Line::Binary { id, op: b, lhs: bb, rhs: a };
            proof {
                lemma_push_line(lines@, l);
            }
            lines.push(l);
            give_back(&mut d, id);
            set_slot(&mut var, storage, d);
            let written = lines.len();
            assert(id < written);
            id = id + 1;
        } else {
            match op {
                Consonant::PrintDecimal | Consonant::PrintUnicode => {
                    let mut d = slot(&var, storage);
                    let a = take(&mut d, storage);
                    let l = Line::Print { unicode: matches!(op, Consonant::PrintUnicode), arg: a };
                    proof {
                        lemma_push_line(lines@, l);
                    }
                    lines.push(l);
                    set_slot(&mut var, storage, d);
                },
                Consonant::Pop => {
                    let mut d = slot(&var, storage);
                    let _ = take(&mut d, storage);
                    set_slot(&mut var, storage, d);
                },
                Consonant::ScanDecimal | Consonant::ScanUnicode => {
                    let l = Line::Scan { id, unicode: matches!(op, Consonant::ScanUnicode) };
                    proof {
                        lemma_push_line(lines@, l);
                    }
                    lines.push(l);
                    let mut d = slot(&var, storage);
                    give_back(&mut d, id);
                    set_slot(&mut var, storage, d);
                    let written = lines.len();
                    assert(id < written);
                    id = id + 1;
                },
                Consonant::Push(v) => {
                    let l = Line::Constant { id, value: v };
                    proof {
                        lemma_push_line(lines@, l);
                    }
                    lines.push(l);
                    let mut d = slot(&var, storage);
                    give_back(&mut d, id);
                    set_slot(&mut var, storage, d);
                    let written = lines.len();
                    assert(id < written);
                    id = id + 1;
                },
                Consonant::Duplicate => {
                    let mut d = slot(&var, storage);
                    let a = take(&mut d, storage);
                    give_next(&mut d, storage, a);
                    give_next(&mut d, storage, a);
                    set_slot(&mut var, storage, d);
                },
                Consonant::Exchange => {
                    let mut d = slot(&var, storage);
                    let a = take(&mut d, storage);
                    let b = take(&mut d, storage);
                    give_next(&mut d, storage, a);
                    give_next(&mut d, storage, b);
                    set_slot(&mut var, storage, d);
                },
                Consonant::Select(s) => {
                    storage = s;
                },
                Consonant::Move(s) => {
                    let mut d = slot(&var, storage);
                    let a = take(&mut d, storage);
                    set_slot(&mut var, storage, d);
                    let mut e = slot(&var, s);
                    give_back(&mut e, a);
                    set_slot(&mut var, s, e);
                },
                _ => {},
            }
        }
        n = n + 1;
        assert((views(var@), storage, lines@) == fuse_step(st, op));
        assert(storage == storage_after(init_storage, ops@.take(n as int)));
        assert(vars_track(var@, sizes_after(init_storage, presize as int, ops@.take(n as int)), id as nat));
    }
    assert(ops@.take(ops.len() as int) =~= ops@);
    let ghost final_sizes = sizes_after(init_storage, presize as int, ops@);
    let ghost done = fused_ops(init_storage, presize as nat, ops@);
    assert(lines@ =~= done.2 + stored(done.0, 0));
    let mut s: usize = 0;
    while s < STORAGES
        invariant
            s <= STORAGES,
            scoped(lines@),
            temps(lines@) == id,
            vars_track(var@, final_sizes, id as nat),
            forall|t: usize| #[trigger] moves(lines@, t, false) == if t == init_storage {
                presize as int
            } else {
                0
            },
            forall|t: usize|
                #[trigger] moves(lines@, t, true) == if t < s {
                    final_sizes[t as int]
                } else {
                    0
                },
            views(var@) == done.0,
            lines@ == done.2 + stored(done.0, s as nat),
        decreases STORAGES - s,
    {
        let d = &var[s];
        let ghost base = lines@;
        let mut j: usize = 0;
        while j < d.len()
            invariant
                j <= d.len(),
                d@ == var@[s as int]@,
                s < STORAGES,
                scoped(lines@),
                temps(lines@) == id,
                vars_track(var@, final_sizes, id as nat),
                forall|t: usize| #[trigger] moves(lines@, t, false) == if t == init_storage {
                    presize as int
                } else {
                    0
                },
                forall|t: usize|
                    #[trigger] moves(lines@, t, true) == if t < s {
                        final_sizes[t as int]
                    } else if t == s {
                        j as int
                    } else {
                        0
                    },
                views(var@) == done.0,
                lines@ == base + Seq::new(
                    j as nat,
                    |jj: int| Line::Store { storage: s, arg: done.0[s as int][jj] },
                ),
            decreases d.len() - j,
        {
            let x = d[j];
            assert(views(var@)[s as int] == var@[s as int]@);
            assert(var@[s as int]@.contains(x));
            let l = Line::Store { storage: s, arg: x };
            proof {
                lemma_push_line(lines@, l);
            }
            lines.push(l);
            j = j + 1;
            assert(lines@ =~= base + Seq::new(
                j as nat,
                |jj: int| Line::Store { storage: s, arg: done.0[s as int][jj] },
            ));
        }
        assert(views(var@)[s as int] == var@[s as int]@);
        assert(lines@ =~= done.2 + stored(done.0, (s + 1) as nat));
        s = s + 1;
    }
    lines
}

} // verus!
