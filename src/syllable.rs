use vstd::prelude::*;

use crate::field::STORAGES;

verus! {

/// The operation chosen by a syllable's leading consonant.
#[derive(Clone, Copy, Debug, PartialEq, Eq, Structural)]
pub enum Consonant {
    Halt,
    Add,
    Multiply,
    Subtract,
    Divide,
    Remainder,
    PrintDecimal,
    PrintUnicode,
    Pop,
    ScanDecimal,
    ScanUnicode,
    Push(i64),
    Duplicate,
    Exchange,
    Select(usize),
    Move(usize),
    Compare,
    Branch,
}

/// The direction and speed override chosen by a syllable's vowel.
#[derive(Clone, Copy, Debug, PartialEq, Eq, Structural)]
pub enum Vowel {
    Up,
    Down,
    Left,
    Right,
    UpTwo,
    DownTwo,
    LeftTwo,
    RightTwo,
    HorizontalFlip,
    VerticalFlip,
    Flip,
}

/// One cell of the program grid.
#[derive(Clone, Copy, Debug, PartialEq, Eq, Structural)]
pub struct Syllable {
    pub consonant: Option<Consonant>,
    pub vowel: Option<Vowel>,
}

impl Consonant {
    /// Storage indices carried by the operation are in range.
    pub open spec fn wf(self) -> bool {
        match self {
            Consonant::Select(i) => i < STORAGES,
            Consonant::Move(i) => i < STORAGES,
            Consonant::Push(n) => 0 <= n <= 9,
            _ => true,
        }
    }
}

impl Syllable {
    pub open spec fn wf(self) -> bool {
        match self.consonant {
            Some(c) => c.wf(),
            None => true,
        }
    }

    /// A cell that does nothing.
    pub fn empty() -> (r: Syllable)
        ensures
            r == (Syllable { consonant: None, vowel: None }),
    {
        Syllable { consonant: None, vowel: None }
    }
}

/// First code point of the precomposed Hangul syllable block.
pub const SYLLABLE_FIRST: u32 = 0xAC00;

/// Last code point decoded as a syllable.
pub const SYLLABLE_LAST: u32 = 0xD7AF;

/// The vowel selected by the medial index of a syllable.
pub open spec fn vowel_of(v: u32) -> Option<Vowel> {
    if v == 0 {
        Some(Vowel::Right)
    } else if v == 2 {
        Some(Vowel::RightTwo)
    } else if v == 4 {
        Some(Vowel::Left)
    } else if v == 6 {
        Some(Vowel::LeftTwo)
    } else if v == 8 {
        Some(Vowel::Up)
    } else if v == 12 {
        Some(Vowel::UpTwo)
    } else if v == 13 {
        Some(Vowel::Down)
    } else if v == 17 {
        Some(Vowel::DownTwo)
    } else if v == 18 {
        Some(Vowel::VerticalFlip)
    } else if v == 19 {
        Some(Vowel::Flip)
    } else if v == 20 {
        Some(Vowel::HorizontalFlip)
    } else {
        None
    }
}

/// Number of strokes of the trailing jamo with the given index.
pub open spec fn strokes(t: u32) -> i64 {
    let table: Seq<i64> = seq![
        0, 2, 4, 4, 2, 5, 5, 3, 5, 7, 9, 9, 7, 9, 9, 8, 4, 4, 6, 2, 4, 0, 3, 4, 3, 4, 4, 0
    ];
    if t < 28 {
        table[t as int]
    } else {
        0
    }
}

/// The consonant selected by the leading and trailing indices of a syllable.
pub open spec fn consonant_of(lead: u32, trail: u32) -> Option<Consonant> {
    if lead == 2 {
        Some(Consonant::Divide)
    } else if lead == 3 {
        Some(Consonant::Add)
    } else if lead == 4 {
        Some(Consonant::Multiply)
    } else if lead == 5 {
        Some(Consonant::Remainder)
    } else if lead == 6 {
        Some(
            if trail == 21 {
                Consonant::PrintDecimal
            } else if trail == 27 {
                Consonant::PrintUnicode
            } else {
                Consonant::Pop
            },
        )
    } else if lead == 7 {
        Some(
            if trail == 21 {
                Consonant::ScanDecimal
            } else if trail == 27 {
                Consonant::ScanUnicode
            } else {
                Consonant::Push(strokes(trail))
            },
        )
    } else if lead == 8 {
        Some(Consonant::Duplicate)
    } else if lead == 9 {
        Some(Consonant::Select(trail as usize))
    } else if lead == 10 {
        Some(Consonant::Move(trail as usize))
    } else if lead == 12 {
        Some(Consonant::Compare)
    } else if lead == 14 {
        Some(Consonant::Branch)
    } else if lead == 16 {
        Some(Consonant::Subtract)
    } else if lead == 17 {
        Some(Consonant::Exchange)
    } else if lead == 18 {
        Some(Consonant::Halt)
    } else {
        None
    }
}

/// The cell that a character stands for: outside the syllable block it does
/// nothing; inside, its offset splits into trailing, medial and leading indices.
pub open spec fn syllable_of(ch: char) -> Syllable {
    let i = ch as u32;
    if SYLLABLE_FIRST <= i && i <= SYLLABLE_LAST {
        let x = (i - SYLLABLE_FIRST) as u32;
        Syllable {
            consonant: consonant_of(x / 28 / 21, x % 28),
            vowel: vowel_of((x / 28) % 21),
        }
    } else {
        Syllable { consonant: None, vowel: None }
    }
}

fn decode_vowel(v: u32) -> (r: Option<Vowel>)
    ensures
        r == vowel_of(v),
{
    match v {
        0 => Some(Vowel::Right),
        2 => Some(Vowel::RightTwo),
        4 => Some(Vowel::Left),
        6 => Some(Vowel::LeftTwo),
        8 => Some(Vowel::Up),
        12 => Some(Vowel::UpTwo),
        13 => Some(Vowel::Down),
        17 => Some(Vowel::DownTwo),
        18 => Some(Vowel::VerticalFlip),
        19 => Some(Vowel::Flip),
        20 => Some(Vowel::HorizontalFlip),
        _ => None,
    }
}

fn count_strokes(t: u32) -> (r: i64)
    requires
        t < 28,
    ensures
        r == strokes(t),
        0 <= r <= 9,
{
    let table: [i64; 28] = [
        0, 2, 4, 4, 2, 5, 5, 3, 5, 7, 9, 9, 7, 9, 9, 8, 4, 4, 6, 2, 4, 0, 3, 4, 3, 4, 4, 0
    ];
    let r = table[t as usize];
    assert(table@ =~= seq![
        0i64, 2, 4, 4, 2, 5, 5, 3, 5, 7, 9, 9, 7, 9, 9, 8, 4, 4, 6, 2, 4, 0, 3, 4, 3, 4, 4, 0
    ]);
    r
}

fn decode_consonant(lead: u32, trail: u32) -> (r: Option<Consonant>)
    requires
        trail < 28,
    ensures
        r == consonant_of(lead, trail),
        match r {
            Some(c) => c.wf(),
            None => true,
        },
{
    match lead {
        2 => Some(Consonant::Divide),
        3 => Some(Consonant::Add),
        4 => Some(Consonant::Multiply),
        5 => Some(Consonant::Remainder),
        6 => Some(
            match trail {
                21 => Consonant::PrintDecimal,
                27 => Consonant::PrintUnicode,
                _ => Consonant::Pop,
            },
        ),
        7 => Some(
            match trail {
                21 => Consonant::ScanDecimal,
                27 => Consonant::ScanUnicode,
                _ => Consonant::Push(count_strokes(trail)),
            },
        ),
        8 => Some(Consonant::Duplicate),
        9 => Some(Consonant::Select(trail as usize)),
        10 => Some(Consonant::Move(trail as usize)),
        12 => Some(Consonant::Compare),
        14 => Some(Consonant::Branch),
        16 => Some(Consonant::Subtract),
        17 => Some(Consonant::Exchange),
        18 => Some(Consonant::Halt),
        _ => None,
    }
}

/// Decodes one character of program text into a cell.
pub fn decode(ch: char) -> (r: Syllable)
    ensures
        r == syllable_of(ch),
        r.wf(),
{
    let i = ch as u32;
    if i < SYLLABLE_FIRST || i > SYLLABLE_LAST {
        return Syllable::empty();
    }
    let x = i - SYLLABLE_FIRST;
    let trail = x % 28;
    let vowel = (x / 28) % 21;
    let lead = x / 28 / 21;
    Syllable { consonant: decode_consonant(lead, trail), vowel: decode_vowel(vowel) }
}

} // verus!
