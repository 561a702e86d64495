use palheui::block::{fuse, BinOp, Line, StorageKind};
use palheui::field::{Direction, Field, State};
use palheui::grid::split_lines;
use palheui::linearizer::{Body, Terminator};
use palheui::runtime::{FOOTER, HEADER};
use palheui::syllable::{decode, Consonant, Vowel};
use palheui::text::{optimize_block, push_decimal, push_term, render_body};
use palheui::{dimensions, transpile};

fn blocks_of(code: &str) -> String {
    let out = transpile(code);
    assert!(out.starts_with(HEADER));
    assert!(out.ends_with(FOOTER));
    out[HEADER.len()..out.len() - FOOTER.len()].to_string()
}

fn numbers_after(text: &str, marker: &str) -> Vec<usize> {
    let mut found = Vec::new();
    let mut rest = text;
    while let Some(at) = rest.find(marker) {
        rest = &rest[at + marker.len()..];
        let digits: String = rest.chars().take_while(|c| c.is_ascii_digit()).collect();
        if !digits.is_empty() {
            found.push(digits.parse().unwrap());
        }
    }
    found
}

fn labels_of(blocks: &str) -> Vec<usize> {
    blocks
        .lines()
        .filter(|l| l.starts_with('B'))
        .map(|l| l[1..].chars().take_while(|c| c.is_ascii_digit()).collect::<String>())
        .map(|d| d.parse().unwrap())
        .collect()
}

fn assert_labels_closed(blocks: &str) {
    let labels = labels_of(blocks);
    for target in numbers_after(blocks, "goto B") {
        assert!(labels.contains(&target), "goto B{target} has no label");
    }
}

fn halt_on(storage: usize) -> String {
    format!("    flush(&output); return size[{storage}] ? storage[{storage}].stack.memory[--size[{storage}]] : 0;")
}

#[test]
fn flip_twice_is_identity() {
    for d in [Direction::Up, Direction::Down, Direction::Left, Direction::Right] {
        assert_eq!(d.flipped().flipped(), d);
    }
}

#[test]
fn horizontal_then_vertical_is_flip() {
    for d in [Direction::Up, Direction::Down, Direction::Left, Direction::Right] {
        assert_eq!(d.horizontally_flipped().vertically_flipped(), d.flipped());
    }
    assert_eq!(Direction::Up.horizontally_flipped(), Direction::Up);
    assert_eq!(Direction::Left.vertically_flipped(), Direction::Left);
}

fn at(r: usize, c: usize, direction: Direction, speed: usize) -> State {
    State { r, c, direction, speed, storage: 0 }
}

#[test]
fn next_pos_wraps_to_last_row_and_first_row() {
    let f = Field { w: 3, h: 4 };
    assert_eq!(f.next_pos(&at(1, 1, Direction::Up, 2)), (3, 1));
    assert_eq!(f.next_pos(&at(2, 1, Direction::Up, 2)), (0, 1));
    assert_eq!(f.next_pos(&at(0, 1, Direction::Up, 1)), (3, 1));
    assert_eq!(f.next_pos(&at(2, 1, Direction::Down, 2)), (0, 1));
    assert_eq!(f.next_pos(&at(1, 1, Direction::Down, 2)), (3, 1));
    assert_eq!(f.next_pos(&at(3, 0, Direction::Down, 1)), (0, 0));
}

#[test]
fn next_pos_wraps_columns() {
    let f = Field { w: 5, h: 1 };
    assert_eq!(f.next_pos(&at(0, 1, Direction::Left, 2)), (0, 4));
    assert_eq!(f.next_pos(&at(0, 3, Direction::Left, 2)), (0, 1));
    assert_eq!(f.next_pos(&at(0, 3, Direction::Right, 2)), (0, 0));
    assert_eq!(f.next_pos(&at(0, 2, Direction::Right, 2)), (0, 4));
}

#[test]
fn reverse_next_flips_then_steps() {
    let f = Field { w: 3, h: 3 };
    let s = at(0, 2, Direction::Left, 1).reverse_next(&f);
    assert_eq!(s, at(0, 0, Direction::Right, 1));
    let s = at(1, 1, Direction::Down, 2).reverse_next(&f);
    assert_eq!(s, at(2, 1, Direction::Up, 2));
}

#[test]
fn decodes_syllables() {
    let hui = decode('희');
    assert_eq!(hui.consonant, Some(Consonant::Halt));
    assert_eq!(hui.vowel, Some(Vowel::Flip));
    let ban = decode('반');
    assert_eq!(ban.consonant, Some(Consonant::Push(2)));
    assert_eq!(ban.vowel, Some(Vowel::Right));
    assert_eq!(decode('박').consonant, Some(Consonant::Push(2)));
    assert_eq!(decode('발').consonant, Some(Consonant::Push(5)));
    assert_eq!(decode('망').consonant, Some(Consonant::PrintDecimal));
    assert_eq!(decode('맣').consonant, Some(Consonant::PrintUnicode));
    assert_eq!(decode('마').consonant, Some(Consonant::Pop));
    assert_eq!(decode('방').consonant, Some(Consonant::ScanDecimal));
    assert_eq!(decode('상').consonant, Some(Consonant::Select(21)));
    assert_eq!(decode('쌍').consonant, Some(Consonant::Move(21)));
    assert_eq!(decode('효').vowel, Some(Vowel::UpTwo));
    let a = decode('a');
    assert_eq!(a.consonant, None);
    assert_eq!(a.vowel, None);
    let o = decode('아');
    assert_eq!(o.consonant, None);
    assert_eq!(o.vowel, Some(Vowel::Right));
}

#[test]
fn storage_kinds() {
    assert_eq!(StorageKind::from(21), StorageKind::Queue);
    assert_eq!(StorageKind::from(27), StorageKind::Stream);
    assert_eq!(StorageKind::from(0), StorageKind::Stack);
}

#[test]
fn splits_lines_like_str_lines() {
    let ls = split_lines("ab\r\ncd\n");
    assert_eq!(ls, vec![vec!['a', 'b'], vec!['c', 'd']]);
    let ls = split_lines("x\n\ny\r");
    assert_eq!(ls, vec![vec!['x'], vec![], vec!['y', '\r']]);
    assert_eq!(split_lines(""), Vec::<Vec<char>>::new());
}

#[test]
fn dimensions_sum_line_lengths() {
    assert_eq!(dimensions("반\n하"), (2, 2));
    assert_eq!(dimensions("박망희"), (3, 1));
    assert_eq!(dimensions("ab\r\ncde\n"), (5, 2));
    assert_eq!(dimensions("\n\n"), (0, 2));
}

#[test]
fn decimal_rendering() {
    for (n, text) in [(0u128, "0"), (7, "7"), (10, "10"), (12345, "12345")] {
        let mut s = String::from("x");
        push_decimal(&mut s, n);
        assert_eq!(s, format!("x{text}"));
    }
}

#[test]
fn fuse_hoists_then_computes_then_stores() {
    let lines = fuse(0, 2, &vec![Consonant::Compare]);
    assert_eq!(
        lines,
        vec![
            Line::Hoist { storage: 0, id: 0 },
            Line::Hoist { storage: 0, id: 1 },
            Line::Binary { id: 2, op: BinOp::Ge, lhs: 1, rhs: 0 },
            Line::Store { storage: 0, arg: 2 },
        ]
    );
}

#[test]
fn fuse_queue_order() {
    let ops = vec![
        Consonant::Push(3),
        Consonant::Push(4),
        Consonant::Subtract,
        Consonant::Exchange,
        Consonant::Move(0),
    ];
    let lines = fuse(21, 1, &ops);
    assert_eq!(
        lines,
        vec![
            Line::Hoist { storage: 21, id: 0 },
            Line::Constant { id: 1, value: 3 },
            Line::Constant { id: 2, value: 4 },
            Line::Binary { id: 3, op: BinOp::Sub, lhs: 1, rhs: 0 },
            Line::Store { storage: 0, arg: 3 },
            Line::Store { storage: 21, arg: 2 },
        ]
    );
}

#[test]
fn fuse_duplicate_and_print() {
    let ops = vec![Consonant::Push(5), Consonant::Duplicate, Consonant::PrintUnicode, Consonant::Pop];
    let lines = fuse(0, 0, &ops);
    assert_eq!(
        lines,
        vec![Line::Constant { id: 0, value: 5 }, Line::Print { unicode: true, arg: 0 }]
    );
}

#[test]
fn renders_bodies() {
    assert_eq!(render_body(4, &vec![]), "B4:");
    let entry = State { r: 0, c: 0, direction: Direction::Down, speed: 1, storage: 21 };
    let body = Body { entry, init_storage: 21, presize: 1, ops: vec![Consonant::ScanDecimal] };
    assert_eq!(
        optimize_block(6, &body),
        "B6:{\n    size[21]--; integer v0 = pop_queue(&storage[21].queue);\n    integer v1 = scan_decimal(&input);\n    size[21]++; push_queue(&storage[21].queue, v0, size[21]);\n    size[21]++; push_queue(&storage[21].queue, v1, size[21]);\n}"
    );
}

#[test]
fn renders_terminators() {
    let mut s = String::new();
    push_term(&mut s, &Terminator::SizeCheck { storage: 3, need: 2, under: 1, over: 5 });
    assert_eq!(s, "    if (size[3] < 2) goto B2; else goto B10;");
    let mut s = String::new();
    push_term(&mut s, &Terminator::Branch { storage: 21, nonzero: 2, zero: 0 });
    assert_eq!(s, "    if ((size[21]--, pop_queue(&storage[21].queue))) goto B4; else goto B0;");
    let mut s = String::new();
    push_term(&mut s, &Terminator::Halt { storage: 21 });
    assert_eq!(s, "    flush(&output); return size[21] ? pop_queue(&storage[21].queue) : 0;");
}

#[test]
fn single_halt_cell() {
    assert_eq!(blocks_of("희"), format!("B0:\n{}\n", halt_on(0)));
}

#[test]
fn push_then_halt_on_next_line() {
    let expected = "B0:{\n    integer v0 = 2;\n    integer v1 = 2;\n    push_stack(&storage[0].stack, size[0]++, v0);\n    push_stack(&storage[0].stack, size[0]++, v1);\n}\n    goto B2;\nB2:{\n    integer v0 = 2;\n    push_stack(&storage[0].stack, size[0]++, v0);\n}\n    goto B2;\n";
    assert_eq!(blocks_of("반\n하"), expected);
}

#[test]
fn compare_without_operands_takes_the_underflow_branch() {
    let blocks = blocks_of("아주나맣");
    assert!(blocks.starts_with("B0:\n    if (size[0] < 2) goto B2; else goto B10;\n"));
    assert!(!blocks.contains(" / "));
    assert!(blocks.contains("integer v2 = v1 >= v0;"));
    assert_labels_closed(&blocks);
}

#[test]
fn push_print_halt() {
    let expected = format!(
        "B0:{{\n    integer v0 = 2;\n    print_decimal(&output, v0);\n}}\n{}\n",
        halt_on(0)
    );
    assert_eq!(blocks_of("박망희"), expected);
}

#[test]
fn speed_two_on_one_row_terminates() {
    let blocks = blocks_of("박요망희");
    assert!(blocks.contains("goto B"));
    assert_labels_closed(&blocks);
    let blocks = blocks_of("발효망희");
    assert!(blocks.ends_with(&format!("{}\n", halt_on(0))));
    assert_labels_closed(&blocks);
}

#[test]
fn direction_only_cycle_closes_with_a_jump() {
    let blocks = blocks_of("우어\n아오");
    assert_eq!(blocks, "B0:\n    goto B2;\nB2:\n    goto B2;\n");
}

#[test]
fn hangul_free_text_jumps_to_itself() {
    assert_eq!(blocks_of("abc"), "B0:\n    goto B0;\n");
    assert_eq!(blocks_of("hello\nworld"), "B0:\n    goto B0;\n");
}

#[test]
fn same_source_same_output() {
    let src = "상박쌍빠망희\n아주나맣";
    assert_eq!(transpile(src), transpile(src));
}

#[test]
fn branch_and_queue_program_is_closed() {
    let src = "상박박다쌍치망희\n희어어어어어어어";
    let blocks = blocks_of(src);
    assert!(blocks.contains("pop_queue(&storage[21].queue)"));
    assert_labels_closed(&blocks);
    let labels = labels_of(&blocks);
    assert!(labels.iter().all(|l| l % 2 == 0));
}

#[test]
fn every_label_appears_once() {
    let blocks = blocks_of("아주나맣");
    let mut labels = labels_of(&blocks);
    let n = labels.len();
    labels.dedup();
    assert_eq!(labels.len(), n);
}
