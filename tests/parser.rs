use shortcut_parser::calculator::Calculator;
use shortcut_parser::keys::{MOD_CTRL, MOD_SHIFT, PERMUTATION_LIMIT};
use shortcut_parser::{
    parse_into_shortcut_list, validate_and_calculate_allocations, CharsWithIndex, Chord,
    ParseError, Shortcut,
};

fn compile(source: &str) -> Result<Vec<Shortcut>, ParseError> {
    let metadata = validate_and_calculate_allocations(source)?;
    let generator = parse_into_shortcut_list(metadata)?;
    generator.allocate_shortcut_list()
}

fn action(s: &Shortcut) -> String {
    s.action.iter().collect()
}

fn chord(key: u16, modifiers: u8) -> Chord {
    Chord { key, modifiers }
}

const KEY_A: u16 = 0;
const KEY_B: u16 = 1;
const KEY_C: u16 = 2;
const KEY_0: u16 = 26;
const KEY_1: u16 = 27;

#[test]
fn chars_with_index() {
    let mut iter = CharsWithIndex::new("a", 1);
    assert_eq!(iter.next(), Some('a'));
    assert_eq!(iter.next(), None);
    assert_eq!(iter.next(), None);

    let mut iter = CharsWithIndex::new("", 1);
    assert_eq!(iter.next(), None);
    assert_eq!(iter.next(), None);

    let mut iter = CharsWithIndex::new("你m好!!我是y只mao", 1);
    assert_eq!(iter.next(), Some('你'));
    assert_eq!(iter.next(), Some('m'));
    assert_eq!(iter.next(), Some('好'));
    assert_eq!(iter.next(), Some('!'));
    assert_eq!(iter.next(), Some('!'));
    assert_eq!(iter.next(), Some('我'));
    assert_eq!(iter.next(), Some('是'));
    assert_eq!(iter.next(), Some('y'));
    assert_eq!(iter.next(), Some('只'));
    assert_eq!(iter.next(), Some('m'));
    assert_eq!(iter.next(), Some('a'));
    assert_eq!(iter.next(), Some('o'));
    assert_eq!(iter.next(), None);
    assert_eq!(iter.next(), None);

    let source = "你m好!!我是y只mao";
    let mut iter = CharsWithIndex::new(source, 1);
    while let Some(c) = iter.next() {
        assert_eq!(&c.to_string(), &source[iter.prev..iter.post]);
    }
}

#[test]
fn selections_cover_every_combination_once() {
    let mut calc = Calculator::new(&vec![2, 3]);
    let mut seen = Vec::new();
    for k in 0..6 {
        calc.permute(k);
        seen.push(calc.permutation.clone());
    }
    assert_eq!(
        seen,
        vec![
            vec![0, 0],
            vec![0, 1],
            vec![0, 2],
            vec![1, 0],
            vec![1, 1],
            vec![1, 2]
        ]
    );
}

#[test]
fn selections_cycle_past_the_product() {
    let mut calc = Calculator::new(&vec![2]);
    let mut seen = Vec::new();
    for k in 0..6 {
        calc.permute(k);
        seen.push(calc.permutation[0]);
    }
    assert_eq!(seen, vec![0, 1, 0, 1, 0, 1]);
}

#[test]
fn end_to_end_example() {
    let list = compile("|ctrl+{{a,b}} | echo {{one,two}}").unwrap();
    assert_eq!(list.len(), 2);
    assert_eq!(list[0].hotkey, vec![chord(KEY_A, MOD_CTRL)]);
    assert_eq!(action(&list[0]), "echo one");
    assert_eq!(list[1].hotkey, vec![chord(KEY_B, MOD_CTRL)]);
    assert_eq!(action(&list[1]), "echo two");
}

#[test]
fn entry_without_groups_is_copied() {
    let list = compile("|ctrl+shift+a |   echo hi  ").unwrap();
    assert_eq!(list.len(), 1);
    assert_eq!(list[0].hotkey, vec![chord(KEY_A, MOD_CTRL | MOD_SHIFT)]);
    assert_eq!(action(&list[0]), "echo hi");
}

#[test]
fn compiling_twice_gives_the_same_list() {
    let source = "# bindings\n|{{a,b}};{{0,1}} | run {{x,y,z,w}}\n|c | other";
    let first = compile(source).unwrap();
    let second = compile(source).unwrap();
    assert_eq!(first.len(), 5);
    assert_eq!(first.len(), second.len());
    for (x, y) in first.iter().zip(second.iter()) {
        assert_eq!(x.hotkey, y.hotkey);
        assert_eq!(x.action, y.action);
    }
}

#[test]
fn body_selections_cycle_under_the_head() {
    let list = compile("|{{a,b,c}};{{0,1}} | {{x,y}}").unwrap();
    let hotkeys: Vec<Vec<Chord>> = list.iter().map(|s| s.hotkey.clone()).collect();
    assert_eq!(
        hotkeys,
        vec![
            vec![chord(KEY_A, 0), chord(KEY_0, 0)],
            vec![chord(KEY_A, 0), chord(KEY_1, 0)],
            vec![chord(KEY_B, 0), chord(KEY_0, 0)],
            vec![chord(KEY_B, 0), chord(KEY_1, 0)],
            vec![chord(KEY_C, 0), chord(KEY_0, 0)],
            vec![chord(KEY_C, 0), chord(KEY_1, 0)],
        ]
    );
    let actions: Vec<String> = list.iter().map(action).collect();
    assert_eq!(actions, vec!["x", "y", "x", "y", "x", "y"]);
}

#[test]
fn body_with_more_variants_than_head_is_rejected() {
    let r = validate_and_calculate_allocations("|{{a,b}} | {{x,y,z}}");
    assert!(matches!(r, Err(ParseError::BodyExceedsHead { row: 1 })));
}

#[test]
fn permutations_at_the_limit_compile() {
    assert_eq!(PERMUTATION_LIMIT, 1000);
    let source = "|{{a,b,c,d,e,f,g,h,i,j}};{{0,1,2,3,4,5,6,7,8,9}};{{k,l,m,n,o,p,q,r,s,t}} | x";
    let list = compile(source).unwrap();
    assert_eq!(list.len(), 1000);
}

#[test]
fn permutations_past_the_limit_fail() {
    let source =
        "|{{a,b,c,d,e,f,g,h,i,j}};{{0,1,2,3,4,5,6,7,8,9}};{{k,l,m,n,o,p,q,r,s,t}};{{u,v}} | x";
    let r = validate_and_calculate_allocations(source);
    assert!(matches!(r, Err(ParseError::TooManyPermutations { .. })));
}

#[test]
fn escaped_comma_stays_in_member() {
    let list = compile("|{{a,b}} | {{p\\,q,r}}").unwrap();
    assert_eq!(action(&list[0]), "p,q");
    assert_eq!(action(&list[1]), "r");
}

#[test]
fn escaped_line_break_is_dropped() {
    let list = compile("|{{a,b}} | {{x\\\ny,z}}").unwrap();
    assert_eq!(action(&list[0]), "xy");
    assert_eq!(action(&list[1]), "z");
}

#[test]
fn hotkey_starting_another_is_ambiguous() {
    let r = compile("|a | one\n|a;b | two");
    match r {
        Err(ParseError::Ambiguous { first, second }) => {
            assert_eq!(first, vec![chord(KEY_A, 0)]);
            assert_eq!(second, vec![chord(KEY_A, 0), chord(KEY_B, 0)]);
        }
        other => panic!("expected an ambiguity, got {:?}", other),
    }
}

#[test]
fn equal_hotkeys_are_ambiguous() {
    let r = compile("|a | one\n|a | two");
    assert!(matches!(r, Err(ParseError::Ambiguous { .. })));
}

#[test]
fn unrelated_hotkeys_compile() {
    let list = compile("|a | one\n|c | two").unwrap();
    assert_eq!(list.len(), 2);
    assert_eq!(list[0].hotkey, vec![chord(KEY_A, 0)]);
    assert_eq!(action(&list[0]), "one");
    assert_eq!(list[1].hotkey, vec![chord(KEY_C, 0)]);
    assert_eq!(action(&list[1]), "two");
}

#[test]
fn comments_and_blank_lines_before_entries() {
    let list = compile("# first\n   # indented\n\n  \n|space | x").unwrap();
    assert_eq!(list.len(), 1);
    assert_eq!(list[0].hotkey, vec![chord(36, 0)]);
}

#[test]
fn illegal_line_before_entries() {
    let r = validate_and_calculate_allocations("# ok\nhello\n|a | x");
    assert!(matches!(r, Err(ParseError::IllegalLine { row: 2 })));
}

#[test]
fn empty_source_gives_no_shortcuts() {
    let metadata = validate_and_calculate_allocations("").unwrap();
    assert_eq!(metadata.entries.len(), 0);
    assert_eq!(compile("# nothing here\n").unwrap().len(), 0);
}

#[test]
fn sizing_records_groups() {
    let m = validate_and_calculate_allocations("|{{a,b}};{{0,1,2}} | {{x,y}}\n|c | z").unwrap();
    assert_eq!(m.entries.len(), 2);
    assert_eq!(m.entries[0].head_sizes, vec![2, 3]);
    assert_eq!(m.entries[0].body_sizes, vec![2]);
    assert_eq!(m.entries[0].permutation_count, 6);
    assert_eq!(m.entries[1].permutation_count, 1);
    assert_eq!(m.entries[1].row, 2);
    assert_eq!(m.max_head_set_count, 2);
    assert_eq!(m.max_body_set_count, 1);
    assert_eq!(m.total_body_space, 3 * 6 + 1);
}

#[test]
fn comma_outside_group() {
    let r = validate_and_calculate_allocations("|a,b | x");
    assert!(matches!(r, Err(ParseError::UnexpectedComma { row: 1 })));
}

#[test]
fn single_open_brace() {
    let r = validate_and_calculate_allocations("|{a} | x");
    assert!(matches!(r, Err(ParseError::MissingOpenBrace { .. })));
}

#[test]
fn backslash_in_trigger_group() {
    let r = validate_and_calculate_allocations("|{{a\\,b}} | x");
    assert!(matches!(r, Err(ParseError::BackslashInHead { .. })));
}

#[test]
fn bar_in_trigger_group() {
    let r = validate_and_calculate_allocations("|{{a|b}} | x");
    assert!(matches!(r, Err(ParseError::BarInGroup { .. })));
}

#[test]
fn single_close_brace_in_action_group() {
    let r = validate_and_calculate_allocations("|{{a,b}} | {{x}y}}");
    assert!(matches!(r, Err(ParseError::MissingCloseBrace { .. })));
}

#[test]
fn unclosed_group() {
    let r = validate_and_calculate_allocations("|a | {{x,y");
    assert!(matches!(r, Err(ParseError::UnclosedGroup)));
}

#[test]
fn overlong_token() {
    let r = validate_and_calculate_allocations("|abcdefghijklmnopqrstuvwxyz | x");
    assert!(matches!(r, Err(ParseError::TokenTooLong { .. })));
}

#[test]
fn unknown_key_name() {
    let r = compile("|ctrl+foo | x");
    match r {
        Err(ParseError::UnknownKey { name, .. }) => {
            assert_eq!(name.iter().collect::<String>(), "foo");
        }
        other => panic!("expected an unknown key, got {:?}", other),
    }
}

#[test]
fn chord_without_key() {
    let r = compile("|ctrl;a | x");
    assert!(matches!(r, Err(ParseError::NoKey { .. })));
}

#[test]
fn chord_with_two_keys() {
    let r = compile("|a b | x");
    assert!(matches!(r, Err(ParseError::SecondKey { .. })));
}

#[test]
fn entries_split_at_line_start_bar() {
    let list = compile("|b | second\n|a | first\n  continued").unwrap();
    assert_eq!(list.len(), 2);
    assert_eq!(list[0].hotkey, vec![chord(KEY_A, 0)]);
    assert_eq!(action(&list[0]), "first\n  continued");
    assert_eq!(list[1].hotkey, vec![chord(KEY_B, 0)]);
    assert_eq!(action(&list[1]), "second");
}

#[test]
fn unmatched_close_in_trigger() {
    let r = validate_and_calculate_allocations("|a }} | x");
    assert!(matches!(r, Err(ParseError::UnmatchedClose { row: 1 })));
    let r = validate_and_calculate_allocations("|a}| x");
    assert!(matches!(r, Err(ParseError::UnmatchedClose { row: 1 })));
}

#[test]
fn token_limit_counts_bytes() {
    // Nine two-byte letters: 18 bytes, over the limit of 16.
    let r = validate_and_calculate_allocations("|ééééééééé | x");
    assert!(matches!(r, Err(ParseError::TokenTooLong { .. })));
    // Eight of them: 16 bytes, within the limit; the name is then unknown.
    let m = validate_and_calculate_allocations("|éééééééé | x").unwrap();
    let g = parse_into_shortcut_list(m);
    assert!(matches!(g, Err(ParseError::UnknownKey { .. })));
}

#[test]
fn entries_carry_their_rows() {
    let m = validate_and_calculate_allocations("|a | x\n|b | y").unwrap();
    let rows: Vec<usize> = m.entries.iter().map(|e| e.row).collect();
    assert_eq!(rows, vec![1, 2]);
    let m = validate_and_calculate_allocations("# c\n\n|a | x\n  more\n|b | y").unwrap();
    let rows: Vec<usize> = m.entries.iter().map(|e| e.row).collect();
    assert_eq!(rows, vec![3, 5]);
}
