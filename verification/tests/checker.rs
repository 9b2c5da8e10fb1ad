use push_swap::checker::{check, is_blank, parse_line, read_instructions};
use push_swap::instruction::Instruction::{PushA, PushB, ReverseRotateBoth, RotateA, SwapA};
use push_swap::options::{SolveStrategy, StackType};
use push_swap::stack::{LLStack, Stack, VDStack, VecStack};
use push_swap::text::{push_decimal, render, render_moves, trace_line};

fn lines(text: &str) -> Vec<String> {
    text.lines().map(String::from).collect()
}

#[test]
fn blank_characters() {
    for c in [' ', '\t', '\n', '\r', '\u{0B}', '\u{0C}', '\u{85}', '\u{A0}', '\u{1680}',
        '\u{2000}', '\u{200A}', '\u{2028}', '\u{2029}', '\u{202F}', '\u{205F}', '\u{3000}']
    {
        assert!(is_blank(c));
    }
    for c in ['a', '0', '\u{08}', '\u{0E}', '\u{200B}', '\u{FEFF}', '_'] {
        assert!(!is_blank(c));
    }
    for code in 0..0x3100u32 {
        if let Some(c) = char::from_u32(code) {
            assert_eq!(is_blank(c), c.is_whitespace());
        }
    }
}

#[test]
fn a_line_is_trimmed_before_it_is_read() {
    assert_eq!(parse_line("pa").unwrap(), Some(PushA));
    assert_eq!(parse_line("  pa  ").unwrap(), Some(PushA));
    assert_eq!(parse_line("\trrr\r").unwrap(), Some(ReverseRotateBoth));
    assert_eq!(parse_line("\u{3000}sa\u{A0}").unwrap(), Some(SwapA));
}

#[test]
fn a_blank_line_holds_no_move() {
    assert_eq!(parse_line("").unwrap(), None);
    assert_eq!(parse_line("   ").unwrap(), None);
    assert_eq!(parse_line("\t \r").unwrap(), None);
}

#[test]
fn an_unknown_line_comes_back_trimmed() {
    assert_eq!(parse_line("xx").unwrap_err().0, "xx");
    assert_eq!(parse_line("  p a ").unwrap_err().0, "p a");
    assert_eq!(parse_line(" PA").unwrap_err().0, "PA");
    assert_eq!(parse_line("pa pb").unwrap_err().0, "pa pb");
    assert_eq!(parse_line(" é ").unwrap_err().0, "é");
}

#[test]
fn lines_are_read_in_order() {
    assert_eq!(read_instructions(&lines("pb\nra\npa\n")).unwrap(), vec![PushB, RotateA, PushA]);
    assert_eq!(read_instructions(&lines("\n\n pb \n\n\nsa\n   \n")).unwrap(), vec![PushB, SwapA]);
    assert_eq!(read_instructions(&lines("")).unwrap(), vec![]);
}

#[test]
fn the_first_unknown_line_ends_the_reading() {
    assert_eq!(read_instructions(&lines("pb\n oops \nzz\npa")).unwrap_err().0, "oops");
    assert_eq!(read_instructions(&lines("zz")).unwrap_err().0, "zz");
}

#[test]
fn check_says_no_for_moves_that_do_not_sort() {
    let instrs = read_instructions(&lines("pb\nra\npa\n")).unwrap();
    let outcome = check(VecStack::from_vec(vec![3, 1, 2]), &instrs);
    assert!(!outcome.sorted);
    assert_eq!(outcome.exit_status(), 1);
    assert_eq!(outcome.moves, 3);
    assert_eq!(outcome.stack.to_vec(), vec![3, 2, 1]);
    assert_eq!(outcome.side_stack.to_vec(), Vec::<u32>::new());
}

#[test]
fn check_says_yes_for_a_swap_of_two() {
    let instrs = read_instructions(&lines("sa\n")).unwrap();
    let outcome = check(LLStack::from_vec(vec![2, 1]), &instrs);
    assert!(outcome.sorted);
    assert_eq!(outcome.moves, 1);
    assert_eq!(outcome.exit_status(), 0);
    assert_eq!(outcome.stack.to_vec(), vec![1, 2]);
}

#[test]
fn check_wants_the_second_stack_empty() {
    let outcome = check(VDStack::from_vec(vec![1, 2]), &vec![PushB]);
    assert!(!outcome.sorted);
    assert_eq!(outcome.exit_status(), 1);
    assert_eq!(outcome.stack.to_vec(), vec![2]);
    assert_eq!(outcome.side_stack.to_vec(), vec![1]);
}

#[test]
fn check_without_moves() {
    let outcome = check(VecStack::from_vec(vec![1, 2, 3]), &vec![]);
    assert!(outcome.sorted);
    assert_eq!(outcome.moves, 0);
    let outcome = check(VecStack::from_vec(vec![2, 1, 3]), &vec![]);
    assert!(!outcome.sorted);
    let outcome = check(VecStack::from_vec(vec![]), &vec![]);
    assert!(outcome.sorted);
}

#[test]
fn strategy_names() {
    for (name, strategy) in [
        ("astar", SolveStrategy::AStar),
        ("a*", SolveStrategy::AStar),
        ("par-astar", SolveStrategy::ParAStar),
        ("para*", SolveStrategy::ParAStar),
        ("naive-insert", SolveStrategy::NaiveInsert),
        ("naive", SolveStrategy::NaiveInsert),
        ("smart-insert", SolveStrategy::SmartInsert),
        ("smart", SolveStrategy::SmartInsert),
    ] {
        assert_eq!(SolveStrategy::parse(name), Ok(strategy));
        assert_eq!(SolveStrategy::from_lowercase(name), Ok(strategy));
    }
}

#[test]
fn strategy_names_in_any_case() {
    assert_eq!(SolveStrategy::parse("AStar"), Ok(SolveStrategy::AStar));
    assert_eq!(SolveStrategy::parse("SMART"), Ok(SolveStrategy::SmartInsert));
    assert_eq!(SolveStrategy::parse("Par-AStar"), Ok(SolveStrategy::ParAStar));
    assert_eq!(SolveStrategy::from_lowercase("SMART"), Err(String::from("SMART")));
}

#[test]
fn unknown_strategy_comes_back_in_lower_case() {
    assert_eq!(SolveStrategy::parse("Dumb"), Err(String::from("dumb")));
    assert_eq!(SolveStrategy::parse(""), Err(String::new()));
    assert_eq!(SolveStrategy::parse(" astar"), Err(String::from(" astar")));
}

#[test]
fn container_names() {
    for (name, kind) in [
        ("linked-list", StackType::LinkedList),
        ("ll", StackType::LinkedList),
        ("vec-deque", StackType::VecDeque),
        ("vd", StackType::VecDeque),
        ("vec", StackType::Vec),
        ("v", StackType::Vec),
    ] {
        assert_eq!(StackType::parse(name), Ok(kind));
        assert_eq!(StackType::from_lowercase(name), Ok(kind));
    }
    assert_eq!(StackType::parse("LL"), Ok(StackType::LinkedList));
    assert_eq!(StackType::parse("Vec-Deque"), Ok(StackType::VecDeque));
    assert_eq!(StackType::parse("lin\u{212A}ed-list"), Ok(StackType::LinkedList));
    assert_eq!(StackType::parse("Array"), Err(String::from("array")));
    assert_eq!(StackType::from_lowercase("LL"), Err(String::from("LL")));
}

#[test]
fn names_parse_through_from_str() {
    assert_eq!("Smart".parse::<SolveStrategy>(), Ok(SolveStrategy::SmartInsert));
    assert_eq!("VD".parse::<StackType>(), Ok(StackType::VecDeque));
    assert_eq!("nope".parse::<StackType>(), Err(String::from("nope")));
    assert_eq!("rrb".parse::<push_swap::instruction::Instruction>().unwrap().as_str(), "rrb");
    assert_eq!("RRB".parse::<push_swap::instruction::Instruction>().unwrap_err().0, "RRB");
}

#[test]
fn numbers_in_decimal() {
    for (n, text) in [(0u32, "0"), (7, "7"), (10, "10"), (909, "909"), (4294967295, "4294967295")]
    {
        let mut out = String::from("x");
        push_decimal(&mut out, n);
        assert_eq!(out, format!("x{}", text));
    }
    for n in (0..100000u32).step_by(37) {
        let mut out = String::new();
        push_decimal(&mut out, n);
        assert_eq!(out, format!("{}", n));
    }
}

#[test]
fn a_stack_on_one_line() {
    assert_eq!(render(&vec![]), "");
    assert_eq!(render(&vec![5]), "5");
    assert_eq!(render(&vec![3, 1, 2]), "3 1 2");
}

#[test]
fn moves_one_per_line() {
    assert_eq!(render_moves(&vec![]), "");
    assert_eq!(render_moves(&vec![PushA]), "pa\n");
    assert_eq!(render_moves(&vec![PushA, ReverseRotateBoth, SwapA]), "pa\nrrr\nsa\n");
}

#[test]
fn trace_lines_are_aligned() {
    assert_eq!(trace_line(&PushB, &vec![1, 2], &vec![3], 5), "pb  => 1 2   | 3");
    assert_eq!(trace_line(&ReverseRotateBoth, &vec![10, 2], &vec![], 0), "rrr => 10 2 | ");
    assert_eq!(trace_line(&SwapA, &vec![], &vec![7, 8], 3), "sa  =>     | 7 8");
    assert_eq!(trace_line(&SwapA, &vec![1, 2, 3], &vec![], 5), "sa  => 1 2 3 | ");
}
