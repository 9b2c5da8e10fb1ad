use push_swap::instruction::Instruction;
use push_swap::instruction::Instruction::{
    PushA, PushB, ReverseRotateA, ReverseRotateB, RotateA, RotateB, SwapA,
};
use push_swap::options::SolveStrategy;
use push_swap::solver::astar::astar;
use push_swap::solver::dumb::DumbSolver;
use push_swap::solver::naive_insert::naive_insert;
use push_swap::solver::par_astar::par_astar;
use push_swap::solver::smart_insert::{landing_place, rotation_costs, smart_insert};
use push_swap::solver::{solve, solve_with};
use push_swap::stack::{LLStack, Stack, VDStack, VecStack};
use push_swap::utils::execute_all;

fn replayed(instrs: &Vec<Instruction>, input: &[u32]) -> (Vec<u32>, Vec<u32>) {
    let mut a = VecStack::from_vec(input.to_vec());
    let mut b = VecStack::new();
    execute_all(instrs, &mut a, &mut b);
    (a.to_vec(), b.to_vec())
}

fn solves(instrs: &Vec<Instruction>, input: &[u32]) -> bool {
    let mut expected = input.to_vec();
    expected.sort();
    replayed(instrs, input) == (expected, vec![])
}

fn permutations(n: u32) -> Vec<Vec<u32>> {
    if n == 0 {
        return vec![vec![]];
    }
    let mut all = Vec::new();
    for shorter in permutations(n - 1) {
        for at in 0..=shorter.len() {
            let mut longer = shorter.clone();
            longer.insert(at, n);
            all.push(longer);
        }
    }
    all
}

#[test]
fn naive_insert_turns_to_the_pivot() {
    let out = naive_insert(VecStack::from_vec(vec![3, 1, 2]));
    assert_eq!(out, vec![ReverseRotateA, ReverseRotateA]);
    assert!(solves(&out, &[3, 1, 2]));
    assert!(out.len() <= 8);
}

#[test]
fn naive_insert_pushes_the_minimum() {
    let out = naive_insert(VecStack::from_vec(vec![2, 1, 3]));
    assert_eq!(out, vec![ReverseRotateA, ReverseRotateA, PushB, ReverseRotateA, PushA]);
    assert!(solves(&out, &[2, 1, 3]));
}

#[test]
fn naive_insert_leaves_a_sorted_stack_alone() {
    assert_eq!(naive_insert(VecStack::from_vec(vec![1, 2, 3, 4, 5])), vec![]);
    assert_eq!(naive_insert(LLStack::from_vec(vec![1, 2, 3, 4, 5])), vec![]);
    assert_eq!(naive_insert(VDStack::from_vec(vec![1, 2, 3, 4, 5])), vec![]);
}

#[test]
fn naive_insert_on_tiny_stacks() {
    assert_eq!(naive_insert(VecStack::from_vec(vec![])), vec![]);
    assert_eq!(naive_insert(VecStack::from_vec(vec![7])), vec![ReverseRotateA, PushB, PushA]);
    let out = naive_insert(VecStack::from_vec(vec![2, 1]));
    assert!(solves(&out, &[2, 1]));
}

#[test]
fn naive_insert_sorts_every_permutation() {
    for n in 0..=6 {
        for input in permutations(n) {
            let out = naive_insert(VDStack::from_vec(input.clone()));
            assert!(solves(&out, &input));
        }
    }
}

#[test]
fn naive_insert_sorts_with_repeated_elements() {
    for input in [vec![2, 2, 1], vec![1, 1, 1], vec![3, 1, 3, 1], vec![0, 5, 0, 5, 2]] {
        let out = naive_insert(VecStack::from_vec(input.clone()));
        assert!(solves(&out, &input));
    }
}

#[test]
fn smart_insert_on_two() {
    let out = smart_insert(VecStack::from_vec(vec![2, 1]));
    assert_eq!(out, vec![PushB, PushB, RotateB, PushA, PushA]);
    assert!(solves(&out, &[2, 1]));
}

#[test]
fn smart_insert_on_three() {
    let out = smart_insert(VecStack::from_vec(vec![3, 1, 2]));
    assert_eq!(
        out,
        vec![PushB, PushB, ReverseRotateA, PushB, ReverseRotateB, PushA, PushA, PushA]
    );
    assert!(solves(&out, &[3, 1, 2]));
}

#[test]
fn smart_insert_on_tiny_stacks() {
    assert_eq!(smart_insert(VecStack::from_vec(vec![])), vec![]);
    assert_eq!(smart_insert(VecStack::from_vec(vec![5])), vec![PushB, PushA]);
}

#[test]
fn smart_insert_sorts_a_sorted_stack() {
    let out = smart_insert(VecStack::from_vec(vec![1, 2, 3, 4, 5]));
    assert!(solves(&out, &[1, 2, 3, 4, 5]));
}

#[test]
fn smart_insert_sorts_every_permutation() {
    for n in 0..=6 {
        for input in permutations(n) {
            let out = smart_insert(LLStack::from_vec(input.clone()));
            assert!(solves(&out, &input));
        }
    }
}

#[test]
fn smart_insert_sorts_a_long_stack() {
    let mut input: Vec<u32> = Vec::new();
    let mut x: u32 = 1;
    for _ in 0..250 {
        x = x.wrapping_mul(1103515245).wrapping_add(12345);
        input.push(x);
    }
    input.sort();
    input.dedup();
    let mut mixed: Vec<u32> = Vec::new();
    for (i, v) in input.iter().enumerate() {
        if i % 2 == 0 {
            mixed.push(*v);
        } else {
            mixed.insert(0, *v);
        }
    }
    let out = smart_insert(VDStack::from_vec(mixed.clone()));
    assert!(solves(&out, &mixed));
    let naive = naive_insert(VDStack::from_vec(mixed.clone()));
    assert!(solves(&naive, &mixed));
}

#[test]
fn insertion_solvers_do_not_depend_on_the_container() {
    for input in permutations(5) {
        let v = naive_insert(VecStack::from_vec(input.clone()));
        assert_eq!(v, naive_insert(VDStack::from_vec(input.clone())));
        assert_eq!(v, naive_insert(LLStack::from_vec(input.clone())));
        let s = smart_insert(VecStack::from_vec(input.clone()));
        assert_eq!(s, smart_insert(VDStack::from_vec(input.clone())));
        assert_eq!(s, smart_insert(LLStack::from_vec(input.clone())));
    }
}

#[test]
fn rotation_costs_count_unpaired_rotations() {
    assert_eq!(rotation_costs(5, 3, 2, 1), (1, 1));
    assert_eq!(rotation_costs(5, 3, 0, 3), (3, 5));
    assert_eq!(rotation_costs(10, 0, 4, 0), (4, 6));
    assert_eq!(rotation_costs(1, 1, 0, 0), (0, 0));
    assert_eq!(rotation_costs(7, 7, 7, 0), (7, 7));
}

#[test]
fn landing_place_prefers_a_fit() {
    let side = VecStack::from_vec(vec![5, 3, 1]);
    assert_eq!(landing_place(&side, 4), 1);
    assert_eq!(landing_place(&side, 2), 2);
    assert_eq!(landing_place(&side, 9), 0);
    assert_eq!(landing_place(&side, 0), 0);
    let turned = VecStack::from_vec(vec![1, 5, 3]);
    assert_eq!(landing_place(&turned, 9), 1);
    assert_eq!(landing_place(&turned, 0), 1);
    assert_eq!(landing_place(&turned, 4), 2);
    assert_eq!(landing_place(&turned, 2), 3);
    assert_eq!(landing_place(&VecStack::new(), 4), 0);
}

#[test]
fn shortest_rotations() {
    let on_a = |s: &VecStack, at: usize| push_swap::solver::naive_insert::shortest_rotation(s, at);
    let on_b = |s: &VecStack, at: usize| push_swap::solver::smart_insert::shortest_rotation(s, at);
    let s = VecStack::from_vec(vec![1, 2, 3, 4, 5]);
    assert_eq!(on_a(&s, 0), (RotateA, 0));
    assert_eq!(on_a(&s, 1), (RotateA, 1));
    assert_eq!(on_a(&s, 2), (ReverseRotateA, 3));
    assert_eq!(on_a(&s, 4), (ReverseRotateA, 1));
    assert_eq!(on_a(&s, 5), (ReverseRotateA, 0));
    assert_eq!(on_b(&s, 0), (RotateB, 0));
    assert_eq!(on_b(&s, 2), (RotateB, 2));
    assert_eq!(on_b(&s, 3), (ReverseRotateB, 2));
    assert_eq!(on_b(&s, 5), (ReverseRotateB, 0));
    let one = VecStack::from_vec(vec![1]);
    assert_eq!(on_a(&one, 0), (ReverseRotateA, 1));
    assert_eq!(on_b(&one, 0), (RotateB, 0));
}

#[test]
fn dumb_solver_hands_out_the_naive_moves() {
    for n in 0..=5 {
        for input in permutations(n) {
            let expected = naive_insert(VecStack::from_vec(input.clone()));
            let mut solver = DumbSolver::new(VecStack::from_vec(input.clone()));
            let mut out = Vec::new();
            while let Some(instr) = solver.next() {
                out.push(instr);
                assert!(out.len() <= expected.len());
            }
            assert_eq!(out, expected);
            assert_eq!(solver.next(), None);
            assert_eq!(solver.next(), None);
        }
    }
}

#[test]
fn dumb_solver_first_moves() {
    let mut solver = DumbSolver::new(LLStack::from_vec(vec![2, 1, 3]));
    assert_eq!(solver.next(), Some(ReverseRotateA));
    assert_eq!(solver.next(), Some(ReverseRotateA));
    assert_eq!(solver.next(), Some(PushB));
    assert_eq!(solver.next(), Some(ReverseRotateA));
    assert_eq!(solver.next(), Some(PushA));
    assert_eq!(solver.next(), None);
}

#[test]
fn astar_finds_the_single_move() {
    assert_eq!(astar(VecStack::from_vec(vec![2, 1])), Some(vec![SwapA]));
    assert_eq!(astar(VecStack::from_vec(vec![3, 1, 2])), Some(vec![RotateA]));
    assert_eq!(astar(VecStack::from_vec(vec![2, 3, 1])), Some(vec![ReverseRotateA]));
}

#[test]
fn astar_leaves_a_sorted_stack_alone() {
    assert_eq!(astar(VecStack::from_vec(vec![1, 2, 3, 4, 5])), Some(vec![]));
    assert_eq!(astar(VecStack::from_vec(vec![])), Some(vec![]));
    assert_eq!(astar(VecStack::from_vec(vec![4])), Some(vec![]));
}

#[test]
fn astar_sorts_five_in_reverse() {
    let input = [5, 4, 3, 2, 1];
    let out = astar(VDStack::from_vec(input.to_vec())).unwrap();
    assert_eq!(replayed(&out, &input), (vec![1, 2, 3, 4, 5], vec![]));
}

#[test]
fn astar_sorts_every_permutation_of_four() {
    for input in permutations(4) {
        let out = astar(LLStack::from_vec(input.clone())).unwrap();
        assert!(solves(&out, &input));
        let naive = naive_insert(LLStack::from_vec(input.clone()));
        assert!(out.len() <= naive.len());
    }
}

#[test]
fn astar_is_no_longer_than_three_on_three() {
    for input in permutations(3) {
        let out = astar(VecStack::from_vec(input.clone())).unwrap();
        assert!(solves(&out, &input));
        assert!(out.len() <= 2);
    }
}

#[test]
fn par_astar_finds_the_single_move() {
    assert_eq!(par_astar(0, VecStack::from_vec(vec![2, 1])), Some(vec![SwapA]));
    assert_eq!(par_astar(3, VecStack::from_vec(vec![2, 1])), Some(vec![SwapA]));
    assert_eq!(par_astar(1, VecStack::from_vec(vec![3, 1, 2])), Some(vec![RotateA]));
}

#[test]
fn par_astar_sorts_five_in_reverse() {
    let input = [5, 4, 3, 2, 1];
    for extra in [0, 1, 3, 7] {
        let out = par_astar(extra, VDStack::from_vec(input.to_vec())).unwrap();
        assert_eq!(replayed(&out, &input), (vec![1, 2, 3, 4, 5], vec![]));
    }
}

#[test]
fn par_astar_sorts_every_permutation_of_four() {
    for input in permutations(4) {
        for extra in [0, 2] {
            let found = par_astar(extra, VecStack::from_vec(input.clone()));
            if input == vec![1, 2, 3, 4] {
                continue;
            }
            assert!(solves(&found.unwrap(), &input));
        }
    }
}

#[test]
fn par_astar_with_the_largest_worker_count() {
    let out = par_astar(usize::MAX, VecStack::from_vec(vec![2, 3, 1])).unwrap();
    assert!(solves(&out, &[2, 3, 1]));
}

#[test]
fn par_astar_never_looks_at_the_seed() {
    // the seed is no neighbour of any node: a sorted stack is passed over,
    // and every way back to it leads through a closed position
    assert_eq!(par_astar(1, VecStack::from_vec(vec![1, 2, 3])), None);
    assert_eq!(par_astar(0, VecStack::from_vec(vec![1, 2, 3, 4])), None);
    assert_eq!(par_astar(0, VecStack::from_vec(vec![])), None);
}

#[test]
fn every_strategy_sorts_on_every_container() {
    let strategies = [
        SolveStrategy::AStar,
        SolveStrategy::ParAStar,
        SolveStrategy::NaiveInsert,
        SolveStrategy::SmartInsert,
    ];
    for input in [vec![2u32, 1], vec![3, 1, 2], vec![4, 2, 3, 1], vec![2, 5, 1, 4, 3]] {
        for strategy in strategies.iter() {
            let v = solve_with(strategy, 2, VecStack::from_vec(input.clone())).unwrap();
            let d = solve_with(strategy, 2, VDStack::from_vec(input.clone())).unwrap();
            let l = solve_with(strategy, 2, LLStack::from_vec(input.clone())).unwrap();
            assert!(solves(&v, &input));
            assert!(solves(&d, &input));
            assert!(solves(&l, &input));
        }
    }
}

#[test]
fn solve_takes_the_thread_count_or_the_machine_s() {
    let input = vec![3, 2, 1];
    let given = solve(&SolveStrategy::ParAStar, Some(1), VecStack::from_vec(input.clone()));
    assert!(solves(&given.unwrap(), &input));
    let machine = solve(&SolveStrategy::ParAStar, None, VecStack::from_vec(input.clone()));
    assert!(solves(&machine.unwrap(), &input));
    let smart = solve(&SolveStrategy::SmartInsert, None, VecStack::from_vec(input.clone()));
    assert_eq!(smart.unwrap(), smart_insert(VecStack::from_vec(input.clone())));
    let naive = solve(&SolveStrategy::NaiveInsert, None, VecStack::from_vec(input.clone()));
    assert_eq!(naive.unwrap(), naive_insert(VecStack::from_vec(input.clone())));
}

#[test]
fn sorted_rot_turns_to_the_pivot_where_there_is_one() {
    let rotation = |s: &VecStack, at: usize| push_swap::solver::dumb::rotation(s, at);
    let sorted_rot = |s: &VecStack| push_swap::solver::dumb::sorted_rot(s);
    let s = VecStack::from_vec(vec![4, 5, 1, 2, 3]);
    assert_eq!(rotation(&s, 1), (RotateA, 1));
    assert_eq!(rotation(&s, 2), (ReverseRotateA, 3));
    assert_eq!(sorted_rot(&s), Some((ReverseRotateA, 3)));
    assert_eq!(sorted_rot(&VecStack::from_vec(vec![3, 1, 2])), Some((ReverseRotateA, 2)));
    assert_eq!(sorted_rot(&VecStack::from_vec(vec![2, 3, 4, 1])), Some((ReverseRotateA, 1)));
    assert_eq!(sorted_rot(&VecStack::from_vec(vec![4, 1, 2, 3])), Some((RotateA, 1)));
    assert_eq!(sorted_rot(&VecStack::from_vec(vec![1, 2, 3])), Some((ReverseRotateA, 0)));
    assert_eq!(sorted_rot(&VecStack::from_vec(vec![3, 2, 1])), None);
    assert_eq!(sorted_rot(&VecStack::from_vec(vec![])), None);
}

#[test]
fn the_sequential_search_gives_no_move_for_a_sorted_stack_only() {
    let sorted = solve_with(&SolveStrategy::AStar, 0, VecStack::from_vec(vec![1, 2, 3]));
    assert_eq!(sorted, Some(vec![]));
    let other = solve_with(&SolveStrategy::AStar, 0, VecStack::from_vec(vec![1, 3, 2])).unwrap();
    assert!(!other.is_empty());
    assert!(solves(&other, &[1, 3, 2]));
}

#[test]
fn the_searches_follow_the_rule() {
    for input in permutations(4) {
        for out in [
            astar(VecStack::from_vec(input.clone())),
            par_astar(1, VecStack::from_vec(input.clone())),
        ] {
            let Some(instrs) = out else { continue };
            let mut a = VecStack::from_vec(input.clone());
            let mut b = VecStack::new();
            let mut last = PushB;
            for instr in instrs.iter() {
                assert!(push_swap::solver::utils::is_allowed(instr, a.len(), b.len(), &last));
                push_swap::utils::execute(instr, &mut a, &mut b);
                last = *instr;
            }
        }
    }
}
