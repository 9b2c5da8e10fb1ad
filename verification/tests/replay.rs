use push_swap::instruction::Instruction;
use push_swap::stack::{LLStack, Stack, VDStack, VecStack};
use push_swap::utils::{execute, execute_all, repeat_n};

fn after<S: Stack>(instr: Instruction, a: &[u32], b: &[u32]) -> (Vec<u32>, Vec<u32>) {
    let mut sa = S::from_vec(a.to_vec());
    let mut sb = S::from_vec(b.to_vec());
    execute(&instr, &mut sa, &mut sb);
    (sa.to_vec(), sb.to_vec())
}

fn every_move<S: Stack>() {
    let a = [1, 2, 3];
    let b = [4, 5, 6];
    assert_eq!(after::<S>(Instruction::PushA, &a, &b), (vec![4, 1, 2, 3], vec![5, 6]));
    assert_eq!(after::<S>(Instruction::PushB, &a, &b), (vec![2, 3], vec![1, 4, 5, 6]));
    assert_eq!(after::<S>(Instruction::SwapA, &a, &b), (vec![2, 1, 3], vec![4, 5, 6]));
    assert_eq!(after::<S>(Instruction::SwapB, &a, &b), (vec![1, 2, 3], vec![5, 4, 6]));
    assert_eq!(after::<S>(Instruction::SwapBoth, &a, &b), (vec![2, 1, 3], vec![5, 4, 6]));
    assert_eq!(after::<S>(Instruction::RotateA, &a, &b), (vec![2, 3, 1], vec![4, 5, 6]));
    assert_eq!(after::<S>(Instruction::RotateB, &a, &b), (vec![1, 2, 3], vec![5, 6, 4]));
    assert_eq!(after::<S>(Instruction::RotateBoth, &a, &b), (vec![2, 3, 1], vec![5, 6, 4]));
    assert_eq!(after::<S>(Instruction::ReverseRotateA, &a, &b), (vec![3, 1, 2], vec![4, 5, 6]));
    assert_eq!(after::<S>(Instruction::ReverseRotateB, &a, &b), (vec![1, 2, 3], vec![6, 4, 5]));
    assert_eq!(
        after::<S>(Instruction::ReverseRotateBoth, &a, &b),
        (vec![3, 1, 2], vec![6, 4, 5])
    );
}

fn moves_on_short_stacks<S: Stack>() {
    let none: [u32; 0] = [];
    assert_eq!(after::<S>(Instruction::PushA, &[1], &none), (vec![1], vec![]));
    assert_eq!(after::<S>(Instruction::PushB, &none, &[1]), (vec![], vec![1]));
    assert_eq!(after::<S>(Instruction::PushB, &[9], &none), (vec![], vec![9]));
    assert_eq!(after::<S>(Instruction::SwapBoth, &[1], &[2, 3]), (vec![1], vec![3, 2]));
    assert_eq!(after::<S>(Instruction::RotateBoth, &none, &[2, 3]), (vec![], vec![3, 2]));
    assert_eq!(after::<S>(Instruction::ReverseRotateBoth, &[5], &none), (vec![5], vec![]));
}

#[test]
fn vec_stack_makes_every_move() {
    every_move::<VecStack>();
    moves_on_short_stacks::<VecStack>();
}

#[test]
fn vec_deque_stack_makes_every_move() {
    every_move::<VDStack>();
    moves_on_short_stacks::<VDStack>();
}

#[test]
fn linked_stack_makes_every_move() {
    every_move::<LLStack>();
    moves_on_short_stacks::<LLStack>();
}

#[test]
fn execute_all_makes_the_moves_in_order() {
    let mut a = VecStack::from_vec(vec![3, 1, 2]);
    let mut b = VecStack::new();
    let instrs = vec![Instruction::PushB, Instruction::RotateA, Instruction::PushA];
    execute_all(&instrs, &mut a, &mut b);
    assert_eq!(a.to_vec(), vec![3, 2, 1]);
    assert_eq!(b.to_vec(), Vec::<u32>::new());
    execute_all(&Vec::new(), &mut a, &mut b);
    assert_eq!(a.to_vec(), vec![3, 2, 1]);
}

#[test]
fn repeat_n_repeats() {
    assert_eq!(repeat_n(Instruction::PushA, 0), Vec::<Instruction>::new());
    assert_eq!(repeat_n(Instruction::RotateB, 3), vec![Instruction::RotateB; 3]);
    assert_eq!(repeat_n(7u32, 2), vec![7, 7]);
}
