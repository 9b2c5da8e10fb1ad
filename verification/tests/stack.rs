use push_swap::stack::{LLStack, Stack, VDStack, VecStack};

fn of<S: Stack>(items: &[u32]) -> S {
    S::from_vec(items.to_vec())
}

fn basics<S: Stack>() {
    let mut s = S::new();
    assert_eq!(s.len(), 0);
    assert_eq!(s.pop(), None);
    s.push(2);
    s.push(1);
    s.push(3);
    assert_eq!(s.to_vec(), vec![3, 1, 2]);
    assert_eq!(s.len(), 3);
    assert_eq!(s.pop(), Some(3));
    assert_eq!(s.to_vec(), vec![1, 2]);
    let t: S = of(&[1, 2]);
    assert!(s.equals(&t));
    assert!(!s.equals(&of(&[2, 1])));
    assert!(!s.equals(&of(&[1, 2, 3])));
    let d = s.duplicate();
    s.push(9);
    assert_eq!(d.to_vec(), vec![1, 2]);
    assert_eq!(s.to_vec(), vec![9, 1, 2]);
}

fn single_moves<S: Stack>() {
    let mut s: S = of(&[]);
    s.swap();
    s.rotate();
    s.reverse_rotate();
    assert_eq!(s.to_vec(), Vec::<u32>::new());
    let mut s: S = of(&[7]);
    s.swap();
    assert_eq!(s.to_vec(), vec![7]);
    s.rotate();
    assert_eq!(s.to_vec(), vec![7]);
    s.reverse_rotate();
    assert_eq!(s.to_vec(), vec![7]);
    let mut s: S = of(&[1, 2]);
    s.swap();
    assert_eq!(s.to_vec(), vec![2, 1]);
    let mut s: S = of(&[1, 2, 3, 4]);
    s.swap();
    assert_eq!(s.to_vec(), vec![2, 1, 3, 4]);
    s.rotate();
    assert_eq!(s.to_vec(), vec![1, 3, 4, 2]);
    s.reverse_rotate();
    assert_eq!(s.to_vec(), vec![2, 1, 3, 4]);
    s.reverse_rotate();
    assert_eq!(s.to_vec(), vec![4, 2, 1, 3]);
}

fn rotations<S: Stack>() {
    let mut s: S = of(&[1, 2, 3, 4, 5]);
    s.rotate_n(0);
    assert_eq!(s.to_vec(), vec![1, 2, 3, 4, 5]);
    s.rotate_n(5);
    assert_eq!(s.to_vec(), vec![1, 2, 3, 4, 5]);
    s.rotate_n(2);
    assert_eq!(s.to_vec(), vec![3, 4, 5, 1, 2]);
    s.reverse_rotate_n(2);
    assert_eq!(s.to_vec(), vec![1, 2, 3, 4, 5]);
    s.reverse_rotate_n(2);
    assert_eq!(s.to_vec(), vec![4, 5, 1, 2, 3]);
    s.reverse_rotate_n(0);
    assert_eq!(s.to_vec(), vec![4, 5, 1, 2, 3]);
    s.reverse_rotate_n(5);
    assert_eq!(s.to_vec(), vec![4, 5, 1, 2, 3]);
    let mut e: S = of(&[]);
    e.rotate_n(0);
    e.reverse_rotate_n(0);
    assert_eq!(e.len(), 0);
}

fn rotation_identities<S: Stack>() {
    let start = [4, 8, 15, 16, 23, 42];
    for k in 0..=start.len() {
        let mut s: S = of(&start);
        s.rotate_n(k);
        s.reverse_rotate_n(k);
        assert_eq!(s.to_vec(), start.to_vec());
        s.reverse_rotate_n(k);
        s.rotate_n(k);
        assert_eq!(s.to_vec(), start.to_vec());
        let mut single: S = of(&start);
        for _ in 0..k {
            single.rotate();
        }
        let mut at_once: S = of(&start);
        at_once.rotate_n(k);
        assert!(single.equals(&at_once));
        let mut single: S = of(&start);
        for _ in 0..k {
            single.reverse_rotate();
        }
        let mut at_once: S = of(&start);
        at_once.reverse_rotate_n(k);
        assert!(single.equals(&at_once));
    }
    let mut s: S = of(&start);
    s.swap();
    s.swap();
    assert_eq!(s.to_vec(), start.to_vec());
    for _ in 0..start.len() {
        s.rotate();
    }
    assert_eq!(s.to_vec(), start.to_vec());
}

fn sortedness<S: Stack>() {
    assert!(of::<S>(&[]).is_sorted());
    assert!(of::<S>(&[5]).is_sorted());
    assert!(of::<S>(&[1, 1, 2]).is_sorted());
    assert!(of::<S>(&[1, 2, 3, 4, 5]).is_sorted());
    assert!(!of::<S>(&[2, 1]).is_sorted());
    assert!(!of::<S>(&[1, 3, 2]).is_sorted());
    assert!(!of::<S>(&[1, 2, 3, 0]).is_sorted());
}

fn pivots<S: Stack>() {
    assert_eq!(of::<S>(&[3, 1, 2]).sorted_at(), Some(1));
    assert_eq!(of::<S>(&[2, 3, 1]).sorted_at(), Some(2));
    assert_eq!(of::<S>(&[1, 2, 3]).sorted_at(), Some(3));
    assert_eq!(of::<S>(&[2, 1]).sorted_at(), Some(1));
    assert_eq!(of::<S>(&[1, 3, 2, 4]).sorted_at(), None);
    assert_eq!(of::<S>(&[3, 2, 1]).sorted_at(), None);
    assert_eq!(of::<S>(&[]).sorted_at(), None);
    assert_eq!(of::<S>(&[5]).sorted_at(), None);
    assert_eq!(of::<S>(&[4, 4]).sorted_at(), None);
    assert_eq!(of::<S>(&[4, 4, 5]).sorted_at(), Some(3));
}

fn pivot_rotation_sorts<S: Stack>() {
    let cases: Vec<Vec<u32>> = vec![
        vec![3, 1, 2],
        vec![2, 3, 1],
        vec![1, 2, 3],
        vec![5, 6, 7, 1, 2, 3, 4],
        vec![9, 1],
        vec![3, 2, 1],
        vec![1, 3, 2, 4],
        vec![2, 1, 4, 3],
    ];
    for case in cases {
        let s: S = of(&case);
        match s.sorted_at() {
            Some(i) => {
                let mut t = s.duplicate();
                t.rotate_n(i);
                assert!(t.is_sorted());
            }
            None => {
                for k in 0..=case.len() {
                    let mut t = s.duplicate();
                    t.rotate_n(k);
                    assert!(!t.is_sorted());
                }
            }
        }
    }
}

fn extremes<S: Stack>() {
    assert_eq!(of::<S>(&[]).minimum(), None);
    assert_eq!(of::<S>(&[]).maximum(), None);
    assert_eq!(of::<S>(&[3, 1, 2]).minimum(), Some((1, 1)));
    assert_eq!(of::<S>(&[3, 1, 2]).maximum(), Some((3, 0)));
    assert_eq!(of::<S>(&[7]).minimum(), Some((7, 0)));
    assert_eq!(of::<S>(&[7]).maximum(), Some((7, 0)));
    assert_eq!(of::<S>(&[1, 2, 1]).minimum(), Some((1, 2)));
    assert_eq!(of::<S>(&[5, 2, 5, 3]).maximum(), Some((5, 2)));
    assert_eq!(of::<S>(&[0, 4294967295]).maximum(), Some((4294967295, 1)));
    assert_eq!(of::<S>(&[0, 4294967295]).minimum(), Some((0, 0)));
}

fn insertion_places<S: Stack>() {
    let s: S = of(&[5, 3, 1]);
    assert_eq!(s.insert_index(4), Some(1));
    assert_eq!(s.insert_index(2), Some(2));
    assert_eq!(s.insert_index(5), Some(1));
    assert_eq!(s.insert_index(3), Some(1));
    assert_eq!(s.insert_index(1), Some(2));
    assert_eq!(s.insert_index(6), None);
    assert_eq!(s.insert_index(0), None);
    let ring: S = of(&[3, 1, 5]);
    assert_eq!(ring.insert_index(4), Some(3));
    assert_eq!(ring.insert_index(2), Some(1));
    assert_eq!(of::<S>(&[]).insert_index(1), None);
    assert_eq!(of::<S>(&[2]).insert_index(2), Some(1));
    assert_eq!(of::<S>(&[2]).insert_index(1), None);
}

fn peeks<S: Stack>() {
    let s: S = of(&[10, 20, 30]);
    assert_eq!(s.peek(0), 10);
    assert_eq!(s.peek(1), 20);
    assert_eq!(s.peek(2), 30);
    assert_eq!(s.peek(3), 10);
    assert_eq!(s.peek(7), 20);
    assert_eq!(s.peek(-1), 30);
    assert_eq!(s.peek(-2), 20);
    assert_eq!(s.peek(-3), 10);
    assert_eq!(s.peek(-4), 30);
    assert_eq!(s.peek(99), 10);
    assert_eq!(s.peek(-100), 30);
    assert_eq!(s.peek(isize::MAX), s.to_vec()[(isize::MAX as usize) % 3]);
    let expected = s.to_vec()[(isize::MIN as i128).rem_euclid(3) as usize];
    assert_eq!(s.peek(isize::MIN), expected);
    assert_eq!(of::<S>(&[8]).peek(-5), 8);
}

fn texts<S: Stack>() {
    assert_eq!(of::<S>(&[]).to_string(), "");
    assert_eq!(of::<S>(&[0]).to_string(), "0");
    assert_eq!(of::<S>(&[3, 1, 2]).to_string(), "3 1 2");
    assert_eq!(of::<S>(&[10, 4294967295, 907]).to_string(), "10 4294967295 907");
}

#[test]
fn vec_stack_basics() {
    basics::<VecStack>();
}

#[test]
fn vec_deque_stack_basics() {
    basics::<VDStack>();
}

#[test]
fn linked_stack_basics() {
    basics::<LLStack>();
}

#[test]
fn vec_stack_single_moves() {
    single_moves::<VecStack>();
}

#[test]
fn vec_deque_stack_single_moves() {
    single_moves::<VDStack>();
}

#[test]
fn linked_stack_single_moves() {
    single_moves::<LLStack>();
}

#[test]
fn vec_stack_rotations() {
    rotations::<VecStack>();
}

#[test]
fn vec_deque_stack_rotations() {
    rotations::<VDStack>();
}

#[test]
fn linked_stack_rotations() {
    rotations::<LLStack>();
}

#[test]
fn vec_stack_rotation_identities() {
    rotation_identities::<VecStack>();
}

#[test]
fn vec_deque_stack_rotation_identities() {
    rotation_identities::<VDStack>();
}

#[test]
fn linked_stack_rotation_identities() {
    rotation_identities::<LLStack>();
}

#[test]
fn vec_stack_sortedness() {
    sortedness::<VecStack>();
}

#[test]
fn vec_deque_stack_sortedness() {
    sortedness::<VDStack>();
}

#[test]
fn linked_stack_sortedness() {
    sortedness::<LLStack>();
}

#[test]
fn vec_stack_pivots() {
    pivots::<VecStack>();
    pivot_rotation_sorts::<VecStack>();
}

#[test]
fn vec_deque_stack_pivots() {
    pivots::<VDStack>();
    pivot_rotation_sorts::<VDStack>();
}

#[test]
fn linked_stack_pivots() {
    pivots::<LLStack>();
    pivot_rotation_sorts::<LLStack>();
}

#[test]
fn vec_stack_extremes() {
    extremes::<VecStack>();
}

#[test]
fn vec_deque_stack_extremes() {
    extremes::<VDStack>();
}

#[test]
fn linked_stack_extremes() {
    extremes::<LLStack>();
}

#[test]
fn vec_stack_insertion_places() {
    insertion_places::<VecStack>();
}

#[test]
fn vec_deque_stack_insertion_places() {
    insertion_places::<VDStack>();
}

#[test]
fn linked_stack_insertion_places() {
    insertion_places::<LLStack>();
}

#[test]
fn vec_stack_peeks() {
    peeks::<VecStack>();
}

#[test]
fn vec_deque_stack_peeks() {
    peeks::<VDStack>();
}

#[test]
fn linked_stack_peeks() {
    peeks::<LLStack>();
}

#[test]
fn vec_stack_texts() {
    texts::<VecStack>();
}

#[test]
fn vec_deque_stack_texts() {
    texts::<VDStack>();
}

#[test]
fn linked_stack_texts() {
    texts::<LLStack>();
}

#[test]
fn derived_equality_goes_by_the_elements() {
    assert_eq!(VecStack::from_vec(vec![1, 2]), VecStack::from_vec(vec![1, 2]));
    assert_ne!(VDStack::from_vec(vec![1, 2]), VDStack::from_vec(vec![2, 1]));
    assert_eq!(LLStack::from_vec(vec![]), LLStack::new());
}

#[test]
fn raw_shows_the_container() {
    assert_eq!(VecStack::from_vec(vec![3, 1, 2]).raw(), &vec![3, 1, 2]);
    let deque: Vec<u32> = VDStack::from_vec(vec![3, 1, 2]).raw().iter().copied().collect();
    assert_eq!(deque, vec![3, 1, 2]);
    let mut chain = LLStack::from_vec(vec![3, 1, 2]);
    chain.rotate();
    let linked: Vec<u32> = chain.raw().iter().copied().collect();
    assert_eq!(linked, vec![1, 2, 3]);
}
