use nbody_rs::universe::Universe;

#[test]
fn it_works() {
    let mut universe = Universe::new(vec![0u64; 1024]);
    universe.next_state_seq(|p: &u64, _all: &Vec<u64>| *p);

    assert_eq!(2 + 2, 4);
    assert_eq!(universe.current().len(), 1024);
}

#[test]
fn empty_step_counts() {
    let mut u: Universe<u64> = Universe::new(Vec::new());
    u.next_state_seq(|p: &u64, _all: &Vec<u64>| *p + 1);
    assert!(u.current().is_empty());
    assert_eq!(u.time(), 1);
}

#[test]
fn step_applies_update_to_each_particle() {
    let mut u = Universe::new(vec![1u64, 2, 3]);
    assert_eq!(u.time(), 0);
    assert_eq!(u.current(), &vec![1, 2, 3]);
    let update = |p: &u64, all: &Vec<u64>| *p + all.iter().sum::<u64>();
    u.next_state_seq(update);
    assert_eq!(u.current(), &vec![7, 8, 9]);
    u.next_state_seq(update);
    assert_eq!(u.current(), &vec![31, 32, 33]);
    assert_eq!(u.time(), 2);
}

#[test]
fn length_kept_over_many_steps() {
    let mut u = Universe::new(vec![5i32; 17]);
    for k in 0..25usize {
        assert_eq!(u.current().len(), 17);
        assert_eq!(u.time(), k);
        u.next_state_seq(|p: &i32, _all: &Vec<i32>| *p - 1);
    }
    assert_eq!(u.current(), &vec![-20i32; 17]);
}

#[test]
fn step_from_outside_values() {
    let mut u = Universe::new(vec![1u8, 2]);
    u.next_state_from(&vec![10, 20]);
    assert_eq!(u.current(), &vec![10, 20]);
    assert_eq!(u.time(), 1);
    u.next_state_from(&vec![30, 40]);
    assert_eq!(u.current(), &vec![30, 40]);
    assert_eq!(u.time(), 2);
}
