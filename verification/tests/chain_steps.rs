use pipe_chain::chain::{step_all, step_many};
use pipe_chain::controls::regenerate_requested;
use pipe_chain::generate::generate_chain;

fn sum_of_neighbours(link: &i64, last: Option<&i64>, next: Option<&i64>) -> i64 {
    *link * 100 + last.copied().unwrap_or(0) * 10 + next.copied().unwrap_or(0)
}

#[test]
fn step_all_keeps_anchor_and_reads_the_old_chain() {
    let chain: Vec<i64> = vec![1, 2, 3, 4];
    let stepped = step_all(chain, &sum_of_neighbours);
    // link 1: 200 + 10 + 3; link 2: 300 + 20 + 4; last link: 400 + 30 + 0
    assert_eq!(stepped, vec![1, 213, 324, 430]);
}

#[test]
fn step_all_on_two_links_moves_only_the_last() {
    let stepped = step_all(vec![5i64, 7], &sum_of_neighbours);
    assert_eq!(stepped, vec![5, 750]);
}

#[test]
fn step_all_keeps_length() {
    let chain: Vec<i64> = (0..10).collect();
    let stepped = step_all(chain, &|link: &i64, _: Option<&i64>, _: Option<&i64>| link + 1);
    assert_eq!(stepped.len(), 10);
    assert_eq!(stepped[0], 0);
    assert_eq!(stepped[9], 10);
}

#[test]
fn step_many_zero_steps_is_identity() {
    let chain: Vec<i64> = vec![3];
    assert_eq!(step_many(chain, 0, &sum_of_neighbours), vec![3]);
}

#[test]
fn step_many_is_repeated_step_all() {
    let update = |link: &i64, last: Option<&i64>, next: Option<&i64>| {
        *link + last.copied().unwrap_or(0) - next.copied().unwrap_or(0)
    };
    let chain: Vec<i64> = vec![1, 2, 3, 4, 5];
    let mut by_hand = chain.clone();
    for _ in 0..3 {
        by_hand = step_all(by_hand, &update);
    }
    let many = step_many(chain, 3, &update);
    assert_eq!(many, by_hand);
    assert_eq!(many[0], 1);
}

#[test]
fn step_many_composes() {
    let update = |link: &i64, last: Option<&i64>, next: Option<&i64>| {
        2 * *link - last.copied().unwrap_or(0) + next.copied().unwrap_or(0)
    };
    let chain: Vec<i64> = vec![4, -1, 6, 2];
    let two_then_three = step_many(step_many(chain.clone(), 2, &update), 3, &update);
    assert_eq!(two_then_three, step_many(chain, 5, &update));
}

#[test]
fn step_many_one_step_exact() {
    let chain: Vec<i64> = vec![1, 2, 3];
    assert_eq!(step_many(chain, 1, &sum_of_neighbours), vec![1, 213, 320]);
}

type Link = (usize, i64);

fn make(i: usize) -> Link {
    (i, 0)
}

fn accel(link: &Link, last: Option<&Link>, next: Option<&Link>) -> i64 {
    let last_part = match last {
        Some(l) => (l.0 as i64) * 10 + l.1,
        None => -1,
    };
    let next_part = match next {
        Some(n) => n.0 as i64,
        None => 0,
    };
    (link.0 as i64) * 1000 + last_part + next_part
}

fn settle(link: &Link, a: i64) -> Link {
    (link.0, a)
}

#[test]
fn generate_chain_of_zero_makes_one_link() {
    let links = generate_chain(0, &make, &accel, &settle);
    assert_eq!(links, vec![(0, -1)]);
}

#[test]
fn generate_chain_of_one_link() {
    let links = generate_chain(1, &make, &accel, &settle);
    assert_eq!(links, vec![(0, -1)]);
}

#[test]
fn generate_chain_of_two_links() {
    let links = generate_chain(2, &make, &accel, &settle);
    // link 1 is settled from itself and the settled first link: 1000 + (0 - 1)
    assert_eq!(links, vec![(0, -1), (1, 999)]);
}

#[test]
fn generate_chain_settles_only_the_second_link_again() {
    let links = generate_chain(4, &make, &accel, &settle);
    // i = 1: 1000 + (0 * 10 - 1) = 999; i = 2: 2000 + (1 * 10 + 999) = 3009;
    // i = 3: 3000 + (2 * 10 + 0) = 3020, written to link 1 again.
    assert_eq!(links, vec![(0, -1), (1, 3020), (2, 0), (3, 0)]);
}

#[test]
fn generate_chain_length() {
    for length in 0..20usize {
        let links = generate_chain(length, &make, &accel, &settle);
        assert_eq!(links.len(), if length == 0 { 1 } else { length });
        for (k, link) in links.iter().enumerate().skip(2) {
            assert_eq!(*link, (k, 0));
        }
    }
}

#[test]
fn regenerate_on_any_change() {
    assert!(!regenerate_requested(false, false, false));
    assert!(regenerate_requested(true, false, false));
    assert!(regenerate_requested(false, true, false));
    assert!(regenerate_requested(false, false, true));
    assert!(regenerate_requested(true, true, true));
}

#[test]
fn step_all_is_local() {
    let a: Vec<i64> = vec![1, 2, 3, 4, 5, 6];
    let b: Vec<i64> = vec![9, 9, 3, 4, 5, 9];
    let new_a = step_all(a, &sum_of_neighbours);
    let new_b = step_all(b, &sum_of_neighbours);
    // links 2..=4 agree on 3 (link 3's neighbours are 2 and 4)
    assert_eq!(new_a[3], new_b[3]);
    assert_eq!(new_a[3], 435);
}

#[test]
fn step_all_twice_on_the_same_chain_agrees() {
    let chain: Vec<i64> = vec![2, -3, 7, 1];
    assert_eq!(step_all(chain.clone(), &sum_of_neighbours), step_all(chain, &sum_of_neighbours));
}

// A link with a fixed size (second field) and a moving angle (first field).
fn swing(link: &(i64, u32), last: Option<&(i64, u32)>, next: Option<&(i64, u32)>) -> (i64, u32) {
    let pull = last.map(|l| l.0).unwrap_or(0) - next.map(|n| n.0).unwrap_or(0);
    (link.0 + pull, link.1)
}

#[test]
fn steps_keep_what_the_update_keeps() {
    let chain: Vec<(i64, u32)> = vec![(0, 30), (5, 30), (-2, 30), (8, 30)];
    let after = step_many(chain, 7, &swing);
    assert_eq!(after.len(), 4);
    assert_eq!(after[0], (0, 30));
    assert!(after.iter().all(|link| link.1 == 30));
}

#[test]
fn built_chain_keeps_length_and_size_while_stepping() {
    let make = |i: usize| (i as i64 * 3 - 4, 30u32);
    let accel = |link: &(i64, u32), last: Option<&(i64, u32)>, _: Option<&(i64, u32)>| {
        link.0 - last.map(|l| l.0).unwrap_or(0)
    };
    let settle = |link: &(i64, u32), a: i64| (link.0 + a, link.1);
    let links = generate_chain(6, &make, &accel, &settle);
    let after = step_many(links, 12, &swing);
    assert_eq!(after.len(), 6);
    assert!(after.iter().all(|link| link.1 == 30));
}
