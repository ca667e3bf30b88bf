use sweep_prune::bits::next_sibling;
use sweep_prune::succinct_tree::{find_successor, SuccinctSet, SuccintTree};

#[test]
fn its_last_level_is_one_word() {
    let tree = SuccinctSet::new(100);
    assert_eq!(tree.get_levels().last().unwrap().len(), 1);
}

#[test]
fn it_updates_parents_of_4097() {
    let mut tree = SuccinctSet::new(4097);
    tree.insert(4097);

    let word_index = 4097 / 64;
    assert_eq!(tree.get_levels()[0][word_index], 2);
    let word_index = word_index / 64;
    assert_eq!(tree.get_levels()[1][word_index], 1);
}

#[test]
fn it_finds_the_successor_in_the_same_word() {
    let mut tree = SuccinctSet::new(100);
    tree.insert(35);

    let successor = find_successor(&tree, 4).unwrap();

    assert_eq!(successor, 35);
}

#[test]
fn it_finds_the_successor_in_a_different_word() {
    let mut tree = SuccinctSet::new(100);
    tree.insert(68);

    let successor = find_successor(&tree, 4).unwrap();

    assert_eq!(successor, 68);
}

#[test]
fn successor_returns_none_when_there_is_no_succesor() {
    let tree = SuccinctSet::new(100);
    let successor = find_successor(&tree, 4);
    assert_eq!(successor, None);
}

#[test]
fn it_finds_the_range_when_all_in_same_word() {
    let mut tree = SuccinctSet::new(100);
    let range = vec![4, 23, 28, 37, 60];
    for &x in &range {
        tree.insert(x);
    }

    let result = tree.range(3, 62);

    assert_eq!(result, range);
}

#[test]
fn it_finds_the_range_when_in_different_words() {
    let mut tree = SuccinctSet::new(262_145);
    let range = vec![4, 65, 4097, 262_145];
    for &x in &range {
        tree.insert(x);
    }

    let result = tree.range(3, 262_146);

    assert_eq!(result, range);
}

#[test]
fn it_finds_the_min_zero() {
    let mut set = SuccinctSet::new(65);
    set.insert(0);
    set.insert(1);
    set.insert(64);
    set.insert(65);
    assert_eq!(set.min().unwrap(), 0);
}

#[test]
fn it_finds_the_min_in_second_word() {
    let mut set = SuccinctSet::new(65);
    set.insert(65);
    set.insert(79);
    assert_eq!(set.min().unwrap(), 65);
}

#[test]
fn min_of_an_empty_set_is_none() {
    let set = SuccinctSet::new(65);
    assert_eq!(set.min(), None);
}

#[test]
fn min_is_a_member_not_a_block() {
    let mut set = SuccinctSet::new(4096);
    set.insert(5);
    assert_eq!(set.min(), Some(5));
}

#[test]
fn remove_keeps_the_other_members() {
    let mut set = SuccinctSet::new(4096);
    set.insert(7);
    set.insert(9);
    set.insert(700);
    set.remove(9);
    assert_eq!(find_successor(&set, 7), Some(700));
    set.remove(7);
    assert_eq!(set.min(), Some(700));
    set.remove(700);
    assert_eq!(set.min(), None);
    assert!(set.get_levels().iter().all(|level| level.iter().all(|w| *w == 0)));
}

#[test]
fn removing_an_absent_element_changes_nothing() {
    let mut set = SuccinctSet::new(100);
    set.insert(3);
    set.remove(70);
    assert_eq!(set.range(0, 4096), vec![3]);
}

#[test]
fn range_includes_its_lower_bound_and_excludes_its_upper() {
    let mut set = SuccinctSet::new(200);
    for x in [10, 20, 30] {
        set.insert(x);
    }
    assert_eq!(set.range(10, 30), vec![10, 20]);
    assert_eq!(set.range(11, 31), vec![20, 30]);
    assert_eq!(set.range(20, 20), Vec::<usize>::new());
}

#[test]
fn levels_follow_the_capacity() {
    assert_eq!(SuccinctSet::new(0).get_levels().len(), 1);
    assert_eq!(SuccinctSet::new(1).get_levels().len(), 1);
    assert_eq!(SuccinctSet::new(64).get_levels().len(), 1);
    assert_eq!(SuccinctSet::new(65).get_levels().len(), 2);
    assert_eq!(SuccinctSet::new(4096).get_levels().len(), 2);
    let tree = SuccinctSet::new(262_145);
    assert_eq!(tree.get_levels().len(), 4);
    assert_eq!(tree.get_levels()[0].len(), 262_144);
}

#[test]
fn successor_at_the_last_element_is_none() {
    let mut set = SuccinctSet::new(64);
    set.insert(63);
    assert_eq!(find_successor(&set, 62), Some(63));
    assert_eq!(find_successor(&set, 63), None);
}

#[test]
fn next_sibling_finds_the_next_bit_up() {
    assert_eq!(next_sibling(0b1010, 1), Some(3));
    assert_eq!(next_sibling(0b1010, 0), Some(1));
    assert_eq!(next_sibling(0b1010, 3), None);
    assert_eq!(next_sibling(u64::MAX, 62), Some(63));
    assert_eq!(next_sibling(u64::MAX, 63), None);
}

#[test]
fn insert_then_remove_restores_the_words() {
    let mut set = SuccinctSet::new(5000);
    set.insert(17);
    let before = set.get_levels().clone();
    set.insert(4099);
    assert_ne!(set.get_levels(), &before);
    set.remove(4099);
    assert_eq!(set.get_levels(), &before);
}

#[test]
fn new_levels_are_zeroed_with_shrinking_lengths() {
    let tree = SuccinctSet::new(5000);
    let lengths: Vec<usize> = tree.get_levels().iter().map(|l| l.len()).collect();
    assert_eq!(lengths, vec![4096, 64, 1]);
    assert!(tree.get_levels().iter().all(|l| l.iter().all(|w| *w == 0)));
}
