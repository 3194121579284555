use stark_suit_repair::basics::{factorize, gauss, in_range, longest_sequence, rotate, subset, substr, to_decimal};
use stark_suit_repair::locator::{distance, target_locator, LocateError, PriorityQueue};

fn roster(entries: &[(&str, (i32, i32))]) -> Vec<(String, (i32, i32))> {
    let mut v = Vec::new();
    for (name, pos) in entries {
        v.push((name.to_string(), *pos));
    }
    v
}

#[test]
fn public_test_gauss() {
    assert_eq!(190, gauss(19));
    assert_eq!(1, gauss(1));
    assert_eq!(54615, gauss(330));
    assert_eq!(-1, gauss(-400));
}

#[test]
fn public_test_in_range() {
    let xs = [1, 3, 5];
    assert_eq!(1, in_range(&xs, 2, 4));
    let xs = [1, 2, 3, 5, 6];
    assert_eq!(2, in_range(&xs, 2, 4));
    let xs = [-4, -3, -2, -1, 0, 1, 2, 3, 4];
    assert_eq!(9, in_range(&xs, -5, 5));
}

#[test]
fn public_test_subset() {
    let ys = [1, 2, 3, 4, 5];
    let xs = [3, 2, 1];
    let zs = [6];

    assert_eq!(true, subset(&ys, &xs));
    assert_eq!(false, subset(&ys, &zs));
    assert_eq!(true, subset(&ys, &ys));
}

#[test]
fn public_test_decimal() {
    let xs = [1, 0, 1, 0, 0, 1, 0, 1, 0];
    assert_eq!(330, to_decimal(&xs));

    let ys = [0];
    assert_eq!(0, to_decimal(&ys));

    let zs = [1, 0, 1, 0, 1, 1, 1, 1, 1];
    assert_eq!(351, to_decimal(&zs));
}

#[test]
fn public_test_factorize() {
    let mut vec = Vec::new();
    vec.push(2);
    vec.push(2);
    assert_eq!(vec, factorize(4));
    vec.remove(0);
    vec.remove(0);
    vec.push(19);
    assert_eq!(vec, factorize(19));
    vec.remove(0);
    vec.push(2);
    vec.push(3);
    vec.push(5);
    vec.push(11);
    assert_eq!(vec, factorize(330));
}

#[test]
fn public_test_rotate() {
    let mut vec = Vec::new();
    vec.push(3);
    vec.push(3);
    vec.push(0);

    let xs = [0, 3, 3];
    assert_eq!(vec, rotate(&xs));

    vec.remove(0);
    vec.remove(0);
    vec.remove(0);

    let xs = [1];
    vec.push(1);
    assert_eq!(vec, rotate(&xs));
    vec.remove(0);

    let xs = [1, 1, 2, 1];
    vec.push(1);
    vec.push(2);
    vec.push(1);
    vec.push(1);
    assert_eq!(vec, rotate(&xs));
}

#[test]
fn public_test_substr() {
    assert_eq!(true, substr(&"CMSC 330 is the best CS class".to_string(), &"CMSC 330".to_string()));
    assert_eq!(false, substr(&"CMSC 330 is the best CS class".to_string(), &"CMSC 351 is the best CS class".to_string()));
    assert_eq!(true, substr(&"I love CMSC330".to_string(), &"I love CMSC330".to_string()));
}

#[test]
fn public_test_longseq() {
    assert_eq!(Some("aa"), longest_sequence(&"aabbaa".to_string()));
    assert_eq!(Some("bb"), longest_sequence(&"a abba a".to_string()));
    assert_eq!(Some("bbbbbb"), longest_sequence(&"babaabbbaaaabbbbbbaaaa"));
}

#[test]
fn public_test_priority_queue() {
    let mut q = Vec::new();

    q.enqueue(5);
    q.enqueue(1);
    q.enqueue(3);
    q.enqueue(4);

    assert_eq!(1, q[0]);
    assert_eq!(4, q[1]);

    assert_eq!(Some(&1), q.peek());
    assert_eq!(Some(1), q.dequeue());
    assert_eq!(Some(&3), q.peek());
    assert_eq!(Some(3), q.dequeue());
}

#[test]
fn public_test_distance() {
    let c1 = (5, 5);
    let c2 = (3, 2);

    assert_eq!(5, distance(c1, c2));
}

#[test]
fn public_test_locator() {
    let allies = roster(&[("Stark", (1, 1)), ("Hulk", (2, 3))]);
    let enemies = roster(&[("Thanos", (3, 2)), ("Ebony Maw", (4, 4))]);

    assert_eq!(Ok(("Ebony Maw".to_string(), 4, 4)), target_locator(&allies, &enemies));
}

#[test]
fn heap_keeps_parent_order_after_each_enqueue() {
    let mut q: Vec<i32> = Vec::new();
    for x in [9, 4, 7, 1, 8, 2, 2, 6, 0, 5] {
        q.enqueue(x);
        for i in 1..q.len() {
            assert!(q[(i - 1) / 2] <= q[i]);
        }
    }
}

#[test]
fn dequeue_yields_sorted_order() {
    let mut q: Vec<i32> = Vec::new();
    for x in [5, 1, 3, 4] {
        q.enqueue(x);
    }
    let mut out = Vec::new();
    while let Some(x) = q.dequeue() {
        out.push(x);
    }
    assert_eq!(vec![1, 3, 4, 5], out);
}

#[test]
fn peek_matches_dequeue_and_does_not_mutate() {
    let mut q: Vec<i32> = Vec::new();
    for x in [7, 3, 9, 3] {
        q.enqueue(x);
    }
    let before = q.clone();
    let first = q.peek().copied();
    let second = q.peek().copied();
    assert_eq!(first, second);
    assert_eq!(before, q);
    assert_eq!(first, q.dequeue());
    assert_eq!(Some(3), first);
}

#[test]
fn empty_queue_gives_none() {
    let mut q: Vec<i32> = Vec::new();
    assert_eq!(None, q.peek());
    assert_eq!(None, q.dequeue());
    assert!(q.is_empty());
}

#[test]
fn single_element_queue() {
    let mut q: Vec<i32> = Vec::new();
    q.enqueue(42);
    assert_eq!(Some(&42), q.peek());
    assert_eq!(Some(42), q.dequeue());
    assert_eq!(None, q.dequeue());
}

#[test]
fn distance_is_symmetric_and_zero_on_equal_points() {
    assert_eq!(distance((5, 5), (3, 2)), distance((3, 2), (5, 5)));
    assert_eq!(0, distance((-7, 4), (-7, 4)));
    assert_eq!(1, distance((-7, 4), (-7, 5)));
    assert_eq!(14, distance((-3, -4), (4, 3)));
}

#[test]
fn single_pair_is_the_answer() {
    let allies = roster(&[("Stark", (0, 0))]);
    let enemies = roster(&[("Thanos", (1000, -2000))]);
    assert_eq!(Ok(("Thanos".to_string(), 1000, -2000)), target_locator(&allies, &enemies));
}

#[test]
fn locator_is_deterministic() {
    let allies = roster(&[("Stark", (1, 1)), ("Hulk", (2, 3))]);
    let enemies = roster(&[("Thanos", (3, 2)), ("Ebony Maw", (4, 4))]);
    let first = target_locator(&allies, &enemies);
    let second = target_locator(&allies, &enemies);
    assert_eq!(first, second);
}

#[test]
fn locator_reports_missing_stark() {
    let allies = roster(&[("Hulk", (2, 3))]);
    let enemies = roster(&[("Thanos", (3, 2))]);
    assert_eq!(Err(LocateError::MissingDistinguishedAlly), target_locator(&allies, &enemies));
}

#[test]
fn locator_reports_exhausted_candidates() {
    let allies = roster(&[("Stark", (0, 0)), ("Hulk", (10, 10))]);
    let enemies = roster(&[("Thanos", (10, 10))]);
    assert_eq!(Err(LocateError::ExhaustedCandidates), target_locator(&allies, &enemies));
}

#[test]
fn locator_with_no_enemies_is_exhausted() {
    let allies = roster(&[("Stark", (0, 0))]);
    let enemies = roster(&[]);
    assert_eq!(Err(LocateError::ExhaustedCandidates), target_locator(&allies, &enemies));
}

#[test]
fn locator_breaks_distance_ties_by_enemy_order() {
    let allies = roster(&[("Stark", (0, 0))]);
    let enemies = roster(&[("Proxima", (0, 2)), ("Corvus", (2, 0))]);
    assert_eq!(Ok(("Proxima".to_string(), 0, 2)), target_locator(&allies, &enemies));
    let swapped = roster(&[("Corvus", (2, 0)), ("Proxima", (0, 2))]);
    assert_eq!(Ok(("Corvus".to_string(), 2, 0)), target_locator(&allies, &swapped));
}

#[test]
fn locator_skips_enemy_claimed_by_closer_ally() {
    let allies = roster(&[("Hulk", (5, 5)), ("Stark", (0, 0)), ("Thor", (9, 9))]);
    let enemies = roster(&[("Thanos", (5, 6)), ("Cull", (1, 1)), ("Glaive", (9, 8))]);
    assert_eq!(Ok(("Cull".to_string(), 1, 1)), target_locator(&allies, &enemies));
    let near = roster(&[("Thanos", (1, 0)), ("Cull", (0, 1))]);
    let crowd = roster(&[("Stark", (0, 0)), ("Hulk", (1, 0))]);
    assert_eq!(Ok(("Cull".to_string(), 0, 1)), target_locator(&crowd, &near));
}

#[test]
fn gauss_edges() {
    assert_eq!(0, gauss(0));
    assert_eq!(-1, gauss(-1));
    assert_eq!(2147450880, gauss(65535));
}

#[test]
fn in_range_edges() {
    let empty: [i32; 0] = [];
    assert_eq!(0, in_range(&empty, 0, 10));
    assert_eq!(0, in_range(&[1, 2, 3], 5, 4));
    assert_eq!(2, in_range(&[4, 4, 3], 4, 4));
}

#[test]
fn subset_edges() {
    let empty: [i32; 0] = [];
    assert!(subset(&[1, 2], &empty));
    assert!(!subset(&empty, &[1]));
    assert!(subset(&[1], &[1, 1, 1]));
}

#[test]
fn decimal_edges() {
    assert_eq!(10, to_decimal(&[1, 0, 1, 0]));
    let empty: [i32; 0] = [];
    assert_eq!(0, to_decimal(&empty));
    assert_eq!(i32::MAX, to_decimal(&[1; 31]));
}

#[test]
fn factorize_edges() {
    assert_eq!(vec![2], factorize(2));
    assert_eq!(vec![2, 2, 3, 3], factorize(36));
    assert_eq!(vec![4294967291], factorize(4294967291));
    assert_eq!(vec![3, 5, 17, 257, 65537], factorize(u32::MAX));
}

#[test]
fn rotate_edges() {
    let empty: [i32; 0] = [];
    assert_eq!(Vec::<i32>::new(), rotate(&empty));
    assert_eq!(vec![2, 3, 4, 1], rotate(&[1, 2, 3, 4]));
}

#[test]
fn substr_edges() {
    assert!(substr(&"rustacean".to_string(), "ace"));
    assert!(!substr(&"".to_string(), "anything"));
    assert!(substr(&"".to_string(), ""));
    assert!(substr(&"abc".to_string(), ""));
    assert!(!substr(&"abc".to_string(), "abcd"));
    assert!(substr(&"abc".to_string(), "c"));
    assert!(!substr(&"abc".to_string(), "ca"));
}

#[test]
fn longest_sequence_edges() {
    assert_eq!(None, longest_sequence(""));
    assert_eq!(Some("x"), longest_sequence("xyz"));
    assert_eq!(Some("bbb"), longest_sequence("ababbba"));
    assert_eq!(Some("aaa"), longest_sequence("aaabbb"));
    assert_eq!(Some("cccc"), longest_sequence("abcccc"));
}

#[test]
fn longest_sequence_non_ascii() {
    assert_eq!(Some("ééé"), longest_sequence("aéééb"));
    assert_eq!(Some("日日"), longest_sequence("x日日yzz"));
    assert_eq!(Some("ü"), longest_sequence("ü"));
}

#[test]
fn enqueue_and_dequeue_layouts() {
    let mut q: Vec<i32> = Vec::new();
    for x in [5, 1, 3, 4] {
        q.enqueue(x);
    }
    assert_eq!(vec![1, 4, 3, 5], q);
    q.enqueue(2);
    assert_eq!(vec![1, 2, 3, 5, 4], q);
    assert_eq!(Some(1), q.dequeue());
    assert_eq!(vec![2, 4, 3, 5], q);
    assert_eq!(Some(2), q.dequeue());
    assert_eq!(vec![3, 4, 5], q);
}
