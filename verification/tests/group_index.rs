use nearest::group::{same_point, GroupIndex, Neighbor};
use nearest::metric::{squared_distance, squared_gap, MAX_SQ_GAP};

fn ids(found: &Vec<Neighbor>) -> Vec<String> {
    found.iter().map(|n| n.id.clone()).collect()
}

#[test]
fn squared_gap_exact_values() {
    assert_eq!(squared_gap(0, 0), 0);
    assert_eq!(squared_gap(3, -4), 49);
    assert_eq!(squared_gap(-4, 3), 49);
    assert_eq!(squared_gap(i32::MAX, i32::MIN), 18446744065119617025u64);
    assert_eq!(squared_gap(i32::MIN, i32::MAX), MAX_SQ_GAP);
}

#[test]
fn squared_distance_exact_values() {
    assert_eq!(squared_distance(&[0, 0], &[1, 0]), 1);
    assert_eq!(squared_distance(&[0, 0], &[1, 1]), 2);
    assert_eq!(squared_distance(&[1, 2, 3], &[4, 6, 3]), 25);
    assert_eq!(squared_distance(&[-5], &[5]), 100);
    assert_eq!(squared_distance::<0>(&[], &[]), 0);
}

#[test]
fn squared_distance_at_the_extremes() {
    let low = [i32::MIN, i32::MIN, i32::MIN];
    let high = [i32::MAX, i32::MAX, i32::MAX];
    assert_eq!(squared_distance(&low, &high), 3u128 * 18446744065119617025u128);
    assert_eq!(squared_distance(&high, &low), 3u128 * 18446744065119617025u128);
    assert_eq!(squared_distance(&low, &low), 0);
}

#[test]
fn same_point_compares_every_axis() {
    assert!(same_point(&[1, 2, 3], &[1, 2, 3]));
    assert!(!same_point(&[1, 2, 3], &[1, 2, 4]));
    assert!(!same_point(&[0, 2, 3], &[1, 2, 3]));
    assert!(same_point::<0>(&[], &[]));
}

#[test]
fn new_group_is_empty() {
    let g: GroupIndex<2> = GroupIndex::new();
    assert_eq!(g.size(), 0);
    let mut q = g.nearest(&[0, 0]);
    assert_eq!(q.remaining(), 0);
    assert_eq!(q.next(), None);
}

#[test]
fn add_is_idempotent() {
    let mut g: GroupIndex<2> = GroupIndex::new();
    assert!(g.add([1, 2], "a".to_string()));
    assert!(!g.add([1, 2], "a".to_string()));
    assert_eq!(g.size(), 1);
    assert!(g.add([1, 2], "b".to_string()));
    assert!(g.add([2, 1], "a".to_string()));
    assert_eq!(g.size(), 3);
}

#[test]
fn remove_needs_point_and_identifier() {
    let mut g: GroupIndex<2> = GroupIndex::new();
    g.add([1, 2], "a".to_string());
    g.add([1, 2], "b".to_string());
    assert_eq!(g.remove(&[1, 2], &"c".to_string()), 0);
    assert_eq!(g.remove(&[2, 1], &"a".to_string()), 0);
    assert_eq!(g.size(), 2);
    assert_eq!(g.remove(&[1, 2], &"a".to_string()), 1);
    assert_eq!(g.size(), 1);
    assert_eq!(g.remove(&[1, 2], &"a".to_string()), 0);
    let mut q = g.nearest(&[1, 2]);
    assert_eq!(q.next(), Some(Neighbor { distance: 0, id: "b".to_string() }));
    assert_eq!(q.next(), None);
}

#[test]
fn remove_from_empty_group_is_a_no_op() {
    let mut g: GroupIndex<3> = GroupIndex::new();
    assert_eq!(g.remove(&[0, 0, 0], &"x".to_string()), 0);
    assert_eq!(g.size(), 0);
}

#[test]
fn nearest_hands_out_in_order_of_distance() {
    let mut g: GroupIndex<2> = GroupIndex::new();
    g.add([3, 3], "d".to_string());
    g.add([0, 0], "a".to_string());
    g.add([2, 2], "c".to_string());
    g.add([1, 1], "b".to_string());
    let mut q = g.nearest(&[0, 0]);
    assert_eq!(q.remaining(), 4);
    assert_eq!(q.next(), Some(Neighbor { distance: 0, id: "a".to_string() }));
    assert_eq!(q.remaining(), 3);
    assert_eq!(q.next(), Some(Neighbor { distance: 2, id: "b".to_string() }));
    assert_eq!(q.next(), Some(Neighbor { distance: 8, id: "c".to_string() }));
    assert_eq!(q.next(), Some(Neighbor { distance: 18, id: "d".to_string() }));
    assert_eq!(q.next(), None);
    assert_eq!(q.next(), None);
    assert_eq!(q.remaining(), 0);
}

#[test]
fn nearest_from_another_point() {
    let mut g: GroupIndex<2> = GroupIndex::new();
    g.add([0, 0], "a".to_string());
    g.add([1, 1], "b".to_string());
    g.add([2, 2], "c".to_string());
    g.add([3, 3], "d".to_string());
    let mut q = g.nearest(&[1, 1]);
    let found = q.take(4);
    assert_eq!(
        found,
        vec![
            Neighbor { distance: 0, id: "b".to_string() },
            Neighbor { distance: 2, id: "a".to_string() },
            Neighbor { distance: 2, id: "c".to_string() },
            Neighbor { distance: 8, id: "d".to_string() },
        ]
    );
}

#[test]
fn ties_leave_oldest_first() {
    let mut g: GroupIndex<1> = GroupIndex::new();
    g.add([5], "right".to_string());
    g.add([-5], "left".to_string());
    g.add([5], "right_again".to_string());
    let mut q = g.nearest(&[0]);
    assert_eq!(ids(&q.take(10)), vec!["right", "left", "right_again"]);
}

#[test]
fn take_stops_at_count_and_leaves_the_rest() {
    let mut g: GroupIndex<1> = GroupIndex::new();
    g.add([4], "d".to_string());
    g.add([1], "a".to_string());
    g.add([3], "c".to_string());
    g.add([2], "b".to_string());
    let mut q = g.nearest(&[0]);
    assert_eq!(ids(&q.take(0)), Vec::<String>::new());
    assert_eq!(ids(&q.take(2)), vec!["a", "b"]);
    assert_eq!(q.remaining(), 2);
    assert_eq!(ids(&q.take(5)), vec!["c", "d"]);
    assert_eq!(q.remaining(), 0);
    assert_eq!(ids(&q.take(1)), Vec::<String>::new());
}

#[test]
fn query_reflects_the_group_at_the_time_of_the_call() {
    let mut g: GroupIndex<1> = GroupIndex::new();
    g.add([1], "a".to_string());
    let mut first = g.nearest(&[0]);
    let before = first.take(10);
    g.add([0], "b".to_string());
    let mut second = g.nearest(&[0]);
    assert_eq!(ids(&before), vec!["a"]);
    assert_eq!(ids(&second.take(10)), vec!["b", "a"]);
}

#[test]
fn distances_do_not_overflow_in_many_dimensions() {
    let mut g: GroupIndex<8> = GroupIndex::new();
    g.add([i32::MAX; 8], "far".to_string());
    g.add([0; 8], "origin".to_string());
    let mut q = g.nearest(&[i32::MIN; 8]);
    let found = q.take(2);
    assert_eq!(found[0], Neighbor { distance: 8u128 * 4611686018427387904u128, id: "origin".to_string() });
    assert_eq!(found[1], Neighbor { distance: 8u128 * 18446744065119617025u128, id: "far".to_string() });
}

#[test]
fn ids_lists_members_oldest_first() {
    let mut g: GroupIndex<1> = GroupIndex::new();
    assert_eq!(g.ids(), Vec::<String>::new());
    g.add([9], "z".to_string());
    g.add([1], "a".to_string());
    g.add([9], "z".to_string());
    g.add([5], "m".to_string());
    assert_eq!(g.ids(), vec!["z", "a", "m"]);
    g.remove(&[1], &"a".to_string());
    assert_eq!(g.ids(), vec!["z", "m"]);
}

#[test]
fn describe_lists_the_identifiers_in_brackets() {
    let mut g: GroupIndex<1> = GroupIndex::new();
    assert_eq!(g.describe(), "[]");
    g.add([3], "/root/a".to_string());
    assert_eq!(g.describe(), "[/root/a]");
    g.add([1], "/root/b".to_string());
    g.add([2], "c".to_string());
    assert_eq!(g.describe(), "[/root/a, /root/b, c]");
    g.remove(&[1], &"/root/b".to_string());
    assert_eq!(g.describe(), "[/root/a, c]");
}
