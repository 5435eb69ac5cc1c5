use nearest::group::Neighbor;
use nearest::nearest::Nearest;

fn hit(distance: u128, id: &str) -> Neighbor {
    Neighbor { distance, id: id.to_string() }
}

#[test]
fn scenario_overlapping_groups() {
    let mut n: Nearest<2> = Nearest::new_from(vec!["enemy_.*", "enemy_boss"]);
    assert_eq!(n.group_count(), 2);
    n.add("enemy_boss", [1, 0], "/root/boss".to_string());
    assert_eq!(n.query(&[0, 0], 0, 1), vec![hit(1, "/root/boss")]);
    assert_eq!(n.query(&[0, 0], 1, 1), vec![hit(1, "/root/boss")]);
    assert_eq!(n.query(&[0, 0], 2, 1), Vec::<Neighbor>::new());
}

#[test]
fn new_index_has_no_groups() {
    let mut n: Nearest<3> = Nearest::new();
    assert_eq!(n.group_count(), 0);
    n.add("anything", [0, 0, 0], "x".to_string());
    assert_eq!(n.group_size(0), None);
    assert_eq!(n.query(&[0, 0, 0], 0, -1), Vec::<Neighbor>::new());
    assert!(n.nearest(&[0, 0, 0], 0).is_none());
}

#[test]
fn enter_then_query_returns_the_object_at_distance_zero() {
    let mut n: Nearest<3> = Nearest::new_from(vec!["tree", "x"]);
    n.add("x", [7, -3, 2], "id".to_string());
    assert_eq!(n.query(&[7, -3, 2], 1, 1), vec![hit(0, "id")]);
    assert_eq!(n.query(&[7, -3, 2], 0, 1), Vec::<Neighbor>::new());
}

#[test]
fn enter_then_query_among_others() {
    let mut n: Nearest<2> = Nearest::new_from(vec!["x"]);
    n.add("x1", [0, 0], "a".to_string());
    n.add("x2", [10, 10], "b".to_string());
    n.add("x3", [5, 5], "c".to_string());
    assert_eq!(n.query(&[5, 5], 0, 1), vec![hit(0, "c")]);
    assert_eq!(n.query(&[10, 10], 0, 1), vec![hit(0, "b")]);
}

#[test]
fn an_older_member_at_the_same_point_comes_first() {
    let mut n: Nearest<2> = Nearest::new_from(vec!["x"]);
    n.add("x", [1, 1], "older".to_string());
    n.add("x", [1, 1], "newer".to_string());
    assert_eq!(n.query(&[1, 1], 0, 1), vec![hit(0, "older")]);
    assert_eq!(n.query(&[1, 1], 0, 2), vec![hit(0, "older"), hit(0, "newer")]);
}

#[test]
fn exit_erases_membership() {
    let mut n: Nearest<2> = Nearest::new_from(vec!["x"]);
    n.add("x", [4, 4], "id".to_string());
    n.remove("x", &[4, 4], &"id".to_string());
    assert_eq!(n.query(&[4, 4], 0, 1), Vec::<Neighbor>::new());
    assert_eq!(n.group_size(0), Some(0));
}

#[test]
fn exit_leaves_the_other_members() {
    let mut n: Nearest<2> = Nearest::new_from(vec!["x"]);
    n.add("x", [4, 4], "id".to_string());
    n.add("x", [5, 4], "other".to_string());
    n.remove("x", &[4, 4], &"id".to_string());
    assert_eq!(n.query(&[4, 4], 0, -1), vec![hit(1, "other")]);
}

#[test]
fn exit_of_an_unknown_object_changes_nothing() {
    let mut n: Nearest<2> = Nearest::new_from(vec!["x"]);
    n.add("x", [4, 4], "id".to_string());
    n.remove("x", &[4, 4], &"nobody".to_string());
    n.remove("x", &[4, 5], &"id".to_string());
    n.remove("y", &[4, 4], &"id".to_string());
    assert_eq!(n.group_size(0), Some(1));
    assert_eq!(n.query(&[4, 4], 0, 1), vec![hit(0, "id")]);
}

#[test]
fn exit_leaves_every_group_of_the_name() {
    let mut n: Nearest<2> = Nearest::new_from(vec!["enemy_.*", "enemy_boss", "ally"]);
    n.add("enemy_boss", [1, 0], "boss".to_string());
    n.add("ally", [1, 0], "friend".to_string());
    n.remove("enemy_boss", &[1, 0], &"boss".to_string());
    assert_eq!(n.group_size(0), Some(0));
    assert_eq!(n.group_size(1), Some(0));
    assert_eq!(n.group_size(2), Some(1));
}

#[test]
fn entering_twice_keeps_one_member() {
    let mut n: Nearest<2> = Nearest::new_from(vec!["x"]);
    n.add("x", [4, 4], "id".to_string());
    n.add("x", [4, 4], "id".to_string());
    assert_eq!(n.group_size(0), Some(1));
    n.remove("x", &[4, 4], &"id".to_string());
    assert_eq!(n.group_size(0), Some(0));
}

#[test]
fn a_name_without_group_is_dropped() {
    let mut n: Nearest<2> = Nearest::new_from(vec!["a", "b"]);
    n.add("c", [0, 0], "id".to_string());
    assert_eq!(n.group_size(0), Some(0));
    assert_eq!(n.group_size(1), Some(0));
}

#[test]
fn answers_are_ordered_by_squared_distance() {
    let mut n: Nearest<2> = Nearest::new_from(vec!["p"]);
    let points = [[9, 9], [-3, 4], [0, 1], [6, -8], [2, 2], [-1, -1], [0, 0], [7, 0]];
    for (i, p) in points.iter().enumerate() {
        n.add("p", *p, format!("n{}", i));
    }
    let found = n.query(&[0, 0], 0, 8);
    assert_eq!(
        found,
        vec![
            hit(0, "n6"),
            hit(1, "n2"),
            hit(2, "n5"),
            hit(8, "n4"),
            hit(25, "n1"),
            hit(49, "n7"),
            hit(100, "n3"),
            hit(162, "n0"),
        ]
    );
    for w in found.windows(2) {
        assert!(w[0].distance <= w[1].distance);
    }
    let other = n.query(&[7, 1], 0, -1);
    assert_eq!(other.len(), 8);
    for w in other.windows(2) {
        assert!(w[0].distance <= w[1].distance);
    }
    assert_eq!(other[0], hit(1, "n7"));
}

#[test]
fn groups_are_isolated() {
    let mut n: Nearest<2> = Nearest::new_from(vec!["red", "blue"]);
    n.add("red", [3, 3], "r".to_string());
    n.add("blue", [50, 50], "b".to_string());
    assert_eq!(n.query(&[3, 3], 1, -1), vec![hit(4418, "b")]);
    assert_eq!(n.query(&[3, 3], 0, -1), vec![hit(0, "r")]);
}

#[test]
fn reconfigure_resets_every_group() {
    let mut n: Nearest<2> = Nearest::new_from(vec!["a", "b"]);
    n.add("a", [1, 1], "x".to_string());
    n.add("b", [2, 2], "y".to_string());
    n.reconfigure(vec!["a", "b", "c"]);
    assert_eq!(n.group_count(), 3);
    assert_eq!(n.group_size(0), Some(0));
    assert_eq!(n.group_size(1), Some(0));
    assert_eq!(n.group_size(2), Some(0));
    assert_eq!(n.query(&[1, 1], 0, -1), Vec::<Neighbor>::new());
    n.add("a", [1, 1], "x".to_string());
    assert_eq!(n.group_size(0), Some(1));
}

#[test]
fn reconfigure_with_a_bad_pattern_keeps_the_other_groups() {
    let mut n: Nearest<2> = Nearest::new();
    n.reconfigure(vec!["(", "ok"]);
    assert_eq!(n.group_count(), 2);
    n.add("ok", [0, 0], "x".to_string());
    n.add("(", [0, 0], "y".to_string());
    assert_eq!(n.group_size(0), Some(0));
    assert_eq!(n.group_size(1), Some(1));
}

#[test]
fn query_limits() {
    let mut n: Nearest<1> = Nearest::new_from(vec!["p"]);
    n.add("p", [3], "c".to_string());
    n.add("p", [1], "a".to_string());
    n.add("p", [2], "b".to_string());
    assert_eq!(n.query(&[0], 0, 0), Vec::<Neighbor>::new());
    assert_eq!(n.query(&[0], 0, 2), vec![hit(1, "a"), hit(4, "b")]);
    assert_eq!(n.query(&[0], 0, 3), vec![hit(1, "a"), hit(4, "b"), hit(9, "c")]);
    assert_eq!(n.query(&[0], 0, 100), vec![hit(1, "a"), hit(4, "b"), hit(9, "c")]);
    assert_eq!(n.query(&[0], 0, -1), vec![hit(1, "a"), hit(4, "b"), hit(9, "c")]);
    assert_eq!(n.query(&[0], 0, i64::MIN), vec![hit(1, "a"), hit(4, "b"), hit(9, "c")]);
    assert_eq!(n.query(&[0], 0, i64::MAX), vec![hit(1, "a"), hit(4, "b"), hit(9, "c")]);
}

#[test]
fn query_of_a_group_that_is_not_there() {
    let mut n: Nearest<1> = Nearest::new_from(vec!["p"]);
    n.add("p", [3], "c".to_string());
    assert_eq!(n.query(&[0], 1, -1), Vec::<Neighbor>::new());
    assert_eq!(n.query(&[0], -1, -1), Vec::<Neighbor>::new());
    assert_eq!(n.query(&[0], i64::MAX, 1), Vec::<Neighbor>::new());
    assert_eq!(n.query(&[0], i64::MIN, 1), Vec::<Neighbor>::new());
    assert!(n.nearest(&[0], 1).is_none());
    assert!(n.nearest(&[0], usize::MAX).is_none());
    assert_eq!(n.group_size(1), None);
}

#[test]
fn nearest_gives_a_query_to_drain() {
    let mut n: Nearest<2> = Nearest::new_from(vec!["p"]);
    n.add("p", [0, 2], "b".to_string());
    n.add("p", [0, 1], "a".to_string());
    let mut q = n.nearest(&[0, 0], 0).unwrap();
    assert_eq!(q.remaining(), 2);
    assert_eq!(q.next(), Some(hit(1, "a")));
    assert_eq!(q.next(), Some(hit(4, "b")));
    assert_eq!(q.next(), None);
}

#[test]
fn a_moved_object_is_removed_and_added_again() {
    let mut n: Nearest<2> = Nearest::new_from(vec!["p"]);
    n.add("p", [0, 0], "a".to_string());
    n.remove("p", &[0, 0], &"a".to_string());
    n.add("p", [9, 9], "a".to_string());
    assert_eq!(n.query(&[0, 0], 0, -1), vec![hit(162, "a")]);
}

#[test]
fn a_pattern_too_large_to_build_leaves_the_other_groups() {
    let mut n: Nearest<2> = Nearest::new_from(vec!["ok", "a{1000}{1000}{1000}"]);
    assert_eq!(n.group_count(), 2);
    assert_eq!(n.rejected(), &vec![1usize]);
    n.add("ok", [0, 0], "x".to_string());
    n.add("aaa", [0, 0], "y".to_string());
    assert_eq!(n.query(&[0, 0], 0, -1), vec![hit(0, "x")]);
    assert_eq!(n.query(&[0, 0], 1, -1), Vec::<Neighbor>::new());
    n.remove("ok", &[0, 0], &"x".to_string());
    assert_eq!(n.group_size(0), Some(0));
}

#[test]
fn add_to_places_the_member_in_the_listed_groups() {
    let mut n: Nearest<2> = Nearest::new_from(vec!["a", "b", "c"]);
    n.add_to(&vec![2, 0], [1, 1], "x".to_string());
    assert_eq!(n.group_size(0), Some(1));
    assert_eq!(n.group_size(1), Some(0));
    assert_eq!(n.group_size(2), Some(1));
    assert_eq!(n.query(&[0, 0], 2, -1), vec![hit(2, "x")]);
}

#[test]
fn add_to_passes_over_repeats_and_groups_that_are_not_there() {
    let mut n: Nearest<2> = Nearest::new_from(vec!["a", "b"]);
    n.add_to(&vec![1, 7, 1, usize::MAX], [1, 1], "x".to_string());
    assert_eq!(n.group_size(0), Some(0));
    assert_eq!(n.group_size(1), Some(1));
    n.add_to(&Vec::new(), [2, 2], "y".to_string());
    assert_eq!(n.group_size(0), Some(0));
    assert_eq!(n.group_size(1), Some(1));
}

#[test]
fn remove_from_takes_the_member_out_of_the_listed_groups() {
    let mut n: Nearest<2> = Nearest::new_from(vec!["a", "b", "c"]);
    n.add_to(&vec![0, 1, 2], [1, 1], "x".to_string());
    n.remove_from(&vec![1, 1, 2, 9], &[1, 1], &"x".to_string());
    assert_eq!(n.group_size(0), Some(1));
    assert_eq!(n.group_size(1), Some(0));
    assert_eq!(n.group_size(2), Some(0));
    n.remove_from(&vec![0], &[1, 2], &"x".to_string());
    assert_eq!(n.group_size(0), Some(1));
}

#[test]
fn classify_names_the_groups_of_a_name() {
    let n: Nearest<2> = Nearest::new_from(vec!["enemy_.*", "enemy_boss", "ally"]);
    assert_eq!(n.classify("enemy_boss"), vec![0usize, 1]);
    assert_eq!(n.classify("ally_1"), vec![2usize]);
    assert_eq!(n.classify("tree"), Vec::<usize>::new());
    let none: Nearest<2> = Nearest::new();
    assert_eq!(none.classify("enemy_boss"), Vec::<usize>::new());
}

#[test]
fn rejected_names_the_patterns_that_gave_way() {
    let mut n: Nearest<2> = Nearest::new_from(vec!["ok", "(", "["]);
    assert_eq!(n.rejected(), &vec![1usize, 2]);
    assert_eq!(n.group_count(), 3);
    n.reconfigure(vec!["ok"]);
    assert_eq!(n.rejected(), &Vec::<usize>::new());
    let fresh: Nearest<2> = Nearest::new();
    assert_eq!(fresh.rejected(), &Vec::<usize>::new());
}

#[test]
fn member_ids_lists_a_group_oldest_first() {
    let mut n: Nearest<2> = Nearest::new_from(vec!["a.*", "ab"]);
    n.add("ab", [5, 5], "second".to_string());
    n.add("a", [0, 0], "first".to_string());
    assert_eq!(n.member_ids(0), Some(vec!["second".to_string(), "first".to_string()]));
    assert_eq!(n.member_ids(1), Some(vec!["second".to_string()]));
    assert_eq!(n.member_ids(2), None);
}

#[test]
fn relocate_moves_the_object_in_every_group_of_its_name() {
    let mut n: Nearest<2> = Nearest::new_from(vec!["enemy_.*", "enemy_boss", "ally"]);
    n.add("enemy_boss", [0, 0], "boss".to_string());
    n.add("ally", [0, 0], "friend".to_string());
    n.relocate("enemy_boss", &[0, 0], [3, 4], "boss".to_string());
    assert_eq!(n.query(&[0, 0], 0, -1), vec![hit(25, "boss")]);
    assert_eq!(n.query(&[0, 0], 1, -1), vec![hit(25, "boss")]);
    assert_eq!(n.query(&[0, 0], 2, -1), vec![hit(0, "friend")]);
    assert_eq!(n.group_size(0), Some(1));
}

#[test]
fn relocate_of_an_unknown_object_lets_it_enter() {
    let mut n: Nearest<2> = Nearest::new_from(vec!["p"]);
    n.relocate("p", &[0, 0], [1, 1], "a".to_string());
    assert_eq!(n.query(&[0, 0], 0, -1), vec![hit(2, "a")]);
}

#[test]
fn the_group_of_a_rejected_pattern_stays_empty() {
    let mut n: Nearest<2> = Nearest::new_from(vec!["a(", "a", "[a&&b]"]);
    assert_eq!(n.group_count(), 3);
    for (i, name) in ["a(", "a", "[a&&b]", "", "b", "a(b"].iter().enumerate() {
        n.add(name, [i as i32, 0], format!("n{}", i));
    }
    assert_eq!(n.group_size(0), Some(0));
    assert_eq!(n.group_size(1), Some(3));
    assert_eq!(n.group_size(2), Some(0));
    assert_eq!(n.member_ids(1), Some(vec!["n0".to_string(), "n1".to_string(), "n5".to_string()]));
}

#[test]
fn a_name_beyond_ascii_joins_only_the_groups_that_match_its_start() {
    let mut n: Nearest<2> = Nearest::new_from(vec!["ab", "b", "\\bz"]);
    n.add("abé", [1, 1], "x".to_string());
    assert_eq!(n.group_size(0), Some(1));
    assert_eq!(n.group_size(1), Some(0));
    assert_eq!(n.group_size(2), Some(0));
    assert_eq!(n.query(&[1, 1], 1, -1), Vec::<Neighbor>::new());
}

#[test]
fn new_from_makes_one_group_per_pattern() {
    for list in [
        vec![],
        vec!["a"],
        vec!["(", "b"],
        vec!["(", "[", "x", "\\p{No}"],
        vec!["a{1000}{1000}{1000}"],
        vec!["(", "a{1000}{1000}{1000}", "x", "b{1000}{1000}{1000}"],
    ] {
        let count = list.len();
        let n: Nearest<3> = Nearest::new_from(list);
        assert_eq!(n.group_count(), count);
        for g in 0..count {
            assert_eq!(n.group_size(g), Some(0));
            assert_eq!(n.nearest(&[0, 0, 0], g).unwrap().next(), None);
        }
        assert!(n.nearest(&[0, 0, 0], count).is_none());
    }
}

#[test]
fn describe_lists_every_group_in_turn() {
    let mut n: Nearest<2> = Nearest::new();
    assert_eq!(n.describe(), "Nearest()");
    n.reconfigure(vec!["enemy_.*", "(", "enemy_boss"]);
    assert_eq!(n.describe(), "Nearest([] [] [])");
    n.add("enemy_boss", [1, 0], "/boss".to_string());
    n.add("enemy_grunt", [2, 0], "/grunt".to_string());
    assert_eq!(n.describe(), "Nearest([/boss, /grunt] [] [/boss])");
    let one: Nearest<2> = Nearest::new_from(vec!["x"]);
    assert_eq!(one.describe(), "Nearest([])");
}
