use regexp::dp::{
    climb_stairs, climb_stairs_3_steps, climb_stairs_3_steps_opt, climb_stairs_k_steps,
    climb_stairs_k_steps_opt, climb_stairs_k_steps_skip_red, climb_stairs_opt, paid_staircase,
    paid_staircase_opt, sum,
};

#[test]
fn climb_stairs_edge_case1() {
    assert_eq!(climb_stairs(0), 1);
    assert_eq!(climb_stairs_opt(0), 1);
}

#[test]
fn climb_stairs_edge_case2() {
    assert_eq!(climb_stairs(1), 1);
    assert_eq!(climb_stairs_opt(1), 1);
}

#[test]
fn climb_stairs_simple_test1() {
    assert_eq!(climb_stairs(3), 3);
    assert_eq!(climb_stairs_opt(3), 3);
}

#[test]
fn climb_stairs_simple_test2() {
    assert_eq!(climb_stairs(5), 8);
    assert_eq!(climb_stairs_opt(5), 8);
}

#[test]
fn climb_stairs_memory_test() {
    assert_eq!(climb_stairs_opt(1000000), 2756670985995446685);
}

#[test]
fn climb_stairs_3_steps_edge_case1() {
    assert_eq!(climb_stairs_3_steps(0), 1);
    assert_eq!(climb_stairs_3_steps_opt(0), 1);
}

#[test]
fn climb_stairs_3_steps_edge_case2() {
    assert_eq!(climb_stairs_3_steps(1), 1);
    assert_eq!(climb_stairs_3_steps_opt(1), 1);
}

#[test]
fn edge_case3() {
    assert_eq!(climb_stairs_3_steps(2), 2);
    assert_eq!(climb_stairs_3_steps_opt(2), 2);
}

#[test]
fn climb_stairs_3_steps_simple_test1() {
    assert_eq!(climb_stairs_3_steps(3), 4);
    assert_eq!(climb_stairs_3_steps_opt(3), 4);
}

#[test]
fn climb_stairs_3_steps_simple_test2() {
    assert_eq!(climb_stairs_3_steps(5), 13);
    assert_eq!(climb_stairs_3_steps_opt(5), 13);
}

#[test]
fn climb_stairs_k_steps_simple_test1() {
    assert_eq!(climb_stairs_k_steps(3, 2), 3);
    assert_eq!(climb_stairs_k_steps_opt(3, 2), 3);
}

#[test]
fn climb_stairs_k_steps_simple_test2() {
    assert_eq!(climb_stairs_k_steps(5, 2), 8);
    assert_eq!(climb_stairs_k_steps_opt(5, 2), 8);
}

#[test]
fn simple_test3() {
    assert_eq!(climb_stairs_k_steps(3, 3), 4);
    assert_eq!(climb_stairs_k_steps_opt(3, 3), 4);
}

#[test]
fn simple_test4() {
    assert_eq!(climb_stairs_k_steps(5, 3), 13);
    assert_eq!(climb_stairs_k_steps_opt(5, 3), 13);
}

#[test]
fn climb_stairs_k_steps_memory_test() {
    assert_eq!(climb_stairs_k_steps_opt(1000000, 2), 2756670985995446685);
}

#[test]
fn skip_red_test() {
    assert_eq!(
        climb_stairs_k_steps_skip_red(7, 3, &[false, true, false, true, true, false, false]),
        2
    );
}

#[test]
fn edge_cases() {
    assert_eq!(paid_staircase(0, &[0, 2]), 0);
    assert_eq!(paid_staircase(1, &[0, 2]), 2);
    assert_eq!(paid_staircase_opt(0, &[0, 2]), 0);
    assert_eq!(paid_staircase_opt(1, &[0, 2]), 2);
}

#[test]
fn paid_staircase_simple_test() {
    assert_eq!(paid_staircase(3, &[0, 3, 2, 4]), 6);
    assert_eq!(paid_staircase_opt(3, &[0, 3, 2, 4]), 6);
}

#[test]
fn sum_edge_case1() {
    assert_eq!(sum(0), 0);
}

#[test]
fn sum_edge_case2() {
    assert_eq!(sum(1), 1);
}

#[test]
fn sum_simple_test() {
    assert_eq!(sum(5), 15);
}

#[test]
fn climb_stairs_k_steps_one_step_only() {
    assert_eq!(climb_stairs_k_steps(6, 1), 1);
    assert_eq!(climb_stairs_k_steps(0, 3), 1);
    assert_eq!(climb_stairs_k_steps(1, 3), 1);
}
