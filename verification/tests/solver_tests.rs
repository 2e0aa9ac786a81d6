use breach_protocol::solver::{
    finalize_solution, find_condition_solutions, is_horizontal_step, merge_solutions,
    next_possible_steps, next_step_is_horizontal, Solution, Step,
};

#[test]
fn test_is_horizontal_step() {
    assert_eq!(true, is_horizontal_step(&Step::new(0, 0), &Step::new(2, 0)));
    assert_eq!(false, is_horizontal_step(&Step::new(0, 0), &Step::new(0, 2)));
}

#[test]
fn test_next_step_is_horizontal() {
    assert_eq!(Some(true), next_step_is_horizontal(&vec![Step::new(0, 0), Step::new(0, 2)]));
    assert_eq!(Some(false), next_step_is_horizontal(&vec![Step::new(0, 0), Step::new(2, 0)]));
    assert_eq!(None, next_step_is_horizontal(&vec![Step::new(0, 0)]));
    assert_eq!(None, next_step_is_horizontal(&vec![]));
}

#[test]
fn test_next_possible_steps() {
    let matrix = vec![
        vec![2, 1, 2],
        vec![2, 2, 2],
        vec![1, 1, 2],
    ];

    // first step
    assert_eq!(
        vec![Step::new(1, 0), Step::new(0, 2), Step::new(1, 2)],
        next_possible_steps(&vec![], 1, &matrix),
    );

    // second step
    assert_eq!(
        vec![Step::new(2, 0), Step::new(0, 1)],
        next_possible_steps(&vec![Step::new(0, 0)], 2, &matrix),
    );

    // third step
    assert_eq!(
        vec![Step::new(1, 1), Step::new(2, 1)],
        next_possible_steps(&vec![Step::new(0, 0), Step::new(0, 1)], 2, &matrix),
    );

    // no steps
    assert_eq!(
        Vec::<Step>::new(),
        next_possible_steps(&vec![Step::new(0, 0), Step::new(0, 1), Step::new(1, 1)], 2, &matrix),
    );
}

#[test]
fn test_finalize_solution() {
    // 3x3 any matrix
    let matrix = vec![
        vec![1, 1, 1],
        vec![],
        vec![],
    ];

    assert_eq!(None, finalize_solution(&vec![], &matrix, 1));

    // solution is already finalized
    assert_eq!(Some(vec![Step::new(0, 0)]), finalize_solution(&vec![Step::new(0, 0)], &matrix, 1));
    assert_eq!(Some(vec![Step::new(0, 0), Step::new(0, 1)]), finalize_solution(&vec![Step::new(0, 0), Step::new(0, 1)], &matrix, 2));

    // 1 additional steps
    assert_eq!(Some(vec![Step::new(0, 0), Step::new(0, 1)]), finalize_solution(&vec![Step::new(0, 1)], &matrix, 2));
    assert_eq!(None, finalize_solution(&vec![Step::new(0, 1)], &matrix, 1));

    assert_eq!(Some(vec![Step::new(0, 0), Step::new(0, 1), Step::new(1, 1)]), finalize_solution(&vec![Step::new(0, 1), Step::new(1, 1)], &matrix, 3));
    assert_eq!(None, finalize_solution(&vec![Step::new(0, 1), Step::new(1, 1)], &matrix, 2));

    // 2 additional steps
    assert_eq!(
        Some(vec![Step::new(0, 0), Step::new(0, 1), Step::new(1, 1), Step::new(1, 2), Step::new(2, 2)]),
        finalize_solution(&vec![Step::new(1, 1), Step::new(1, 2), Step::new(2, 2)], &matrix, 5),
    );
    assert_eq!(
        None,
        finalize_solution(&vec![Step::new(1, 1), Step::new(1, 2), Step::new(2, 2)], &matrix, 4),
    );

    // 3 additional steps
    assert_eq!(
        Some(vec![Step::new(0, 0), Step::new(0, 2), Step::new(1, 2), Step::new(1, 1), Step::new(2, 1), Step::new(2, 0), Step::new(1, 0)]),
        finalize_solution(&vec![Step::new(1, 1), Step::new(2, 1), Step::new(2, 0), Step::new(1, 0)], &matrix, 7),
    );
    assert_eq!(
        None,
        finalize_solution(&vec![Step::new(1, 1), Step::new(2, 1), Step::new(2, 0), Step::new(1, 0)], &matrix, 6),
    );
}

#[test]
fn test_find_condition_solutions() {
    let matrix = vec![
        vec![0, 9, 0, 9],
        vec![9, 9, 1, 0],
        vec![1, 9, 2, 9],
        vec![9, 0, 1, 9],
    ];

    let solutions = find_condition_solutions(&vec![0, 1, 2], None, &matrix);
    assert_eq!(
        vec![
            vec![Step::new(0, 0), Step::new(0, 2), Step::new(2, 2)],
            vec![Step::new(3, 1), Step::new(2, 1), Step::new(2, 2)],
            vec![Step::new(1, 3), Step::new(2, 3), Step::new(2, 2)],
        ],
        solutions,
    );

    let no_solutions = find_condition_solutions(&vec![0, 1, 8], None, &matrix);
    assert_eq!(Vec::<Vec<Step>>::new(), no_solutions);
}

#[test]
fn find_condition_solutions_continues_given_steps() {
    let matrix = vec![
        vec![0, 9, 0, 9],
        vec![9, 9, 1, 0],
        vec![1, 9, 2, 9],
        vec![9, 0, 1, 9],
    ];
    // after (0,0) and (0,2) the move must be horizontal
    let start = vec![Step::new(0, 0), Step::new(0, 2)];
    assert_eq!(
        vec![vec![Step::new(0, 0), Step::new(0, 2), Step::new(2, 2)]],
        find_condition_solutions(&vec![2], Some(start), &matrix),
    );
    // an empty sequence is spelled by the steps as they are
    assert_eq!(
        vec![vec![Step::new(3, 3)]],
        find_condition_solutions(&vec![], Some(vec![Step::new(3, 3)]), &matrix),
    );
}

#[test]
fn next_possible_steps_skips_picked_cells() {
    let matrix = vec![
        vec![7, 7],
        vec![7, 7],
    ];
    assert_eq!(
        vec![Step::new(1, 0), Step::new(0, 1)],
        next_possible_steps(&vec![Step::new(0, 0)], 7, &matrix),
    );
    // after a horizontal move only the column of the last pick is open
    assert_eq!(
        vec![Step::new(1, 1)],
        next_possible_steps(&vec![Step::new(0, 0), Step::new(1, 0)], 7, &matrix),
    );
}

#[test]
fn finalize_keeps_a_long_route_that_is_in_final_form() {
    let matrix = vec![vec![1, 1, 1], vec![1, 1, 1], vec![1, 1, 1]];
    // already in final form: the buffer is not looked at
    let route = vec![Step::new(0, 0), Step::new(0, 1), Step::new(1, 1)];
    assert_eq!(Some(route.clone()), finalize_solution(&route, &matrix, 1));
}

#[test]
fn finalize_takes_the_leftmost_bypass() {
    let matrix = vec![vec![1, 1, 1], vec![1, 1, 1], vec![1, 1, 1]];
    // vertical first move from row 1 in column 2: bypass through column 0
    let route = vec![Step::new(2, 1), Step::new(2, 2)];
    assert_eq!(
        Some(vec![Step::new(0, 0), Step::new(0, 1), Step::new(2, 1), Step::new(2, 2)]),
        finalize_solution(&route, &matrix, 4),
    );
    // column 0 is taken by the route: bypass through column 1
    let route = vec![Step::new(2, 1), Step::new(2, 2), Step::new(0, 2), Step::new(0, 0)];
    assert_eq!(
        Some(vec![
            Step::new(1, 0),
            Step::new(1, 1),
            Step::new(2, 1),
            Step::new(2, 2),
            Step::new(0, 2),
            Step::new(0, 0),
        ]),
        finalize_solution(&route, &matrix, 6),
    );
}

#[test]
fn finalize_finds_no_detour_on_a_full_board() {
    let matrix = vec![vec![1, 1], vec![1, 1]];
    // horizontal first move in row 1, the top of column 0 is in the route
    let route = vec![Step::new(0, 1), Step::new(1, 1), Step::new(1, 0), Step::new(0, 0)];
    assert_eq!(None, finalize_solution(&route, &matrix, 10));
}

fn solution(steps: Vec<Step>, conditions: Vec<bool>) -> Solution {
    Solution { steps, conditions }
}

#[test]
fn merge_takes_over_the_claims_of_a_piece() {
    let mut solutions = vec![
        solution(vec![Step::new(0, 0), Step::new(0, 1), Step::new(1, 1)], vec![true, false]),
        solution(vec![Step::new(0, 1), Step::new(1, 1)], vec![false, true]),
    ];
    merge_solutions(&mut solutions, 6);
    assert_eq!(2, solutions.len());
    assert_eq!(vec![true, true], solutions[0].conditions);
    assert_eq!(vec![false, true], solutions[1].conditions);
    assert_eq!(vec![Step::new(0, 0), Step::new(0, 1), Step::new(1, 1)], solutions[0].steps);
}

#[test]
fn merge_lays_routes_over_one_another() {
    let mut solutions = vec![
        solution(vec![Step::new(0, 0), Step::new(0, 1)], vec![true, false]),
        solution(vec![Step::new(0, 1), Step::new(1, 1)], vec![false, true]),
    ];
    merge_solutions(&mut solutions, 3);
    assert_eq!(3, solutions.len());
    assert_eq!(vec![Step::new(0, 0), Step::new(0, 1), Step::new(1, 1)], solutions[2].steps);
    // the joined route holds both routes as pieces: in the end it claims both daemons
    assert_eq!(vec![true, true], solutions[2].conditions);
    assert_eq!(vec![true, false], solutions[0].conditions);
}

#[test]
fn merge_respects_the_buffer() {
    let mut solutions = vec![
        solution(vec![Step::new(0, 0), Step::new(0, 1)], vec![true, false]),
        solution(vec![Step::new(0, 1), Step::new(1, 1)], vec![false, true]),
    ];
    merge_solutions(&mut solutions, 2);
    assert_eq!(2, solutions.len());
}

#[test]
fn merge_rejects_an_overlap_that_breaks_the_turns() {
    // both routes move vertically through the shared pick
    let mut solutions = vec![
        solution(vec![Step::new(0, 0), Step::new(0, 1)], vec![true, false]),
        solution(vec![Step::new(0, 1), Step::new(0, 2)], vec![false, true]),
    ];
    merge_solutions(&mut solutions, 6);
    assert_eq!(2, solutions.len());
}

#[test]
fn merge_puts_disjoint_routes_one_after_another() {
    // (0,0)-(1,0) is horizontal, the joint (1,0)-(1,2) vertical, (1,2)-(2,2) horizontal
    let mut solutions = vec![
        solution(vec![Step::new(0, 0), Step::new(1, 0)], vec![true, false]),
        solution(vec![Step::new(1, 2), Step::new(2, 2)], vec![false, true]),
    ];
    merge_solutions(&mut solutions, 4);
    assert_eq!(3, solutions.len());
    assert_eq!(
        vec![Step::new(0, 0), Step::new(1, 0), Step::new(1, 2), Step::new(2, 2)],
        solutions[2].steps
    );
    assert_eq!(vec![true, true], solutions[2].conditions);
}

#[test]
fn merge_leaves_solutions_with_the_same_claims_alone() {
    let mut solutions = vec![
        solution(vec![Step::new(0, 0), Step::new(1, 0)], vec![true]),
        solution(vec![Step::new(1, 2), Step::new(2, 2)], vec![true]),
    ];
    merge_solutions(&mut solutions, 6);
    assert_eq!(2, solutions.len());
}
