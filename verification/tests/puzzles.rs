use breach_protocol::solver::{filter_best, solve, Solution, Step};

fn matrix1() -> Vec<Vec<u8>> {
    vec![
        vec![0xBD, 0x55, 0x55, 0x7A, 0xE9, 0x7A, 0x55],
        vec![0x55, 0xE9, 0x55, 0xBD, 0x55, 0x55, 0xE9],
        vec![0xE9, 0x55, 0xBD, 0x7A, 0x1C, 0x55, 0x7A],
        vec![0x55, 0x1C, 0x55, 0x55, 0x7A, 0x1C, 0xFF],
        vec![0x1C, 0x7A, 0x7A, 0x1C, 0xBD, 0x1C, 0xBD],
        vec![0x1C, 0x7A, 0xE9, 0xFF, 0x1C, 0xE9, 0xFF],
        vec![0x1C, 0x7A, 0x7A, 0xBD, 0x7A, 0x55, 0xBD],
    ]
}

fn conditions1() -> Vec<Vec<u8>> {
    vec![
        vec![0x1C, 0x7A],
        vec![0x7A, 0x1C, 0x1C],
        vec![0x7A, 0x7A, 0xBD, 0x7A],
    ]
}

const BUFFER_SIZE1: usize = 6;

fn solutions1() -> Vec<Solution> {
    vec![
        Solution {
            steps: vec![Step::new(5, 0), Step::new(5, 3), Step::new(1, 3), Step::new(1, 4)],
            conditions: vec![true, true, false],
        },
        Solution {
            steps: vec![Step::new(3, 0), Step::new(3, 2), Step::new(2, 2), Step::new(2, 4), Step::new(5, 4), Step::new(5, 0)],
            conditions: vec![true, false, true],
        },
    ]
}

const HAS_FULL_SOLUTION1: bool = false;

fn matrix2() -> Vec<Vec<u8>> {
    vec![
        vec![0x55, 0xBD, 0xBD, 0xBD, 0x55],
        vec![0xBD, 0x1C, 0x55, 0xE9, 0x1C],
        vec![0xBD, 0xBD, 0x1C, 0x1C, 0x55],
        vec![0x55, 0xE9, 0xE9, 0x55, 0xE9],
        vec![0x1C, 0x55, 0x55, 0x1C, 0x1C],
    ]
}

fn conditions2() -> Vec<Vec<u8>> {
    vec![
        vec![0x1C, 0x55],
        vec![0xBD, 0x55],
        vec![0x55, 0x55, 0x1C],
    ]
}

const BUFFER_SIZE2: usize = 6;

fn solutions2() -> Vec<Solution> {
    vec![
        Solution {
            steps: vec![Step::new(2, 0), Step::new(2, 4), Step::new(1, 4), Step::new(1, 1), Step::new(2, 1)],
            conditions: vec![true, true, true],
        },
        Solution {
            steps: vec![Step::new(3, 0), Step::new(3, 3), Step::new(0, 3), Step::new(0, 4), Step::new(1, 4)],
            conditions: vec![true, true, true],
        },
    ]
}

const HAS_FULL_SOLUTION2: bool = true;

fn matrix3() -> Vec<Vec<u8>> {
    vec![
        vec![0x7A, 0x55, 0xE9, 0xBD, 0x1C, 0x55, 0x55],
        vec![0xFF, 0x55, 0x55, 0xBD, 0xE9, 0x7A, 0x1C],
        vec![0x55, 0x1C, 0x55, 0x55, 0x1C, 0x55, 0xE9],
        vec![0xE9, 0x1C, 0xFF, 0x55, 0x1C, 0x1C, 0x55],
        vec![0xBD, 0x1C, 0x1C, 0x1C, 0xE9, 0x55, 0x1C],
        vec![0x1C, 0xFF, 0x55, 0x7A, 0xBD, 0x55, 0x1C],
        vec![0x55, 0x55, 0x7A, 0xBD, 0x7A, 0x55, 0x55],
    ]
}

fn conditions3() -> Vec<Vec<u8>> {
    vec![
        vec![0x1C, 0xE9, 0xBD],
        vec![0x1C, 0x55, 0x1C],
        vec![0x7A, 0xE9, 0x1C],
    ]
}

const BUFFER_SIZE3: usize = 6;

fn solutions3() -> Vec<Solution> {
    vec![
        Solution {
            steps: vec![Step::new(0, 0), Step::new(0, 3), Step::new(1, 3), Step::new(1, 1), Step::new(6, 1)],
            conditions: vec![false, true, true],
        },
        Solution {
            steps: vec![Step::new(0, 0), Step::new(0, 3), Step::new(4, 3), Step::new(4, 1), Step::new(3, 1)],
            conditions: vec![true, false, true],
        },
        Solution {
            steps: vec![Step::new(4, 0), Step::new(4, 1), Step::new(3, 1), Step::new(3, 4), Step::new(5, 4), Step::new(5, 3)],
            conditions: vec![true, true, false],
        },
    ]
}

const HAS_FULL_SOLUTION3: bool = false;

fn matrix4() -> Vec<Vec<u8>> {
    vec![
        vec![0x7A, 0x55, 0xFF, 0xBD, 0xBD, 0xBD, 0xE9],
        vec![0xBD, 0xFF, 0xFF, 0x55, 0xE9, 0xE9, 0x7A],
        vec![0x55, 0x7A, 0x7A, 0xBD, 0xE9, 0xFF, 0xBD],
        vec![0x7A, 0x1C, 0xFF, 0xFF, 0x7A, 0x1C, 0x1C],
        vec![0x7A, 0xBD, 0x55, 0x55, 0xE9, 0x55, 0x55],
        vec![0x7A, 0xE9, 0x55, 0xBD, 0xBD, 0x1C, 0x1C],
        vec![0x55, 0x7A, 0x7A, 0x7A, 0x7A, 0x7A, 0x1C],
    ]
}

fn conditions4() -> Vec<Vec<u8>> {
    vec![
        vec![0xFF, 0x7A],
        vec![0x1C, 0x7A, 0xBD],
        vec![0x7A, 0x7A, 0x55, 0x1C],
    ]
}

const BUFFER_SIZE4: usize = 6;

fn solutions4() -> Vec<Solution> {
    vec![
        Solution {
            steps: vec![Step::new(0, 0), Step::new(0, 4), Step::new(6, 4), Step::new(6, 3), Step::new(4, 3), Step::new(4, 0)],
            conditions: vec![false, true, true],
        },
        Solution {
            steps: vec![Step::new(0, 0), Step::new(0, 4), Step::new(6, 4), Step::new(6, 3), Step::new(2, 3), Step::new(2, 6)],
            conditions: vec![true, false, true],
        },
        Solution {
            steps: vec![Step::new(6, 0), Step::new(6, 3), Step::new(4, 3), Step::new(4, 0), Step::new(2, 0), Step::new(2, 2)],
            conditions: vec![true, true, false],
        },
    ]
}

const HAS_FULL_SOLUTION4: bool = false;

fn matrix5() -> Vec<Vec<u8>> {
    vec![
        vec![0x7A, 0xFF, 0xE9, 0x55, 0x7A, 0x7A, 0x7A],
        vec![0x7A, 0xE9, 0x1C, 0x55, 0xFF, 0x55, 0x1C],
        vec![0x7A, 0x1C, 0x7A, 0xE9, 0x7A, 0x7A, 0x55],
        vec![0x7A, 0x55, 0x55, 0xBD, 0x1C, 0x55, 0x1C],
        vec![0xBD, 0x7A, 0xE9, 0xE9, 0x1C, 0xFF, 0x55],
        vec![0x55, 0xFF, 0xBD, 0xBD, 0x1C, 0x7A, 0x1C],
        vec![0x55, 0x1C, 0xBD, 0xBD, 0x7A, 0xFF, 0xBD],
    ]
}

fn conditions5() -> Vec<Vec<u8>> {
    vec![
        vec![0x7A, 0xE9, 0xFF],
        vec![0x1C, 0x55, 0xE9],
        vec![0xBD, 0x7A, 0x55, 0xE9],
    ]
}

const BUFFER_SIZE5: usize = 6;

fn solutions5() -> Vec<Solution> {
    vec![
        Solution {
            steps: vec![Step::new(0, 0), Step::new(0, 1), Step::new(1, 1), Step::new(1, 5)],
            conditions: vec![true, false, false],
        },
        Solution {
            steps: vec![Step::new(2, 0), Step::new(2, 1), Step::new(3, 1), Step::new(3, 2)],
            conditions: vec![false, true, false],
        },
    ]
}

const HAS_FULL_SOLUTION5: bool = false;

fn matrix6() -> Vec<Vec<u8>> {
    vec![
        vec![0x1C, 0x1C, 0x1C, 0xBD, 0x1C, 0x1C],
        vec![0xBD, 0xBD, 0xE9, 0x55, 0x1C, 0x7A],
        vec![0x7A, 0x1C, 0x1C, 0xBD, 0x55, 0x1C],
        vec![0x7A, 0x7A, 0x7A, 0x7A, 0xE9, 0x55],
        vec![0x7A, 0x7A, 0xE9, 0x1C, 0x55, 0x55],
        vec![0x1C, 0x7A, 0x1C, 0xE9, 0x1C, 0x55],
    ]
}

fn conditions6() -> Vec<Vec<u8>> {
    vec![
        vec![0x1C, 0xBD, 0xE9, 0x1C],
    ]
}

const BUFFER_SIZE6: usize = 6;

fn solutions6() -> Vec<Solution> {
    vec![
        Solution {
            steps: vec![Step::new(0, 0), Step::new(0, 1), Step::new(2, 1), Step::new(2, 0)],
            conditions: vec![true],
        },
        Solution {
            steps: vec![Step::new(1, 0), Step::new(1, 1), Step::new(2, 1), Step::new(2, 0)],
            conditions: vec![true],
        },
    ]
}

const HAS_FULL_SOLUTION6: bool = true;

fn matrix7() -> Vec<Vec<u8>> {
    vec![
        vec![0x7A, 0xFF, 0x7A, 0xFF, 0x55, 0x1C, 0x7A],
        vec![0x7A, 0xBD, 0x7A, 0xFF, 0x7A, 0x1C, 0xE9],
        vec![0x7A, 0x7A, 0xE9, 0x1C, 0x55, 0x1C, 0xFF],
        vec![0xE9, 0x7A, 0xE9, 0xBD, 0xBD, 0xE9, 0xE9],
        vec![0x1C, 0xBD, 0xE9, 0xE9, 0xE9, 0x1C, 0x7A],
        vec![0x1C, 0x1C, 0x7A, 0xE9, 0x55, 0x7A, 0x7A],
        vec![0xFF, 0x1C, 0x1C, 0xFF, 0xE9, 0xBD, 0x1C],
    ]
}

fn conditions7() -> Vec<Vec<u8>> {
    vec![
        vec![0xFF, 0x55, 0xE9],
        vec![0x1C, 0x7A, 0xE9, 0xFF],
        vec![0xE9, 0xE9, 0xFF],
    ]
}

const BUFFER_SIZE7: usize = 6;

fn solutions7() -> Vec<Solution> {
    vec![
        Solution {
            steps: vec![Step::new(5, 0), Step::new(5, 5), Step::new(3, 5), Step::new(3, 0), Step::new(4, 0), Step::new(4, 4)],
            conditions: vec![true, true, false],
        },
        Solution {
            steps: vec![Step::new(6, 0), Step::new(6, 2), Step::new(4, 2), Step::new(4, 4), Step::new(3, 4), Step::new(3, 0)],
            conditions: vec![true, false, true],
        },
    ]
}

const HAS_FULL_SOLUTION7: bool = false;

fn matrix8() -> Vec<Vec<u8>> {
    vec![
        vec![0xBD, 0x1C, 0x1C, 0x7A, 0x55, 0x1C],
        vec![0x1C, 0xE9, 0xE9, 0x55, 0x7A, 0x55],
        vec![0x55, 0x1C, 0x55, 0x7A, 0x55, 0x55],
        vec![0xE9, 0xE9, 0x1C, 0x55, 0x55, 0xBD],
        vec![0x1C, 0x7A, 0x7A, 0xE9, 0x1C, 0x1C],
        vec![0x1C, 0x1C, 0xBD, 0xBD, 0x1C, 0xBD],
    ]
}

fn conditions8() -> Vec<Vec<u8>> {
    vec![
        vec![0x55, 0x1C, 0xBD, 0xE9],
        vec![0x55, 0x7A, 0x55],
    ]
}

const BUFFER_SIZE8: usize = 6;

fn solutions8() -> Vec<Solution> {
    vec![
        Solution {
            steps: vec![Step::new(4, 0), Step::new(4, 1), Step::new(5, 1), Step::new(5, 0), Step::new(0, 0), Step::new(0, 3)],
            conditions: vec![true, true],
        },
    ]
}

const HAS_FULL_SOLUTION8: bool = true;

fn matrix9() -> Vec<Vec<u8>> {
    vec![
        vec![0xE9, 0x55, 0x7A, 0xE9, 0xE9, 0x7A],
        vec![0xE9, 0xBD, 0xBD, 0x55, 0x1C, 0x7A],
        vec![0x7A, 0x1C, 0x1C, 0xE9, 0x55, 0x1C],
        vec![0x7A, 0x7A, 0x55, 0x1C, 0xBD, 0x7A],
        vec![0x7A, 0x1C, 0x1C, 0x1C, 0x7A, 0xE9],
        vec![0xBD, 0xBD, 0x55, 0x1C, 0x7A, 0x1C],
    ]
}

fn conditions9() -> Vec<Vec<u8>> {
    vec![
        vec![0x1C, 0x7A, 0xE9],
        vec![0xE9, 0x1C, 0xBD, 0xE9],
        vec![0xE9, 0x7A, 0xBD, 0x55],
    ]
}

const BUFFER_SIZE9: usize = 6;

fn solutions9() -> Vec<Solution> {
    vec![
        Solution {
            steps: vec![Step::new(1, 0), Step::new(1, 2), Step::new(0, 2), Step::new(0, 0)],
            conditions: vec![true, false, false],
        },
        Solution {
            steps: vec![Step::new(3, 0), Step::new(3, 3), Step::new(4, 3), Step::new(4, 0)],
            conditions: vec![false, true, false],
        },
        Solution {
            steps: vec![Step::new(0, 0), Step::new(0, 3), Step::new(4, 3), Step::new(4, 2)],
            conditions: vec![false, false, true],
        },
    ]
}

const HAS_FULL_SOLUTION9: bool = false;

#[test]
fn test1() {
    test(&matrix1(), &conditions1(), BUFFER_SIZE1, &solutions1(), HAS_FULL_SOLUTION1);
}

#[test]
fn test2() {
    test(&matrix2(), &conditions2(), BUFFER_SIZE2, &solutions2(), HAS_FULL_SOLUTION2);
}

#[test]
fn test3() {
    test(&matrix3(), &conditions3(), BUFFER_SIZE3, &solutions3(), HAS_FULL_SOLUTION3);
}

#[test]
fn test4() {
    test(&matrix4(), &conditions4(), BUFFER_SIZE4, &solutions4(), HAS_FULL_SOLUTION4);
}

#[test]
fn test5() {
    test(&matrix5(), &conditions5(), BUFFER_SIZE5, &solutions5(), HAS_FULL_SOLUTION5);
}

#[test]
fn test6() {
    test(&matrix6(), &conditions6(), BUFFER_SIZE6, &solutions6(), HAS_FULL_SOLUTION6);
}

#[test]
fn test7() {
    test(&matrix7(), &conditions7(), BUFFER_SIZE7, &solutions7(), HAS_FULL_SOLUTION7);
}

#[test]
fn test8() {
    test(&matrix8(), &conditions8(), BUFFER_SIZE8, &solutions8(), HAS_FULL_SOLUTION8);
}

#[test]
fn test9() {
    test(&matrix9(), &conditions9(), BUFFER_SIZE9, &solutions9(), HAS_FULL_SOLUTION9);
}

fn bytes_of(matrix: &Vec<Vec<u8>>, steps: &Vec<Step>) -> Vec<u8> {
    steps.iter().map(|s| matrix[s.y as usize][s.x as usize]).collect()
}

fn contains_run(bytes: &Vec<u8>, word: &Vec<u8>) -> bool {
    bytes.len() >= word.len() && (0..=bytes.len() - word.len()).any(|i| &bytes[i..i + word.len()] == &word[..])
}

/// What must hold of every solution that `solve` returns.
fn check_rules(matrix: &Vec<Vec<u8>>, conditions: &Vec<Vec<u8>>, steps: usize, solutions: &Vec<Solution>) {
    assert!(solutions.iter().all(|s| s.conditions.contains(&true)), "solution covers nothing");
    for s in solutions.iter() {
        assert_eq!(true, !s.steps.is_empty() && s.steps.len() <= steps, "solution is too long or empty");
        for step in s.steps.iter() {
            let found_steps = s.steps.iter().filter(|&s| s == step).count();
            assert_eq!(1, found_steps, "solution has same step 2 times");
        }

        assert_eq!(0, s.steps[0].y, "solution is not finalized");
        for i in (0..s.steps.len()).step_by(2) {
            let current = s.steps[i];
            if let Some(next) = s.steps.get(i + 1) {
                assert_eq!(current.x, next.x);
                assert_ne!(current.y, next.y);

                if let Some(next_next) = s.steps.get(i + 2) {
                    assert_ne!(next.x, next_next.x);
                    assert_eq!(next.y, next_next.y);
                }
            }
        }

        assert_eq!(conditions.len(), s.conditions.len());
        let bytes = bytes_of(matrix, &s.steps);
        for (j, covered) in s.conditions.iter().enumerate() {
            if *covered {
                assert!(contains_run(&bytes, &conditions[j]), "a claimed daemon is not uploaded");
            }
        }
    }
}

fn test(matrix: &Vec<Vec<u8>>, conditions: &Vec<Vec<u8>>, steps: usize, expected_solutions: &Vec<Solution>, has_full_solution: bool) {
    let solutions = solve(matrix, conditions, steps);
    for expected in expected_solutions.iter() {
        let found = solutions.iter().any(|actual| actual.conditions == expected.conditions && actual.steps == expected.steps);
        assert!(found);
    }

    check_rules(matrix, conditions, steps, &solutions);

    let best = filter_best(&solutions);
    for expected in expected_solutions.iter() {
        let found = best.iter().filter(|actual| actual.conditions == expected.conditions).count();
        assert_eq!(1, found);
    }

    let full_solution = best.iter().any(|s| s.conditions.iter().all(|&s| s));
    assert_eq!(has_full_solution, full_solution);
}

#[test]
fn two_representatives_without_a_full_solution() {
    let solutions = solve(&matrix1(), &conditions1(), 6);
    let best = filter_best(&solutions);
    assert!(best.len() >= 2);
    assert!(best.iter().any(|s| s.conditions == vec![true, true, false]));
    assert!(best.iter().any(|s| s.conditions == vec![true, false, true]));
    assert!(!best.iter().any(|s| s.conditions == vec![true, true, true]));
}

#[test]
fn single_condition_has_representatives_of_length_four() {
    let solutions = solve(&matrix6(), &conditions6(), 6);
    let expected = solutions6();
    for e in expected.iter() {
        assert!(solutions.iter().any(|s| s.steps == e.steps && s.conditions == e.conditions));
    }
    let best = filter_best(&solutions);
    assert_eq!(1, best.len());
    assert_eq!(4, best[0].steps.len());
    assert_eq!(vec![true], best[0].conditions);
}

#[test]
fn degenerate_matrix_of_one_byte() {
    let matrix = vec![vec![0x55; 3]; 3];
    let conditions = vec![vec![0x55, 0x55]];
    let solutions = solve(&matrix, &conditions, 2);
    assert_eq!(6, solutions.len());
    for s in solutions.iter() {
        assert_eq!(2, s.steps.len());
        assert_eq!(0, s.steps[0].y);
        assert_eq!(s.steps[0].x, s.steps[1].x);
        assert_ne!(s.steps[0].y, s.steps[1].y);
        assert_eq!(vec![true], s.conditions);
    }
    check_rules(&matrix, &conditions, 2, &solutions);
    // every vertical move out of the top row is there, once, in search order
    let mut expected = Vec::new();
    for x in 0..3u8 {
        for y in 1..3u8 {
            expected.push(vec![Step::new(x, 0), Step::new(x, y)]);
        }
    }
    let found: Vec<Vec<Step>> = solutions.iter().map(|s| s.steps.clone()).collect();
    assert_eq!(expected, found);
}

#[test]
fn seeds_come_by_daemon_and_then_in_search_order() {
    let matrix = vec![vec![1, 2, 1], vec![2, 1, 2], vec![1, 2, 1]];
    // nothing can be merged within a buffer of two picks
    let solutions = solve(&matrix, &vec![vec![2, 1], vec![1, 2]], 2);
    let found: Vec<(Vec<Step>, Vec<bool>)> =
        solutions.iter().map(|s| (s.steps.clone(), s.conditions.clone())).collect();
    assert_eq!(
        vec![
            (vec![Step::new(1, 0), Step::new(1, 1)], vec![true, false]),
            (vec![Step::new(0, 0), Step::new(0, 1)], vec![false, true]),
            (vec![Step::new(2, 0), Step::new(2, 1)], vec![false, true]),
        ],
        found
    );
}

#[test]
fn missing_byte_gives_no_solution() {
    let matrix = vec![vec![0x1C, 0x55, 0x1C], vec![0x55, 0x1C, 0x55], vec![0x1C, 0x55, 0x1C]];
    let conditions = vec![vec![0x1C, 0xBD]];
    assert!(solve(&matrix, &conditions, 6).is_empty());
    assert!(filter_best(&solve(&matrix, &conditions, 6)).is_empty());
}

#[test]
fn solve_without_conditions_gives_no_solution() {
    assert!(solve(&matrix2(), &Vec::new(), 6).is_empty());
}

#[test]
fn solve_returns_every_bare_path_that_can_be_finalized() {
    let matrix = vec![vec![1, 2, 3], vec![4, 5, 6], vec![7, 8, 9]];
    // 5 then 6: the one path is (1,1)-(2,1), horizontal; the top of column 1 goes before it
    let solutions = solve(&matrix, &vec![vec![5, 6]], 3);
    assert_eq!(1, solutions.len());
    assert_eq!(vec![Step::new(1, 0), Step::new(1, 1), Step::new(2, 1)], solutions[0].steps);
    assert_eq!(vec![true], solutions[0].conditions);
    // no room for the pick that leads in
    assert!(solve(&matrix, &vec![vec![5, 6]], 2).is_empty());
}

#[test]
fn solve_keeps_a_bare_path_that_is_longer_than_the_buffer() {
    let matrix = vec![vec![1, 2, 3], vec![4, 5, 6], vec![7, 8, 9]];
    // 1, 4, 5 is spelled from the top row with a vertical first move
    let solutions = solve(&matrix, &vec![vec![1, 4, 5]], 2);
    assert_eq!(1, solutions.len());
    assert_eq!(vec![Step::new(0, 0), Step::new(0, 1), Step::new(1, 1)], solutions[0].steps);
}
