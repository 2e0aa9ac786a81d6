use breach_protocol::solver::{filter_best, Solution, Step};

fn path(len: u8) -> Vec<Step> {
    (0..len).map(|i| Step::new(i, 0)).collect()
}

fn solution(len: u8, conditions: Vec<bool>) -> Solution {
    Solution { steps: path(len), conditions }
}

fn same(a: &Vec<Solution>, b: &Vec<Solution>) -> bool {
    a.len() == b.len()
        && a.iter().zip(b.iter()).all(|(x, y)| x.steps == y.steps && x.conditions == y.conditions)
}

#[test]
fn filter_best_keeps_the_shortest_of_each_set_of_claims() {
    let all = vec![
        solution(5, vec![true, false]),
        solution(3, vec![true, false]),
        solution(4, vec![true, false]),
        solution(6, vec![false, true]),
    ];
    let best = filter_best(&all);
    assert_eq!(2, best.len());
    assert_eq!(3, best[0].steps.len());
    assert_eq!(vec![true, false], best[0].conditions);
    assert_eq!(6, best[1].steps.len());
    assert_eq!(vec![false, true], best[1].conditions);
}

#[test]
fn filter_best_keeps_the_first_of_several_shortest() {
    let first = Solution { steps: vec![Step::new(1, 1), Step::new(2, 2)], conditions: vec![true] };
    let second = Solution { steps: vec![Step::new(3, 3), Step::new(4, 4)], conditions: vec![true] };
    let best = filter_best(&vec![solution(3, vec![true]), first, second]);
    assert_eq!(1, best.len());
    assert_eq!(vec![Step::new(1, 1), Step::new(2, 2)], best[0].steps);
}

#[test]
fn filter_best_orders_by_the_number_of_claims_then_by_the_later_claim() {
    let all = vec![
        solution(1, vec![true, true, true]),
        solution(1, vec![false, false, true]),
        solution(1, vec![true, true, false]),
        solution(1, vec![true, false, false]),
        solution(1, vec![false, true, true]),
        solution(1, vec![false, true, false]),
        solution(1, vec![true, false, true]),
        solution(1, vec![false, false, false]),
    ];
    let order: Vec<Vec<bool>> = filter_best(&all).into_iter().map(|s| s.conditions).collect();
    assert_eq!(
        vec![
            vec![false, false, false],
            vec![true, false, false],
            vec![false, true, false],
            vec![false, false, true],
            vec![true, true, false],
            vec![true, false, true],
            vec![false, true, true],
            vec![true, true, true],
        ],
        order
    );
}

#[test]
fn filter_best_of_nothing_is_nothing() {
    assert!(filter_best(&Vec::new()).is_empty());
}

#[test]
fn filter_best_twice_is_filter_best_once() {
    let all = vec![
        solution(4, vec![true, true, false]),
        solution(2, vec![false, false, true]),
        solution(6, vec![true, false, true]),
        solution(3, vec![true, true, false]),
        solution(5, vec![true, false, true]),
        solution(1, vec![false, true, false]),
        solution(2, vec![false, true, false]),
    ];
    let once = filter_best(&all);
    let twice = filter_best(&once);
    assert!(same(&once, &twice));
    assert_eq!(4, once.len());
    // whatever the order in which the solutions come, the ranking is the same
    let mut reversed = all.clone();
    reversed.reverse();
    let other = filter_best(&reversed);
    assert_eq!(
        once.iter().map(|s| s.conditions.clone()).collect::<Vec<_>>(),
        other.iter().map(|s| s.conditions.clone()).collect::<Vec<_>>()
    );
}
