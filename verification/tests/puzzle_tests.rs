use page_order::Input;
use page_order::find_middle_page;
use page_order::input_generator;
use page_order::part1;
use page_order::part2;

const TEST_INPUT: &str = "47|53
97|13
97|61
97|47
75|29
61|13
75|53
29|13
97|29
53|29
61|53
97|53
61|29
47|13
75|47
97|75
47|61
75|61
47|29
75|13
53|13

75,47,61,53,29
97,61,53,29,13
75,29,13
75,97,47,61,53
61,13,29
97,13,75,29,47";

#[test]
fn test_q1() {
    let input = Input::parse(TEST_INPUT).unwrap();
    assert_eq!(input.updates.len(), 6);
    assert_eq!(input.constraints.len(), 21);

    assert_eq!(input.updates_in_correct_order(), vec![0, 1, 2]);
    assert_eq!(input.solve_q1(), 143);
}

#[test]
fn test_q2() {
    let input = Input::parse(TEST_INPUT).unwrap();
    assert_eq!(input.solve_q2(), 123);
}

#[test]
fn test_part_wrappers() {
    let input = Input::parse(TEST_INPUT).unwrap();
    assert_eq!(part1(&input), 143);
    assert_eq!(part2(&input), 123);
}

#[test]
fn test_input_generator() {
    let input = input_generator(TEST_INPUT);
    assert_eq!(input.updates.len(), 6);
    assert_eq!(input.constraints.len(), 21);
    assert_eq!(input.constraints[0], (47, 53));
    assert_eq!(input.updates[0], vec![75, 47, 61, 53, 29]);
}

#[test]
fn test_is_correct_examples() {
    let input = Input::parse(TEST_INPUT).unwrap();
    assert!(input.update_is_correct(&vec![75, 47, 61, 53, 29]));
    assert!(input.update_is_correct(&vec![97, 61, 53, 29, 13]));
    assert!(input.update_is_correct(&vec![75, 29, 13]));
    assert!(!input.update_is_correct(&vec![75, 97, 47, 61, 53]));
    assert!(!input.update_is_correct(&vec![61, 13, 29]));
    assert!(!input.update_is_correct(&vec![97, 13, 75, 29, 47]));
}

#[test]
fn test_is_correct_idempotent() {
    let input = Input::parse(TEST_INPUT).unwrap();
    let u = vec![75, 97, 47, 61, 53];
    let first = input.update_is_correct(&u);
    let second = input.update_is_correct(&u);
    assert_eq!(first, second);
    assert!(!first);
}

#[test]
fn test_vacuous_constraints_ignored() {
    // A rule whose pages are absent from the update does not constrain it.
    let input = Input {
        constraints: vec![(1, 2), (8, 9)],
        updates: vec![vec![2, 1]],
    };
    assert!(!input.update_is_correct(&vec![2, 1]));
    assert!(input.update_is_correct(&vec![8, 9]));
    assert!(input.update_is_correct(&vec![3, 4, 5]));
}

#[test]
fn test_single_page_update() {
    // A one-page update is trivially correct and its middle index is 0.
    let input = Input {
        constraints: vec![(1, 2)],
        updates: vec![vec![5]],
    };
    assert!(input.update_is_correct(&vec![5]));
    assert_eq!(input.solve_q1(), 5);
    assert_eq!(input.solve_q2(), 0);
}

#[test]
fn test_each_update_scored_once() {
    // One correct and one incorrect update: each lands in exactly one part.
    let input = Input {
        constraints: vec![(1, 2), (2, 3), (1, 3)],
        updates: vec![vec![1, 2, 3], vec![3, 2, 1]],
    };
    assert_eq!(input.updates_in_correct_order(), vec![0]);
    assert_eq!(input.solve_q1(), 2);
    assert_eq!(input.solve_q2(), 2);
}

#[test]
fn test_find_middle_page_small() {
    let pages = vec![1, 2, 3];
    let rules = vec![(1, 2), (2, 3), (1, 3)];
    assert_eq!(find_middle_page(&pages, &rules), 2);
}

#[test]
fn test_find_middle_page_rule_order_irrelevant() {
    // The same total order given in a different rule order, with the pages
    // listed differently, still yields the same middle page.
    let pages = vec![3, 1, 2];
    let rules = vec![(2, 3), (1, 3), (1, 2)];
    assert_eq!(find_middle_page(&pages, &rules), 2);
}

#[test]
fn test_find_middle_page_duplicates_harmless() {
    // Duplicate rules are permitted and do not change the outcome.
    let pages = vec![1, 2, 3];
    let rules = vec![(1, 2), (1, 2), (2, 3), (2, 3), (1, 3)];
    assert_eq!(find_middle_page(&pages, &rules), 2);
}

#[test]
fn test_find_middle_page_five() {
    // The page set and restricted rules of the sample's fourth update.
    let pages = vec![75, 97, 47, 61, 53];
    let rules = vec![
        (47, 53),
        (97, 61),
        (97, 47),
        (75, 53),
        (61, 53),
        (97, 53),
        (75, 47),
        (97, 75),
        (47, 61),
        (75, 61),
    ];
    assert_eq!(find_middle_page(&pages, &rules), 47);
}

#[test]
fn test_resolved_middles_of_sample() {
    // The three incorrect sample updates reorder to middles 47, 29 and 47.
    let input = Input::parse(TEST_INPUT).unwrap();
    assert_eq!(input.solve_q2(), 47 + 29 + 47);
}
