//! What the harness decides.

use nvvec::bench::{
    check_depth, check_nodes, ids_of, parse_efs, plan_graph, plan_index, plan_sweep, query_limit, total, EfError,
    GraphPlan, IndexPlan, NumberError, RunError,
};

#[test]
fn lists_of_numbers_are_read() {
    assert_eq!(parse_efs("10,20,40"), Ok(vec![10, 20, 40]));
    assert_eq!(parse_efs(" 1 ,\t+7\u{2003},0008\u{a0}"), Ok(vec![1, 7, 8]));
    assert_eq!(parse_efs(&usize::MAX.to_string()), Ok(vec![usize::MAX]));
}

#[test]
fn bad_pieces_are_named() {
    let err = |s: &str| parse_efs(s).err().map(|e| (e.segment, e.kind));
    assert_eq!(parse_efs(""), Err(EfError { segment: 0, kind: NumberError::Empty }));
    assert_eq!(err("1,,2"), Some((1, NumberError::Empty)));
    assert_eq!(err("1, ,2"), Some((1, NumberError::Empty)));
    assert_eq!(err("1,2,"), Some((2, NumberError::Empty)));
    assert_eq!(err("1,x,2,y"), Some((1, NumberError::InvalidDigit)));
    assert_eq!(err("-1"), Some((0, NumberError::InvalidDigit)));
    assert_eq!(err("+"), Some((0, NumberError::InvalidDigit)));
    assert_eq!(err("1 2"), Some((0, NumberError::InvalidDigit)));
    assert_eq!(err("4,99999999999999999999999"), Some((1, NumberError::Overflow)));
    assert_eq!(err("18446744073709551616"), Some((0, NumberError::Overflow)));
}

#[test]
fn pieces_parse_as_the_standard_library_parses_them() {
    for s in ["", "+", "-", "+0", "++1", "00", "7", "a", "12b", "340282366920938463463374607431768211456"] {
        let ours = parse_efs(s).ok().map(|v| v[0]);
        assert_eq!(ours, s.trim().parse::<usize>().ok(), "{s}");
    }
}

#[test]
fn sweeps_skip_pools_that_are_too_small() {
    assert_eq!(
        plan_sweep(&vec![1, 4], &vec![5, 10, 20], 10),
        vec![(1, 10), (1, 20), (4, 10), (4, 20)]
    );
    assert_eq!(plan_sweep(&vec![1], &vec![5], 10), vec![]);
    assert_eq!(plan_sweep(&vec![], &vec![50], 10), vec![]);
}

#[test]
fn query_counts_are_limited() {
    assert_eq!(query_limit(None, 7), 7);
    assert_eq!(query_limit(Some(3), 7), 3);
    assert_eq!(query_limit(Some(30), 7), 7);
}

#[test]
fn ids_of_results_keep_their_order() {
    assert_eq!(ids_of(&vec![(5, 9), (6, 1)]), vec![9, 1]);
}

#[test]
fn graphs_come_from_the_cache_or_are_built() {
    assert_eq!(plan_graph(true, true), GraphPlan::Load);
    assert_eq!(plan_graph(true, false), GraphPlan::Build { save: true });
    assert_eq!(plan_graph(false, false), GraphPlan::Build { save: false });
}

#[test]
fn indexes_are_opened_or_packed() {
    assert_eq!(plan_index(true, false), IndexPlan::Open);
    assert_eq!(plan_index(false, true), IndexPlan::Pack);
    assert_eq!(plan_index(false, false), IndexPlan::MissingGraph);
}

#[test]
fn runs_that_cannot_be_judged_do_not_start() {
    assert_eq!(check_depth(10, 10), Ok(()));
    assert_eq!(check_depth(11, 10), Err(RunError::DepthExceeded { k: 11, depth: 10 }));
    assert_eq!(check_nodes(5, 5), Ok(()));
    assert_eq!(check_nodes(6, 5), Err(RunError::NodeCount { nodes: 6, count: 5 }));
}

#[test]
fn counts_add_up() {
    assert_eq!(total(&vec![]), 0);
    assert_eq!(total(&vec![3, usize::MAX, 4]), usize::MAX as u128 + 7);
}
