use pathfinder::constants::ZERO;
use pathfinder::edgegraph::Graph;
use pathfinder::pool::Pool;
use pathfinder::univ2pool::{TokenV2, UniV2Pool};

fn addr(last: u8) -> [u8; 20] {
    let mut a = [0u8; 20];
    a[19] = last;
    a
}

fn v2(id: u8, t0: u8, t1: u8) -> Pool {
    Pool::V2(UniV2Pool {
        id: addr(id),
        token0: TokenV2 { id: addr(t0), reserves: [1, 0, 0, 0] },
        token1: TokenV2 { id: addr(t1), reserves: [1, 0, 0, 0] },
    })
}

// W = 1, A = 2, B = 3
fn triangle() -> Vec<Pool> {
    vec![v2(10, 1, 2), v2(11, 2, 3), v2(12, 3, 1), v2(13, 1, 2)]
}

fn pool_ids(steps: &[pathfinder::edgegraph::Step<'_>]) -> Vec<u8> {
    steps.iter().map(|s| s.pool.addr()[19]).collect()
}

#[test]
fn edge_markets_of_token() {
    let graph = Graph::new(triangle());
    let at_a: Vec<u8> = graph.markets_of_token(&addr(2)).unwrap().iter().map(|p| p.addr()[19]).collect();
    assert_eq!(at_a, vec![10, 11, 13]);
    assert!(graph.markets_of_token(&addr(50)).is_none());
}

#[test]
fn dfs_each_token_once_finds_two_swap_cycles() {
    let graph = Graph::new(triangle());
    let paths = graph.dfs_each_token_once(&addr(1), &addr(1));
    let mut found: Vec<Vec<u8>> = paths.iter().map(|p| pool_ids(&p.steps)).collect();
    found.sort();
    assert_eq!(found, vec![vec![10, 13], vec![13, 10]]);
    for p in paths.iter() {
        assert_eq!(p.addrs, vec![*p.steps[0].pool.addr()]);
        assert_eq!(*p.steps[0].token_in, addr(1));
        assert_eq!(*p.steps[1].token_out, addr(1));
        assert_eq!(p.steps[0].token_out, p.steps[1].token_in);
        assert_eq!(p.steps[0].amount_in, ZERO);
        assert!(p.contains_token(&addr(2)));
        assert!(!p.contains_token(&addr(3)));
    }
}

#[test]
fn dfs_each_token_once_to_another_token() {
    let graph = Graph::new(triangle());
    let paths = graph.dfs_each_token_once(&addr(1), &addr(3));
    let mut found: Vec<Vec<u8>> = paths.iter().map(|p| pool_ids(&p.steps)).collect();
    found.sort();
    assert_eq!(found, vec![vec![10, 11], vec![12], vec![13, 11]]);
}

#[test]
fn swap_paths_equal_by_pool_addresses() {
    let graph = Graph::new(triangle());
    let paths = graph.dfs_each_token_once(&addr(1), &addr(1));
    assert!(paths[0] == paths[0]);
    assert!(paths[0] != paths[1]);
}

#[test]
fn dfs_each_token_once_lists_each_route_once() {
    // A = 1, B = 2, C = 3; routes of at most two swaps
    let graph = Graph::new(vec![v2(10, 1, 2), v2(11, 2, 1), v2(12, 2, 3), v2(13, 3, 1)]);
    let paths = graph.dfs_each_token_once(&addr(1), &addr(1));
    assert_eq!(paths.len(), 2);
    let mut found: Vec<Vec<u8>> = paths.iter().map(|p| pool_ids(&p.steps)).collect();
    found.sort();
    assert_eq!(found, vec![vec![10, 11], vec![11, 10]]);
}

#[test]
fn both_graphs_list_the_same_markets() {
    let keyed = Graph::new(triangle());
    let indexed = pathfinder::poolgraph::Graph::new(triangle());
    for t in 1..4u8 {
        let a: Vec<[u8; 20]> = keyed.markets_of_token(&addr(t)).unwrap().iter().map(|p| *p.addr()).collect();
        let b: Vec<[u8; 20]> = indexed.markets_of_token(&addr(t)).unwrap().iter().map(|p| *p.addr()).collect();
        assert_eq!(a, b);
    }
}

#[test]
fn dfs_each_token_once_in_stack_order() {
    // the last pool at the start is searched first: [P1, P0] before [P0, P1]
    let graph = Graph::new(vec![v2(10, 1, 2), v2(11, 2, 1), v2(12, 2, 3), v2(13, 3, 1)]);
    let paths = graph.dfs_each_token_once(&addr(1), &addr(1));
    let found: Vec<Vec<u8>> = paths.iter().map(|p| pool_ids(&p.steps)).collect();
    assert_eq!(found, vec![vec![11, 10], vec![10, 11]]);
    for p in paths.iter() {
        assert_eq!(*p.steps[0].token_in, addr(1));
        assert_eq!(*p.steps[1].token_out, addr(1));
        assert_eq!(p.steps[0].amount_in, ZERO);
        assert_eq!(p.steps[1].amount_out, ZERO);
    }
}
