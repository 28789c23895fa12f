use std::sync::Arc;
use pathfinder::constants::ZERO;
use pathfinder::pool::Pool;
use pathfinder::poolgraph::search::{find_path, find_path_within};
use pathfinder::poolgraph::{needs_full_update, update_batches, Graph};
use pathfinder::univ2pool::{TokenV2, UniV2Pool};
use pathfinder::univ3pool::{Token, UniV3Pool};

fn word(x: u128) -> [u64; 4] {
    [x as u64, (x >> 64) as u64, 0, 0]
}

fn addr(last: u8) -> [u8; 20] {
    let mut a = [0u8; 20];
    a[19] = last;
    a
}

fn v2(id: u8, t0: u8, t1: u8, r0: u128, r1: u128) -> Pool {
    Pool::V2(UniV2Pool {
        id: addr(id),
        token0: TokenV2 { id: addr(t0), reserves: word(r0) },
        token1: TokenV2 { id: addr(t1), reserves: word(r1) },
    })
}

fn v3(id: u8, t0: u8, t1: u8) -> Pool {
    Pool::V3(UniV3Pool {
        id: addr(id),
        token0: Token { id: addr(t0), symbol: "X".to_string(), decimals: 18 },
        token1: Token { id: addr(t1), symbol: "Y".to_string(), decimals: 18 },
        fee: 500,
        tick: 0,
        ticks: vec![],
    })
}

const E21: u128 = 1_000_000_000_000_000_000_000;

// W = 1, A = 2, B = 3
fn triangle() -> Vec<Pool> {
    vec![
        v2(10, 1, 2, E21, 2 * E21),
        v2(11, 2, 3, 2 * E21, 3 * E21),
        v2(12, 3, 1, 3 * E21, E21),
        v2(13, 1, 2, E21, 2 * E21),
    ]
}

fn sorted_routes(graph: &Arc<Graph<Pool, [u8; 20], usize>>, start: u8, finish: u8) -> Vec<Vec<(usize, usize, usize)>> {
    let paths = find_path(Arc::clone(graph), &addr(start), &addr(finish)).unwrap();
    let mut routes: Vec<Vec<(usize, usize, usize)>> = paths.iter().map(|p| p.triples()).collect();
    routes.sort();
    routes
}

#[test]
fn markets_of_token_lists_pools_in_order() {
    let graph = Graph::new(triangle());
    let at_w = graph.markets_of_token(&addr(1)).unwrap();
    let addrs: Vec<[u8; 20]> = at_w.iter().map(|p| *p.addr()).collect();
    assert_eq!(addrs, vec![addr(10), addr(12), addr(13)]);
    let at_b = graph.markets_of_token(&addr(3)).unwrap();
    assert_eq!(at_b.len(), 2);
    assert!(graph.markets_of_token(&addr(99)).is_none());
}

#[test]
fn token_out_by_numbers() {
    // tokens are numbered as they first appear: W = 0, A = 1, B = 2
    let graph = Graph::new(triangle());
    assert_eq!(*graph.token_out(0, 0), 1);
    assert_eq!(*graph.token_out(0, 1), 0);
    assert_eq!(*graph.token_out(2, 2), 0);
}

#[test]
fn find_path_lists_every_cycle() {
    let graph = Arc::new(Graph::new(triangle()));
    let routes = sorted_routes(&graph, 1, 1);
    let mut expected = vec![
        vec![(0, 0, 1), (1, 1, 2), (2, 2, 0)],
        vec![(0, 0, 1), (3, 1, 0)],
        vec![(2, 0, 2), (1, 2, 1), (0, 1, 0)],
        vec![(2, 0, 2), (1, 2, 1), (3, 1, 0)],
        vec![(3, 0, 1), (0, 1, 0)],
        vec![(3, 0, 1), (1, 1, 2), (2, 2, 0)],
    ];
    expected.sort();
    assert_eq!(routes, expected);
}

#[test]
fn find_path_between_two_tokens() {
    let graph = Arc::new(Graph::new(triangle()));
    let routes = sorted_routes(&graph, 1, 3);
    // a route may pass through its start token again before the finish
    let mut expected = vec![
        vec![(0, 0, 1), (1, 1, 2)],
        vec![(0, 0, 1), (3, 1, 0), (2, 0, 2)],
        vec![(2, 0, 2)],
        vec![(3, 0, 1), (0, 1, 0), (2, 0, 2)],
        vec![(3, 0, 1), (1, 1, 2)],
    ];
    expected.sort();
    assert_eq!(routes, expected);
}

#[test]
fn find_path_unknown_token() {
    let graph = Arc::new(Graph::new(triangle()));
    assert!(find_path(Arc::clone(&graph), &addr(1), &addr(42)).is_none());
    assert!(find_path(Arc::clone(&graph), &addr(42), &addr(1)).is_none());
}

#[test]
fn find_path_stops_at_three_swaps() {
    // a square W-A-B-C-W has no cycle of at most three swaps
    let pools = vec![v2(10, 1, 2, 1, 1), v2(11, 2, 3, 1, 1), v2(12, 3, 4, 1, 1), v2(13, 4, 1, 1, 1)];
    let graph = Arc::new(Graph::new(pools));
    assert_eq!(sorted_routes(&graph, 1, 1).len(), 0);
    assert_eq!(sorted_routes(&graph, 1, 4).len(), 2);
}

#[test]
fn path_from_indices_spells_routes_out() {
    let graph = Arc::new(Graph::new(triangle()));
    let paths = find_path(Arc::clone(&graph), &addr(1), &addr(1)).unwrap();
    let swap_paths = graph.path_from_indices(&paths);
    assert_eq!(swap_paths.len(), paths.len());
    for (sp, p) in swap_paths.iter().zip(paths.iter()) {
        assert!(sp.good);
        let triples = p.triples();
        assert_eq!(sp.steps.len(), triples.len());
        assert_eq!(*sp.steps[0].token_in, addr(1));
        assert_eq!(*sp.steps[sp.steps.len() - 1].token_out, addr(1));
        for k in 0..sp.steps.len() {
            assert_eq!(*sp.steps[k].pool.token_out(sp.steps[k].token_in), *sp.steps[k].token_out);
            if k + 1 < sp.steps.len() {
                assert_eq!(sp.steps[k].token_out, sp.steps[k + 1].token_in);
            }
        }
    }
}

#[test]
fn swap_along_a_route() {
    let graph = Arc::new(Graph::new(triangle()));
    let paths = find_path(Arc::clone(&graph), &addr(1), &addr(3)).unwrap();
    let swap_paths = graph.path_from_indices(&paths);
    // the one-swap route W -> B through pool 12 (token0 = B, token1 = W): the
    // input W is token1, so zf1 is false: reserve in = B's 3e21, out = W's 1e21
    let direct = swap_paths.iter().find(|sp| sp.steps.len() == 1).unwrap();
    let out = direct.swap_along_path(word(1_000_000_000_000_000_000));
    let pool = match direct.steps[0].pool {
        Pool::V2(p) => *p,
        Pool::V3(_) => panic!("a V2 route"),
    };
    assert_eq!(out, pool.get_amount_out(false, word(1_000_000_000_000_000_000)));
    assert_eq!(direct.swap_along_path(ZERO), ZERO);
}

#[test]
fn swap_through_a_v3_pool_pays_nothing() {
    let pools = vec![v3(10, 1, 2), v2(11, 2, 1, E21, E21)];
    let graph = Arc::new(Graph::new(pools));
    let paths = find_path(Arc::clone(&graph), &addr(1), &addr(1)).unwrap();
    let swap_paths = graph.path_from_indices(&paths);
    assert_eq!(swap_paths.len(), 2);
    for sp in swap_paths.iter() {
        assert_eq!(sp.swap_along_path(word(1_000_000)), ZERO);
        assert_eq!(sp.maximize_profit(), (ZERO, ZERO));
        let mut checked = sp.clone();
        checked.check_path();
        assert!(!checked.good);
    }
}

#[test]
fn maximize_profit_and_check_path() {
    let graph = Arc::new(Graph::new(triangle()));
    let paths = find_path(Arc::clone(&graph), &addr(1), &addr(1)).unwrap();
    let swap_paths = graph.path_from_indices(&paths);
    for sp in swap_paths.iter() {
        let (amount_in, amount_out) = sp.maximize_profit();
        // with these deep pools every trial pays more than the one before
        assert_eq!(amount_in, [7766279631452241920, 5, 0, 0]);
        assert_eq!(amount_out, sp.swap_along_path(amount_in));
        let mut checked = sp.clone();
        checked.check_path();
        assert!(checked.good);
    }
}

#[test]
fn update_targets_and_apply_reserves() {
    let mut pools = triangle();
    pools.push(v3(14, 1, 3));
    let mut graph = Graph::new(pools);
    let touched = vec![addr(14), addr(12), addr(99), addr(10)];
    let (ids, indices) = graph.update_targets(&touched);
    assert_eq!(ids, vec![addr(12), addr(10)]);
    assert_eq!(indices, vec![2, 0]);
    let reserves = vec![[word(7), word(8), word(0)], [word(9), word(6), word(0)]];
    graph.apply_reserves(&indices, &reserves);
    match &graph.pools[2] {
        Pool::V2(p) => assert_eq!((p.token0.reserves, p.token1.reserves), (word(7), word(8))),
        Pool::V3(_) => panic!("kind changed"),
    }
    match &graph.pools[0] {
        Pool::V2(p) => assert_eq!((p.token0.reserves, p.token1.reserves), (word(9), word(6))),
        Pool::V3(_) => panic!("kind changed"),
    }
}

#[test]
fn v2_pools_in_order() {
    let pools = vec![v3(20, 1, 2), v2(21, 1, 3, 0, 0), v3(22, 1, 2), v2(23, 2, 3, 0, 0)];
    let graph = Graph::new(pools);
    let (ids, indices) = graph.v2_pools();
    assert_eq!(ids, vec![addr(21), addr(23)]);
    assert_eq!(indices, vec![1, 3]);
}

#[test]
fn update_batches_cover_all_pools() {
    assert_eq!(update_batches(999), vec![(0, 999)]);
    assert_eq!(update_batches(1999), vec![(0, 999), (999, 1999)]);
    assert_eq!(update_batches(2500), vec![(0, 999), (999, 1999), (1999, 2500)]);
    assert_eq!(update_batches(3000), vec![(0, 999), (999, 1999), (1999, 2999), (2999, 3000)]);
}

#[test]
fn decode_and_test_path_marks_routes() {
    // W = 1, A = 2: pool 10 is deep, pool 11 is a V3 pool, pool 12 is empty
    let pools = vec![v2(10, 1, 2, E21, E21), v3(11, 2, 1), v2(12, 2, 1, 0, 0)];
    let graph = Arc::new(Graph::new(pools));
    let paths = find_path(Arc::clone(&graph), &addr(1), &addr(1)).unwrap();
    let tested = graph.decode_and_test_path(&paths);
    assert_eq!(tested.len(), paths.len());
    // only the deep pool pays, and every cycle also uses another pool
    assert!(tested.iter().all(|sp| !sp.good));
    let single = vec![v2(10, 1, 2, E21, E21), v2(13, 2, 1, E21, 2 * E21)];
    let graph = Arc::new(Graph::new(single));
    let paths = find_path(Arc::clone(&graph), &addr(1), &addr(1)).unwrap();
    let tested = graph.decode_and_test_path(&paths);
    assert_eq!(tested.len(), 2);
    assert!(tested.iter().all(|sp| sp.good && sp.steps.len() == 2));
}

#[test]
fn find_path_lists_each_cycle_once() {
    // A = 1, B = 2, C = 3; pools 10..13 are indices 0..3
    let pools = vec![v2(10, 1, 2, 0, 0), v2(11, 2, 1, 0, 0), v2(12, 2, 3, 0, 0), v2(13, 3, 1, 0, 0)];
    let graph = Arc::new(Graph::new(pools));
    let paths = find_path(Arc::clone(&graph), &addr(1), &addr(1)).unwrap();
    assert_eq!(paths.len(), 6);
    let mut lists: Vec<Vec<usize>> = paths.iter().map(|p| p.triples().iter().map(|t| t.0).collect()).collect();
    lists.sort();
    assert_eq!(lists, vec![vec![0, 1], vec![0, 2, 3], vec![1, 0], vec![1, 2, 3], vec![3, 2, 0], vec![3, 2, 1]]);
    for p in paths.iter() {
        let t = p.triples();
        assert_eq!(t[0].1, 0);
        assert_eq!(t[t.len() - 1].2, 0);
    }
}

#[test]
fn find_path_single_pool() {
    let graph = Arc::new(Graph::new(vec![v2(10, 1, 2, 0, 0)]));
    let paths = find_path(Arc::clone(&graph), &addr(1), &addr(2)).unwrap();
    assert_eq!(paths.len(), 1);
    assert_eq!(paths[0].triples(), vec![(0, 0, 1)]);
    assert_eq!(find_path(Arc::clone(&graph), &addr(1), &addr(1)).unwrap().len(), 0);
    assert!(find_path(Arc::clone(&graph), &addr(3), &addr(1)).is_none());
    assert!(find_path(Arc::clone(&graph), &addr(1), &addr(3)).is_none());
}

#[test]
fn find_path_within_two_swaps() {
    let pools = vec![v2(10, 1, 2, 0, 0), v2(11, 2, 1, 0, 0), v2(12, 2, 3, 0, 0), v2(13, 3, 1, 0, 0)];
    let graph = Arc::new(Graph::new(pools));
    let paths = find_path_within(Arc::clone(&graph), &addr(1), &addr(1), 2).unwrap();
    let mut lists: Vec<Vec<usize>> = paths.iter().map(|p| p.triples().iter().map(|t| t.0).collect()).collect();
    lists.sort();
    assert_eq!(lists, vec![vec![0, 1], vec![1, 0]]);
}

#[test]
fn cloned_graph_finds_the_same_routes() {
    let graph = Graph::new(triangle());
    let copy = graph.clone();
    assert_eq!(copy.pools.len(), graph.pools.len());
    let a = sorted_routes(&Arc::new(graph), 1, 1);
    let b = sorted_routes(&Arc::new(copy), 1, 1);
    assert_eq!(a, b);
}

#[test]
fn full_update_after_a_hundred_blocks() {
    assert!(!needs_full_update(1000, 1000));
    assert!(!needs_full_update(1000, 1100));
    assert!(needs_full_update(1000, 1101));
}

#[test]
fn cycles_come_with_their_reverses() {
    let pools = vec![v2(10, 1, 2, 0, 0), v2(11, 2, 1, 0, 0), v2(12, 2, 3, 0, 0), v2(13, 3, 1, 0, 0)];
    let graph = Arc::new(Graph::new(pools));
    let routes = sorted_routes(&graph, 1, 1);
    assert_eq!(routes.len() % 2, 0);
    for r in routes.iter() {
        let back: Vec<(usize, usize, usize)> = r.iter().rev().map(|t| (t.0, t.2, t.1)).collect();
        assert_ne!(&back, r);
        assert!(routes.contains(&back));
    }
}
