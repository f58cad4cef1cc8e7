use poolcycle::cycler::{
    find_cycle, process_cycles, top_cycles, Cycle, Memo, SearchConfig,
};
use poolcycle::dec::{dec_ge, dec_is_zero, parse_dec_bytes, Dec};
use poolcycle::pool::Pool;
use poolcycle::token::Token;

fn mk_dec(s: &str) -> Dec {
    parse_dec_bytes(s.as_bytes()).expect("decimal text")
}

fn values_equal(a: &Dec, b: &Dec) -> bool {
    dec_ge(a, b) && dec_ge(b, a)
}

fn mk_pool(id: &str, t0: &str, t1: &str, p0: &str, p1: &str, fee: &str, b0: &str, b1: &str) -> Pool {
    Pool {
        id: id.to_string(),
        token0_id: t0.to_string(),
        token1_id: t1.to_string(),
        token0_price: p0.to_string(),
        token1_price: p1.to_string(),
        total_value_locked_token0: String::new(),
        total_value_locked_token1: String::new(),
        liquidity: String::new(),
        fee_tier: fee.to_string(),
        token0_balance: b0.to_string(),
        token1_balance: b1.to_string(),
    }
}

fn mk_token(id: &str, decimals: &str) -> Token {
    Token { id: id.to_string(), symbol: id.to_string(), decimals: decimals.to_string() }
}

fn mk_big(b: &str) -> String {
    b.to_string()
}

/// A three-pool triangle A -> B -> C -> A with unit prices, no fees, and
/// ample reserves everywhere.
fn triangle() -> (Vec<Pool>, Vec<Token>) {
    let pools = vec![
        mk_pool("ab", "A", "B", "1", "1", "0", &mk_big("1000000000000"), &mk_big("1000000000000")),
        mk_pool("bc", "B", "C", "1", "1", "0", &mk_big("1000000000000"), &mk_big("1000000000000")),
        mk_pool("ca", "C", "A", "1", "1", "0", &mk_big("1000000000000"), &mk_big("1000000000000")),
    ];
    let tokens = vec![mk_token("A", "0"), mk_token("B", "0"), mk_token("C", "0")];
    (pools, tokens)
}

// Empty graph: a root token with no adjacent pools yields zero cycles and an
// empty report, not an error.
#[test]
fn empty_graph() {
    let pools: Vec<Pool> = vec![];
    let tokens: Vec<Token> = vec![];
    let cfg = SearchConfig::standard();
    let cycles = process_cycles(&mk_token("A", "0"), &pools, &tokens, &cfg);
    assert_eq!(cycles.len(), 0);
    let report = poolcycle::cycler::find_arbitrage_cycles(&mk_token("A", "0"), &pools, &tokens, &cfg);
    assert!(report.is_empty());
}

#[test]
fn triangle_finds_closed_cycles() {
    let (pools, tokens) = triangle();
    let cfg = SearchConfig::standard();
    let root = mk_token("A", "0");
    let cycles = process_cycles(&root, &pools, &tokens, &cfg);
    // two pools touch A, so two candidates
    assert_eq!(cycles.len(), 2);
    for c in &cycles {
        assert_eq!(c.root_token, "A");
        assert!(!c.pools.is_empty());
        assert!(!dec_is_zero(&c.max_price));
        // no revisited pool within one path
        for i in 0..c.pools.len() {
            for j in (i + 1)..c.pools.len() {
                assert_ne!(c.pools[i].id, c.pools[j].id);
            }
        }
        // depth bound
        assert!(c.pools.len() <= 20);
        // closure: walking the route ends back at the root
        let route = c.router_path();
        assert_eq!(route.first().unwrap(), "A");
        assert_eq!(route.last().unwrap(), "A");
        assert_eq!(route.len(), 2 * c.pools.len() + 1);
    }
    // the cycle seeded by pool ab goes ab -> bc -> ca
    let ids: Vec<&str> = cycles[0].pools.iter().map(|p| p.id.as_str()).collect();
    assert_eq!(ids, vec!["ab", "bc", "ca"]);
    // unit prices, no fees: the multiplier is exactly one
    assert!(values_equal(&cycles[0].max_price, &mk_dec("1")));
}

// Memoization: an identical (pool, token) state queried twice within one run
// returns the identical multiplier, from the cache the second time.
#[test]
fn memoization_returns_identical_result() {
    let (pools, tokens) = triangle();
    let cfg = SearchConfig::standard();
    let mut memo = Memo::new();
    let root = "A".to_string();
    let start = vec![poolcycle::pool::clone_pool(&pools[0])];
    let (p1, path1) = find_cycle(&pools, &tokens, &cfg, &mut memo, &root, &pools[0], &root, &start);
    let len_after_first = memo.entries.len();
    let (p2, path2) = find_cycle(&pools, &tokens, &cfg, &mut memo, &root, &pools[0], &root, &start);
    assert_eq!(p1.digits, p2.digits);
    assert_eq!(p1.scale, p2.scale);
    assert_eq!(path1.len(), path2.len());
    for (a, b) in path1.iter().zip(path2.iter()) {
        assert_eq!(a.id, b.id);
    }
    // the second query was answered from the cache: nothing new was stored
    assert_eq!(memo.entries.len(), len_after_first);
}

// Monotonic pruning: a zero (or empty) reserve of the outgoing token forces
// the multiplier of every path through that state to zero.
#[test]
fn zero_balance_prunes() {
    let pools = vec![
        mk_pool("ab", "A", "B", "1", "1", "0", "", &mk_big("1000000000000")),
        mk_pool("ba", "B", "A", "1", "1", "0", &mk_big("1000000000000"), &mk_big("1000000000000")),
    ];
    let tokens = vec![mk_token("A", "0"), mk_token("B", "0")];
    let cfg = SearchConfig::standard();
    let cycles = process_cycles(&mk_token("A", "0"), &pools, &tokens, &cfg);
    assert_eq!(cycles.len(), 2);
    // the candidate seeded by pool ab routes A out of ab, whose reserve of A
    // is unknown: pruned to zero with no usable route
    assert!(dec_is_zero(&cycles[0].max_price));
    assert!(cycles[0].pools.is_empty());
}

// Liquidity gate boundary inside the search: a future multiplier of 0.0001
// sized at 100000 requires 10 units; a reserve of exactly 10 prunes, one of
// 10.0001 does not.
#[test]
fn gate_boundary_in_search() {
    let make = |a_reserve: &str| {
        vec![
            mk_pool("ab", "A", "B", "1", "1", "0", a_reserve, &mk_big("1000000000000")),
            mk_pool("ba", "B", "A", "1", "0.0001", "0", &mk_big("1000000000000"), &mk_big("1000000000000")),
        ]
    };
    let tokens = vec![mk_token("A", "0"), mk_token("B", "0")];
    let cfg = SearchConfig::standard();
    let root = mk_token("A", "0");

    let at_limit = process_cycles(&root, &make("10"), &tokens, &cfg);
    assert!(dec_is_zero(&at_limit[0].max_price));
    assert!(at_limit[0].pools.is_empty());

    let above_limit = process_cycles(&root, &make("10.0001"), &tokens, &cfg);
    assert!(!dec_is_zero(&above_limit[0].max_price));
    assert!(values_equal(&above_limit[0].max_price, &mk_dec("0.0001")));
    assert_eq!(above_limit[0].pools.len(), 2);
}

// Ranking: multipliers [0.5, 0, 1.2, 0.9, 0.3] rank 1.2, 0.9, 0.5 at the
// top; the zero-multiplier cycle is never emitted.
#[test]
fn ranking_by_descending_multiplier() {
    let values = ["0.5", "0", "1.2", "0.9", "0.3"];
    let cycles: Vec<Cycle> = values
        .iter()
        .map(|v| Cycle {
            root_token: "A".to_string(),
            pools: vec![],
            max_price: mk_dec(v),
        })
        .collect();
    let ranked = top_cycles(cycles);
    assert_eq!(ranked.len(), 4);
    assert!(values_equal(&ranked[0].max_price, &mk_dec("1.2")));
    assert!(values_equal(&ranked[1].max_price, &mk_dec("0.9")));
    assert!(values_equal(&ranked[2].max_price, &mk_dec("0.5")));
    assert!(values_equal(&ranked[3].max_price, &mk_dec("0.3")));
}

// Equal multipliers keep their input order: the sort is stable.
#[test]
fn ranking_is_stable_on_ties() {
    let cycles: Vec<Cycle> = ["first", "second", "third"]
        .iter()
        .map(|name| Cycle {
            root_token: name.to_string(),
            pools: vec![],
            max_price: mk_dec("1.5"),
        })
        .collect();
    let ranked = top_cycles(cycles);
    assert_eq!(ranked.len(), 3);
    assert_eq!(ranked[0].root_token, "first");
    assert_eq!(ranked[1].root_token, "second");
    assert_eq!(ranked[2].root_token, "third");
}

// No emitted report entry carries a non-positive multiplier: the pruned
// candidate disappears from the report even though fewer than ten exist.
#[test]
fn report_drops_zero_multiplier() {
    let pools = vec![
        mk_pool("ab", "A", "B", "1", "1", "0", "", &mk_big("1000000000000")),
        mk_pool("ba", "B", "A", "1", "1", "0", &mk_big("1000000000000"), &mk_big("1000000000000")),
    ];
    let tokens = vec![mk_token("A", "0"), mk_token("B", "0")];
    let cfg = SearchConfig::standard();
    let root = mk_token("A", "0");
    let cycles = process_cycles(&root, &pools, &tokens, &cfg);
    assert_eq!(cycles.len(), 2);
    assert!(dec_is_zero(&cycles[0].max_price));
    let report = poolcycle::cycler::find_arbitrage_cycles(&root, &pools, &tokens, &cfg);
    assert_eq!(report.len(), 1);
    assert_eq!(report[0].pool_ids, vec!["ba", "ab"]);
    assert_eq!(report[0].projected_profit, "1.00000");
}

#[test]
fn ranking_keeps_at_most_ten() {
    let cycles: Vec<Cycle> = (0..14)
        .map(|i| Cycle {
            root_token: "A".to_string(),
            pools: vec![],
            max_price: mk_dec(&format!("{}", i)),
        })
        .collect();
    let ranked = top_cycles(cycles);
    assert_eq!(ranked.len(), 10);
    assert!(values_equal(&ranked[0].max_price, &mk_dec("13")));
    assert!(values_equal(&ranked[9].max_price, &mk_dec("4")));
}

#[test]
fn report_renders_route_and_profit() {
    let (pools, tokens) = triangle();
    let cfg = SearchConfig::standard();
    let report = poolcycle::cycler::find_arbitrage_cycles(&mk_token("A", "0"), &pools, &tokens, &cfg);
    assert_eq!(report.len(), 2);
    // both cycles carry the same multiplier, so their order is a tie; find
    // the one seeded by pool ab
    let top = report.iter().find(|e| e.pool_ids[0] == "ab").expect("cycle through ab");
    assert_eq!(top.length, 3);
    assert_eq!(top.pool_ids, vec!["ab", "bc", "ca"]);
    assert_eq!(
        top.router_path,
        vec!["A", "0", "B", "0", "C", "0", "A"]
    );
    assert_eq!(top.projected_profit, "1.00000");
    for e in &report {
        assert_eq!(e.projected_profit, "1.00000");
        assert_eq!(e.router_path[0], "A");
        assert_eq!(e.router_path[e.router_path.len() - 1], "A");
    }
}

// Fees compound along the path: three hops at 0.3% each give 0.997^3.
#[test]
fn fees_compound_along_cycle() {
    let pools = vec![
        mk_pool("ab", "A", "B", "1", "1", "3000", &mk_big("1000000000000"), &mk_big("1000000000000")),
        mk_pool("bc", "B", "C", "1", "1", "3000", &mk_big("1000000000000"), &mk_big("1000000000000")),
        mk_pool("ca", "C", "A", "1", "1", "3000", &mk_big("1000000000000"), &mk_big("1000000000000")),
    ];
    let tokens = vec![mk_token("A", "0"), mk_token("B", "0"), mk_token("C", "0")];
    let cfg = SearchConfig::standard();
    let cycles = process_cycles(&mk_token("A", "0"), &pools, &tokens, &cfg);
    assert!(values_equal(&cycles[0].max_price, &mk_dec("0.991026973")));
}
